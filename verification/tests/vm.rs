use evm_core::eval::{eval, Control};
use evm_core::machine::{ExitError, ExitReason, ExitSucceed, Machine, Opcode};
use evm_core::primitive_types::U256;

fn w(v: u64) -> U256 {
    U256::from_u64(v)
}

fn fresh(code: Vec<u8>) -> Machine {
    Machine::new(code, Vec::new())
}

/// Run until the machine exits or traps, driving the position as the
/// control effects direct.
fn run(m: &mut Machine) -> Control {
    let mut pos: usize = 0;
    loop {
        if pos >= m.code.len() {
            return Control::Exit(ExitReason::Succeed(ExitSucceed::Stopped));
        }
        let op = m.code[pos];
        match eval(m, Opcode(op), pos) {
            Control::Continue(n) => pos += n,
            Control::Jump(t) => pos = t,
            other => return other,
        }
    }
}

#[test]
fn push_add_stop() {
    let mut m = fresh(vec![0x60, 0x05, 0x60, 0x03, 0x01, 0x00]);
    let c1 = eval(&mut m, Opcode(0x60), 0);
    assert_eq!(c1, Control::Continue(2));
    assert_eq!(m.stack, vec![w(5)]);
    let c2 = eval(&mut m, Opcode(0x60), 2);
    assert_eq!(c2, Control::Continue(2));
    let c3 = eval(&mut m, Opcode(0x01), 4);
    assert_eq!(c3, Control::Continue(1));
    assert_eq!(m.stack, vec![w(8)]);
    let c4 = eval(&mut m, Opcode(0x00), 5);
    assert_eq!(c4, Control::Exit(ExitReason::Succeed(ExitSucceed::Stopped)));
}

#[test]
fn div_by_zero_pushes_zero() {
    let mut m = fresh(vec![]);
    m.stack.push(w(0));
    m.stack.push(w(10));
    let c = eval(&mut m, Opcode(0x04), 0);
    assert_eq!(c, Control::Continue(1));
    assert_eq!(m.stack, vec![U256::zero()]);
}

#[test]
fn pop_on_empty_underflows_without_change() {
    let mut m = fresh(vec![0x50]);
    let c = eval(&mut m, Opcode(0x50), 0);
    assert_eq!(c, Control::Exit(ExitReason::Error(ExitError::StackUnderflow)));
    assert!(m.stack.is_empty());
    assert!(m.memory.is_empty());
}

#[test]
fn mstore_then_mload_round_trips() {
    let mut m = fresh(vec![]);
    let v = U256 { w0: 0xDEAD_BEEF, w1: 7, w2: 0, w3: 0x0102_0304_0506_0708 };
    m.stack.push(v);
    m.stack.push(w(0));
    let c1 = eval(&mut m, Opcode(0x52), 0);
    assert_eq!(c1, Control::Continue(1));
    assert_eq!(m.memory.len(), 32);
    m.stack.push(w(0));
    let c2 = eval(&mut m, Opcode(0x51), 0);
    assert_eq!(c2, Control::Continue(1));
    assert_eq!(m.stack, vec![v]);
    assert_eq!(m.memory.len(), 32);
}

#[test]
fn truncated_push_reads_available_bytes() {
    let mut m = fresh(vec![0x61, 0xAB]);
    let c = eval(&mut m, Opcode(0x61), 0);
    assert_eq!(c, Control::Continue(3));
    assert_eq!(m.stack, vec![w(0xAB)]);
}

#[test]
fn dup_and_swap_underflow_leave_stack_as_it_was() {
    let mut m = fresh(vec![]);
    m.stack.push(w(42));
    let c1 = eval(&mut m, Opcode(0x81), 0);
    assert_eq!(c1, Control::Exit(ExitReason::Error(ExitError::StackUnderflow)));
    assert_eq!(m.stack, vec![w(42)]);
    let c2 = eval(&mut m, Opcode(0x90), 0);
    assert_eq!(c2, Control::Exit(ExitReason::Error(ExitError::StackUnderflow)));
    assert_eq!(m.stack, vec![w(42)]);
}

#[test]
fn dup_and_swap_work_in_depth() {
    let mut m = fresh(vec![]);
    m.stack.push(w(1));
    m.stack.push(w(2));
    let c1 = eval(&mut m, Opcode(0x81), 0);
    assert_eq!(c1, Control::Continue(1));
    assert_eq!(m.stack, vec![w(1), w(2), w(1)]);
    let c2 = eval(&mut m, Opcode(0x90), 0);
    assert_eq!(c2, Control::Continue(1));
    assert_eq!(m.stack, vec![w(1), w(1), w(2)]);
    let c3 = eval(&mut m, Opcode(0x91), 0);
    assert_eq!(c3, Control::Continue(1));
    assert_eq!(m.stack, vec![w(2), w(1), w(1)]);
}

#[test]
fn jump_into_push_immediate_is_invalid() {
    // byte 1 holds the JUMPDEST value but sits inside the PUSH1 immediate
    let mut m = fresh(vec![0x60, 0x5b, 0x00]);
    m.stack.push(w(1));
    let c = eval(&mut m, Opcode(0x56), 0);
    assert_eq!(c, Control::Exit(ExitReason::Error(ExitError::InvalidJump)));
}

#[test]
fn jump_to_real_jumpdest() {
    let mut m = fresh(vec![0x5b, 0x00]);
    m.stack.push(w(0));
    let c = eval(&mut m, Opcode(0x56), 0);
    assert_eq!(c, Control::Jump(0));
    let c2 = eval(&mut m, Opcode(0x5b), 0);
    assert_eq!(c2, Control::Continue(1));
}

#[test]
fn jumpi_falls_through_on_zero() {
    let mut m = fresh(vec![0x5b, 0x00]);
    m.stack.push(w(0));
    m.stack.push(w(0));
    let c = eval(&mut m, Opcode(0x57), 0);
    assert_eq!(c, Control::Continue(1));
    assert!(m.stack.is_empty());
    m.stack.push(w(1));
    m.stack.push(w(0));
    let c2 = eval(&mut m, Opcode(0x57), 0);
    assert_eq!(c2, Control::Jump(0));
}

#[test]
fn unknown_opcode_traps() {
    let mut m = fresh(vec![]);
    let c = eval(&mut m, Opcode(0x54), 0);
    assert_eq!(c, Control::Trap(Opcode(0x54)));
    let c2 = eval(&mut m, Opcode(0xff), 0);
    assert_eq!(c2, Control::Trap(Opcode(0xff)));
}

#[test]
fn invalid_instruction_exits() {
    let mut m = fresh(vec![]);
    let c = eval(&mut m, Opcode(0xfe), 0);
    assert_eq!(c, Control::Exit(ExitReason::Error(ExitError::DesignatedInvalid)));
}

#[test]
fn calldataload_zero_pads() {
    let mut m = Machine::new(vec![], vec![1, 2, 3]);
    m.stack.push(w(0));
    let c = eval(&mut m, Opcode(0x35), 0);
    assert_eq!(c, Control::Continue(1));
    let expected = U256 { w0: 0, w1: 0, w2: 0, w3: 0x0102_0300_0000_0000 };
    assert_eq!(m.stack, vec![expected]);
    m.stack.clear();
    m.stack.push(w(100));
    eval(&mut m, Opcode(0x35), 0);
    assert_eq!(m.stack, vec![U256::zero()]);
}

#[test]
fn sizes_and_pc() {
    let mut m = Machine::new(vec![0x58, 0x00], vec![9, 9, 9]);
    eval(&mut m, Opcode(0x38), 0);
    eval(&mut m, Opcode(0x36), 0);
    eval(&mut m, Opcode(0x59), 0);
    eval(&mut m, Opcode(0x58), 7);
    assert_eq!(m.stack, vec![w(2), w(3), w(0), w(7)]);
}

#[test]
fn codecopy_pads_past_end() {
    let mut m = fresh(vec![0xAA, 0xBB]);
    m.stack.push(w(4)); // length
    m.stack.push(w(1)); // code offset
    m.stack.push(w(0)); // memory offset
    let c = eval(&mut m, Opcode(0x39), 0);
    assert_eq!(c, Control::Continue(1));
    assert_eq!(m.memory.len(), 32);
    assert_eq!(&m.memory[0..4], &[0xBB, 0, 0, 0]);
    // a zero-length copy is a no-op even with a wild offset
    m.stack.push(w(0));
    m.stack.push(w(1));
    m.stack.push(U256::zero().not());
    let c2 = eval(&mut m, Opcode(0x39), 0);
    assert_eq!(c2, Control::Continue(1));
    assert_eq!(m.memory.len(), 32);
}

#[test]
fn return_and_revert_carry_payload() {
    let mut m = fresh(vec![]);
    m.stack.push(w(0x1122));
    m.stack.push(w(0));
    eval(&mut m, Opcode(0x52), 0);
    m.stack.push(w(2)); // length
    m.stack.push(w(30)); // offset
    let c = eval(&mut m, Opcode(0xf3), 0);
    assert_eq!(c, Control::Exit(ExitReason::Succeed(ExitSucceed::Returned)));
    assert_eq!(m.retval, vec![0x11, 0x22]);

    let mut m2 = fresh(vec![]);
    m2.stack.push(w(0xAB));
    m2.stack.push(w(0));
    eval(&mut m2, Opcode(0x53), 0);
    m2.stack.push(w(1));
    m2.stack.push(w(0));
    let c2 = eval(&mut m2, Opcode(0xfd), 0);
    assert_eq!(
        c2,
        Control::Exit(ExitReason::Revert(evm_core::machine::ExitRevert::Reverted))
    );
    assert_eq!(m2.retval, vec![0xAB]);
}

#[test]
fn whole_program_runs() {
    // 5 + 3, stored to memory, returned as a 32-byte payload
    let code = vec![
        0x60, 0x05, 0x60, 0x03, 0x01, 0x60, 0x00, 0x52, 0x60, 0x20, 0x60, 0x00, 0xf3,
    ];
    let mut m = fresh(code);
    let c = run(&mut m);
    assert_eq!(c, Control::Exit(ExitReason::Succeed(ExitSucceed::Returned)));
    assert_eq!(m.retval.len(), 32);
    assert_eq!(m.retval[31], 8);
}

#[test]
fn push_on_full_stack_overflows() {
    let mut m = fresh(vec![0x60, 0x01]);
    for _ in 0..1024 {
        m.stack.push(w(0));
    }
    let c = eval(&mut m, Opcode(0x60), 0);
    assert_eq!(c, Control::Exit(ExitReason::Error(ExitError::StackOverflow)));
    assert_eq!(m.stack.len(), 1024);
    let c2 = eval(&mut m, Opcode(0x80), 0);
    assert_eq!(c2, Control::Exit(ExitReason::Error(ExitError::StackOverflow)));
}

#[test]
fn huge_offset_is_an_invalid_range() {
    let mut m = fresh(vec![]);
    m.stack.push(U256 { w0: 0, w1: 1, w2: 0, w3: 0 });
    let c = eval(&mut m, Opcode(0x51), 0);
    assert_eq!(c, Control::Exit(ExitReason::Error(ExitError::InvalidRange)));
    assert!(m.memory.is_empty());
    assert_eq!(m.stack.len(), 1);
}

#[test]
fn bitwise_ops_through_dispatch() {
    let mut m = fresh(vec![]);
    m.stack.push(w(0b1100));
    m.stack.push(w(0b1010));
    eval(&mut m, Opcode(0x16), 0);
    assert_eq!(m.stack, vec![w(0b1000)]);
    m.stack.push(w(0b0101));
    eval(&mut m, Opcode(0x17), 0);
    assert_eq!(m.stack, vec![w(0b1101)]);
    m.stack.push(w(0b0110));
    eval(&mut m, Opcode(0x18), 0);
    assert_eq!(m.stack, vec![w(0b1011)]);
    eval(&mut m, Opcode(0x19), 0);
    let mut expected = U256::zero().not();
    expected.w0 = !0b1011u64;
    assert_eq!(m.stack, vec![expected]);
}

#[test]
fn comparisons_through_dispatch() {
    let mut m = fresh(vec![]);
    m.stack.push(w(4));
    m.stack.push(w(3));
    eval(&mut m, Opcode(0x10), 0); // 3 < 4
    assert_eq!(m.stack, vec![w(1)]);
    m.stack.push(w(1));
    eval(&mut m, Opcode(0x14), 0); // 1 == 1
    assert_eq!(m.stack, vec![w(1)]);
    eval(&mut m, Opcode(0x15), 0); // iszero(1)
    assert_eq!(m.stack, vec![w(0)]);
    m.stack.push(w(5));
    eval(&mut m, Opcode(0x11), 0); // 5 > 0
    assert_eq!(m.stack, vec![w(1)]);
}

#[test]
fn wide_modular_ops_through_dispatch() {
    let mut m = fresh(vec![]);
    m.stack.push(w(8)); // modulus
    m.stack.push(w(10));
    m.stack.push(w(10));
    eval(&mut m, Opcode(0x08), 0);
    assert_eq!(m.stack, vec![w(4)]);
    m.stack.push(w(7)); // modulus
    m.stack.push(w(6));
    m.stack.push(w(6));
    eval(&mut m, Opcode(0x09), 0);
    assert_eq!(m.stack, vec![w(4), w(1)]);
}

#[test]
fn calldatacopy_pads_past_end() {
    let mut m = Machine::new(vec![], vec![0x10, 0x20, 0x30]);
    m.stack.push(w(4)); // length
    m.stack.push(w(2)); // input offset
    m.stack.push(w(1)); // memory offset
    let c = eval(&mut m, Opcode(0x37), 0);
    assert_eq!(c, Control::Continue(1));
    assert_eq!(m.memory.len(), 32);
    assert_eq!(&m.memory[0..6], &[0, 0x30, 0, 0, 0, 0]);
    assert!(m.stack.is_empty());
}
