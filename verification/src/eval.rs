//! The dispatcher: a total mapping from opcode byte to handler. Each call
//! performs exactly one state transition against the execution context and
//! returns the control effect the driving loop acts on.

use vstd::prelude::*;
use crate::primitive_types::{U256, p256, lemma_from_nat};
use crate::machine::{Machine, Opcode, ExitReason, ExitSucceed, ExitError};
use crate::misc::{
    same_except_stack, underflow, pop_step, mload_step, mstore_step, mstore8_step,
    push_value_step, calldataload_step, copy_step, jump_step, jumpi_step, push_step,
    dup_step, swap_step, ret_step,
};
use crate::arithmetic::{
    div_spec, rem_spec, sdiv_spec, srem_spec, addmod_spec, mulmod_spec, exp_spec,
    signextend_spec,
};
use crate::bitwise::{slt_spec, sgt_spec, byte_spec, shl_spec, shr_spec, sar_spec};

pub use crate::machine::Control;

verus! {

/// A two-operand instruction: pop `a` then `b`, push `f(a, b)`; underflow
/// leaves the context untouched.
pub open spec fn binop_step(
    pre: Machine,
    post: Machine,
    r: Control,
    f: spec_fn(nat, nat) -> nat,
) -> bool {
    let len = pre.stack@.len() as int;
    if len < 2 {
        post == pre && r == underflow()
    } else {
        &&& post.stack@.len() == len - 1
        &&& post.stack@.take(len - 2) == pre.stack@.take(len - 2)
        &&& post.stack@.last().as_nat() == f(
            pre.stack@[len - 1].as_nat(),
            pre.stack@[len - 2].as_nat(),
        )
        &&& same_except_stack(pre, post)
        &&& r == Control::Continue(1)
    }
}

/// A two-operand instruction described word by word rather than by value:
/// used for the limb-wise bitwise operations.
pub open spec fn binop_step_w(
    pre: Machine,
    post: Machine,
    r: Control,
    f: spec_fn(U256, U256) -> U256,
) -> bool {
    let len = pre.stack@.len() as int;
    if len < 2 {
        post == pre && r == underflow()
    } else {
        &&& post.stack@.len() == len - 1
        &&& post.stack@.take(len - 2) == pre.stack@.take(len - 2)
        &&& post.stack@.last() == f(pre.stack@[len - 1], pre.stack@[len - 2])
        &&& same_except_stack(pre, post)
        &&& r == Control::Continue(1)
    }
}

/// A one-operand instruction: replace the top with `f` of it.
pub open spec fn unop_step(
    pre: Machine,
    post: Machine,
    r: Control,
    f: spec_fn(nat) -> nat,
) -> bool {
    let len = pre.stack@.len() as int;
    if len < 1 {
        post == pre && r == underflow()
    } else {
        &&& post.stack@.len() == len
        &&& post.stack@.take(len - 1) == pre.stack@.take(len - 1)
        &&& post.stack@.last().as_nat() == f(pre.stack@[len - 1].as_nat())
        &&& same_except_stack(pre, post)
        &&& r == Control::Continue(1)
    }
}

/// A three-operand instruction: pop `a`, `b`, `c`, push `f(a, b, c)`.
pub open spec fn terop_step(
    pre: Machine,
    post: Machine,
    r: Control,
    f: spec_fn(nat, nat, nat) -> nat,
) -> bool {
    let len = pre.stack@.len() as int;
    if len < 3 {
        post == pre && r == underflow()
    } else {
        &&& post.stack@.len() == len - 2
        &&& post.stack@.take(len - 3) == pre.stack@.take(len - 3)
        &&& post.stack@.last().as_nat() == f(
            pre.stack@[len - 1].as_nat(),
            pre.stack@[len - 2].as_nat(),
            pre.stack@[len - 3].as_nat(),
        )
        &&& same_except_stack(pre, post)
        &&& r == Control::Continue(1)
    }
}

/// The opcodes this core interprets itself; every other byte escalates to
/// the host as a trap.
pub open spec fn handled(op: u8) -> bool {
    ||| op == 0x00
    ||| 0x01 <= op <= 0x0b
    ||| 0x10 <= op <= 0x1d
    ||| 0x35 <= op <= 0x39
    ||| 0x50 <= op <= 0x53
    ||| op == 0x56 || op == 0x57 || op == 0x58 || op == 0x59 || op == 0x5b
    ||| 0x60 <= op <= 0x9f
    ||| op == 0xf3 || op == 0xfd || op == 0xfe
}

/// Drop the top two words and push one in their place.
fn set_top2(state: &mut Machine, c: U256) -> (r: Control)
    requires
        old(state).wf(),
        old(state).stack@.len() >= 2,
    ensures
        final(state).wf(),
        final(state).stack@.len() == old(state).stack@.len() - 1,
        final(state).stack@.take(old(state).stack@.len() - 2)
            == old(state).stack@.take(old(state).stack@.len() - 2),
        final(state).stack@.last() == c,
        same_except_stack(*old(state), *final(state)),
        r == Control::Continue(1),
{
    let len = state.stack.len();
    state.stack.truncate(len - 1);
    state.stack.set(len - 2, c);
    proof {
        assert(final(state).stack@.take(len - 2) =~= old(state).stack@.take(len - 2));
    }
    Control::Continue(1)
}

/// Drop the top three words and push one in their place.
fn set_top3(state: &mut Machine, c: U256) -> (r: Control)
    requires
        old(state).wf(),
        old(state).stack@.len() >= 3,
    ensures
        final(state).wf(),
        final(state).stack@.len() == old(state).stack@.len() - 2,
        final(state).stack@.take(old(state).stack@.len() - 3)
            == old(state).stack@.take(old(state).stack@.len() - 3),
        final(state).stack@.last() == c,
        same_except_stack(*old(state), *final(state)),
        r == Control::Continue(1),
{
    let len = state.stack.len();
    state.stack.truncate(len - 2);
    state.stack.set(len - 3, c);
    proof {
        assert(final(state).stack@.take(len - 3) =~= old(state).stack@.take(len - 3));
    }
    Control::Continue(1)
}

/// Replace the top word.
fn set_top1(state: &mut Machine, c: U256) -> (r: Control)
    requires
        old(state).wf(),
        old(state).stack@.len() >= 1,
    ensures
        final(state).wf(),
        final(state).stack@.len() == old(state).stack@.len(),
        final(state).stack@.take(old(state).stack@.len() - 1)
            == old(state).stack@.take(old(state).stack@.len() - 1),
        final(state).stack@.last() == c,
        same_except_stack(*old(state), *final(state)),
        r == Control::Continue(1),
{
    let len = state.stack.len();
    state.stack.set(len - 1, c);
    proof {
        assert(final(state).stack@.take(len - 1) =~= old(state).stack@.take(len - 1));
    }
    Control::Continue(1)
}

/// Perform one state transition for `opcode` against the context, with
/// `position` the byte offset of the instruction being stepped, and return
/// the control effect for the driving loop.
#[verifier::rlimit(100)]
pub fn eval(state: &mut Machine, opcode: Opcode, position: usize) -> (r: Control)
    requires
        old(state).wf(),
    ensures
        final(state).wf(),
        opcode.0 == 0x00 ==> *final(state) == *old(state)
            && r == Control::Exit(ExitReason::Succeed(ExitSucceed::Stopped)),
        opcode.0 == 0x01 ==> binop_step(*old(state), *final(state), r,
            (|a: nat, b: nat| (a + b) % p256())),
        opcode.0 == 0x02 ==> binop_step(*old(state), *final(state), r,
            (|a: nat, b: nat| (a * b) % p256())),
        opcode.0 == 0x03 ==> binop_step(*old(state), *final(state), r,
            (|a: nat, b: nat| (((a - b) % (p256() as int)) as nat))),
        opcode.0 == 0x04 ==> binop_step(*old(state), *final(state), r,
            (|a: nat, b: nat| div_spec(a, b))),
        opcode.0 == 0x05 ==> binop_step(*old(state), *final(state), r,
            (|a: nat, b: nat| sdiv_spec(a, b))),
        opcode.0 == 0x06 ==> binop_step(*old(state), *final(state), r,
            (|a: nat, b: nat| rem_spec(a, b))),
        opcode.0 == 0x07 ==> binop_step(*old(state), *final(state), r,
            (|a: nat, b: nat| srem_spec(a, b))),
        opcode.0 == 0x08 ==> terop_step(*old(state), *final(state), r,
            (|a: nat, b: nat, n: nat| addmod_spec(a, b, n))),
        opcode.0 == 0x09 ==> terop_step(*old(state), *final(state), r,
            (|a: nat, b: nat, n: nat| mulmod_spec(a, b, n))),
        opcode.0 == 0x0a ==> binop_step(*old(state), *final(state), r,
            (|a: nat, b: nat| exp_spec(a, b))),
        opcode.0 == 0x0b ==> binop_step(*old(state), *final(state), r,
            (|a: nat, b: nat| signextend_spec(a, b))),
        opcode.0 == 0x10 ==> binop_step(*old(state), *final(state), r,
            (|a: nat, b: nat| if a < b { 1nat } else { 0nat })),
        opcode.0 == 0x11 ==> binop_step(*old(state), *final(state), r,
            (|a: nat, b: nat| if a > b { 1nat } else { 0nat })),
        opcode.0 == 0x12 ==> binop_step(*old(state), *final(state), r,
            (|a: nat, b: nat| slt_spec(a, b))),
        opcode.0 == 0x13 ==> binop_step(*old(state), *final(state), r,
            (|a: nat, b: nat| sgt_spec(a, b))),
        opcode.0 == 0x14 ==> binop_step(*old(state), *final(state), r,
            (|a: nat, b: nat| if a == b { 1nat } else { 0nat })),
        opcode.0 == 0x15 ==> unop_step(*old(state), *final(state), r,
            (|a: nat| if a == 0 { 1nat } else { 0nat })),
        opcode.0 == 0x16 ==> binop_step_w(*old(state), *final(state), r,
            (|a: U256, b: U256| U256 {
                w0: a.w0 & b.w0,
                w1: a.w1 & b.w1,
                w2: a.w2 & b.w2,
                w3: a.w3 & b.w3,
            })),
        opcode.0 == 0x17 ==> binop_step_w(*old(state), *final(state), r,
            (|a: U256, b: U256| U256 {
                w0: a.w0 | b.w0,
                w1: a.w1 | b.w1,
                w2: a.w2 | b.w2,
                w3: a.w3 | b.w3,
            })),
        opcode.0 == 0x18 ==> binop_step_w(*old(state), *final(state), r,
            (|a: U256, b: U256| U256 {
                w0: a.w0 ^ b.w0,
                w1: a.w1 ^ b.w1,
                w2: a.w2 ^ b.w2,
                w3: a.w3 ^ b.w3,
            })),
        opcode.0 == 0x19 ==> unop_step(*old(state), *final(state), r,
            (|a: nat| (p256() - 1 - a) as nat)),
        opcode.0 == 0x1a ==> binop_step(*old(state), *final(state), r,
            (|a: nat, b: nat| byte_spec(a, b))),
        opcode.0 == 0x1b ==> binop_step(*old(state), *final(state), r,
            (|a: nat, b: nat| shl_spec(a, b))),
        opcode.0 == 0x1c ==> binop_step(*old(state), *final(state), r,
            (|a: nat, b: nat| shr_spec(a, b))),
        opcode.0 == 0x1d ==> binop_step(*old(state), *final(state), r,
            (|a: nat, b: nat| sar_spec(a, b))),
        opcode.0 == 0x35 ==> calldataload_step(*old(state), *final(state), r),
        opcode.0 == 0x36 ==> push_value_step(*old(state), *final(state), r,
            old(state).data@.len()),
        opcode.0 == 0x37 ==> copy_step(*old(state), *final(state), r, old(state).data@),
        opcode.0 == 0x38 ==> push_value_step(*old(state), *final(state), r,
            old(state).code@.len()),
        opcode.0 == 0x39 ==> copy_step(*old(state), *final(state), r, old(state).code@),
        opcode.0 == 0x50 ==> pop_step(*old(state), *final(state), r),
        opcode.0 == 0x51 ==> mload_step(*old(state), *final(state), r),
        opcode.0 == 0x52 ==> mstore_step(*old(state), *final(state), r),
        opcode.0 == 0x53 ==> mstore8_step(*old(state), *final(state), r),
        opcode.0 == 0x56 ==> jump_step(*old(state), *final(state), r),
        opcode.0 == 0x57 ==> jumpi_step(*old(state), *final(state), r),
        opcode.0 == 0x58 ==> push_value_step(*old(state), *final(state), r, position as nat),
        opcode.0 == 0x59 ==> push_value_step(*old(state), *final(state), r,
            old(state).memory@.len()),
        opcode.0 == 0x5b ==> *final(state) == *old(state) && r == Control::Continue(1),
        0x60 <= opcode.0 <= 0x7f ==> push_step(*old(state), *final(state), r,
            (opcode.0 - 0x5f) as nat, position as nat),
        0x80 <= opcode.0 <= 0x8f ==> dup_step(*old(state), *final(state), r,
            (opcode.0 - 0x7f) as nat),
        0x90 <= opcode.0 <= 0x9f ==> swap_step(*old(state), *final(state), r,
            (opcode.0 - 0x8f) as nat),
        opcode.0 == 0xf3 ==> ret_step(*old(state), *final(state), r,
            ExitReason::Succeed(ExitSucceed::Returned)),
        opcode.0 == 0xfd ==> ret_step(*old(state), *final(state), r,
            ExitReason::Revert(crate::machine::ExitRevert::Reverted)),
        opcode.0 == 0xfe ==> *final(state) == *old(state)
            && r == Control::Exit(ExitReason::Error(ExitError::DesignatedInvalid)),
        !handled(opcode.0) ==> *final(state) == *old(state) && r == Control::Trap(opcode),
{
    let op = opcode.0;
    let len = state.stack.len();
    if op == 0x00 {
        return Control::Exit(ExitReason::Succeed(ExitSucceed::Stopped));
    }
    if 0x01 <= op && op <= 0x1d && op != 0x08 && op != 0x09 && op != 0x15 && op != 0x19
        && !(0x0c <= op && op <= 0x0f) {
        // the two-operand instructions
        if len < 2 {
            return Control::Exit(ExitReason::Error(ExitError::StackUnderflow));
        }
        let a = state.stack[len - 1];
        let b = state.stack[len - 2];
        let c = if op == 0x01 {
            a.overflowing_add(b).0
        } else if op == 0x02 {
            a.overflowing_mul(b).0
        } else if op == 0x03 {
            a.overflowing_sub(b).0
        } else if op == 0x04 {
            crate::arithmetic::div(a, b)
        } else if op == 0x05 {
            crate::arithmetic::sdiv(a, b)
        } else if op == 0x06 {
            crate::arithmetic::rem(a, b)
        } else if op == 0x07 {
            crate::arithmetic::srem(a, b)
        } else if op == 0x0a {
            crate::arithmetic::exp(a, b)
        } else if op == 0x0b {
            crate::arithmetic::signextend(a, b)
        } else if op == 0x10 {
            if a.lt(&b) {
                U256::one()
            } else {
                U256::zero()
            }
        } else if op == 0x11 {
            if a.gt(&b) {
                U256::one()
            } else {
                U256::zero()
            }
        } else if op == 0x12 {
            crate::bitwise::slt(a, b)
        } else if op == 0x13 {
            crate::bitwise::sgt(a, b)
        } else if op == 0x14 {
            proof {
                lemma_from_nat(a);
            }
            if a == b {
                U256::one()
            } else {
                U256::zero()
            }
        } else if op == 0x16 {
            a.bitand(b)
        } else if op == 0x17 {
            a.bitor(b)
        } else if op == 0x18 {
            a.bitxor(b)
        } else if op == 0x1a {
            crate::bitwise::byte(a, b)
        } else if op == 0x1b {
            crate::bitwise::shl(a, b)
        } else if op == 0x1c {
            crate::bitwise::shr(a, b)
        } else {
            crate::bitwise::sar(a, b)
        };
        return set_top2(state, c);
    }
    if op == 0x08 || op == 0x09 {
        if len < 3 {
            return Control::Exit(ExitReason::Error(ExitError::StackUnderflow));
        }
        let a = state.stack[len - 1];
        let b = state.stack[len - 2];
        let n = state.stack[len - 3];
        let c = if op == 0x08 {
            crate::arithmetic::addmod(a, b, n)
        } else {
            crate::arithmetic::mulmod(a, b, n)
        };
        return set_top3(state, c);
    }
    if op == 0x15 || op == 0x19 {
        if len < 1 {
            return Control::Exit(ExitReason::Error(ExitError::StackUnderflow));
        }
        let a = state.stack[len - 1];
        let c = if op == 0x15 {
            crate::bitwise::iszero(a)
        } else {
            a.not()
        };
        return set_top1(state, c);
    }
    if op == 0x35 {
        return crate::misc::calldataload(state);
    }
    if op == 0x36 {
        return crate::misc::calldatasize(state);
    }
    if op == 0x37 {
        return crate::misc::calldatacopy(state);
    }
    if op == 0x38 {
        return crate::misc::codesize(state);
    }
    if op == 0x39 {
        return crate::misc::codecopy(state);
    }
    if op == 0x50 {
        return crate::misc::pop(state);
    }
    if op == 0x51 {
        return crate::misc::mload(state);
    }
    if op == 0x52 {
        return crate::misc::mstore(state);
    }
    if op == 0x53 {
        return crate::misc::mstore8(state);
    }
    if op == 0x56 {
        return crate::misc::jump(state);
    }
    if op == 0x57 {
        return crate::misc::jumpi(state);
    }
    if op == 0x58 {
        return crate::misc::pc(state, position);
    }
    if op == 0x59 {
        return crate::misc::msize(state);
    }
    if op == 0x5b {
        return Control::Continue(1);
    }
    if 0x60 <= op && op <= 0x7f {
        return crate::misc::push(state, (op - 0x5f) as usize, position);
    }
    if 0x80 <= op && op <= 0x8f {
        return crate::misc::dup(state, (op - 0x7f) as usize);
    }
    if 0x90 <= op && op <= 0x9f {
        return crate::misc::swap(state, (op - 0x8f) as usize);
    }
    if op == 0xf3 {
        return crate::misc::ret(state);
    }
    if op == 0xfd {
        return crate::misc::revert(state);
    }
    if op == 0xfe {
        return Control::Exit(ExitReason::Error(ExitError::DesignatedInvalid));
    }
    Control::Trap(opcode)
}

} // verus!
