//! Stack, memory, call-input, code, jump and termination instruction
//! semantics, each as one atomic state transition: an operation either
//! completes fully or fails without touching the context.

use vstd::prelude::*;
use crate::primitive_types::{U256, be_val, p256};
use crate::machine::{
    Machine, Control, ExitReason, ExitSucceed, ExitRevert, ExitError, valid_jumpdest,
    STACK_LIMIT,
};

verus! {

/// Every field but the stack is unchanged.
pub open spec fn same_except_stack(pre: Machine, post: Machine) -> bool {
    &&& post.code@ == pre.code@
    &&& post.data@ == pre.data@
    &&& post.memory@ == pre.memory@
    &&& post.retval@ == pre.retval@
    &&& post.valids@ == pre.valids@
}

/// Every field but the stack and the memory is unchanged.
pub open spec fn same_but_stack_memory(pre: Machine, post: Machine) -> bool {
    &&& post.code@ == pre.code@
    &&& post.data@ == pre.data@
    &&& post.retval@ == pre.retval@
    &&& post.valids@ == pre.valids@
}

/// The stack-underflow exit.
pub open spec fn underflow() -> Control {
    Control::Exit(ExitReason::Error(ExitError::StackUnderflow))
}

/// The smallest multiple of 32 covering `n` bytes.
pub open spec fn round32(n: nat) -> nat {
    ((n + 31) / 32) * 32
}

/// Memory after an access that touches bytes below `end`: unchanged if it
/// is already long enough, else zero-extended to the smallest multiple of
/// 32 covering `end`.
pub open spec fn expand_mem(mem: Seq<u8>, end: nat) -> Seq<u8> {
    if end <= mem.len() {
        mem
    } else {
        mem + Seq::new((round32(end) - mem.len()) as nat, |i: int| 0u8)
    }
}

/// A read of `len` bytes at `off` from a fixed buffer, reading zero for
/// every position past the buffer's end.
pub open spec fn padded_read(src: Seq<u8>, off: nat, len: nat) -> Seq<u8> {
    Seq::new(len, |i: int| if off + i < src.len() { src[off + i] } else { 0u8 })
}

/// Offsets such that every byte below `off + len` has an address, with
/// room for rounding up to a 32-byte boundary.
pub open spec fn fits_mem(end: nat) -> bool {
    end <= usize::MAX - 31
}

/// Grow memory to cover `end` bytes, in whole 32-byte pieces, zero-filling
/// the new region.
fn resize_memory(state: &mut Machine, end: usize)
    requires
        old(state).memory@.len() % 32 == 0,
        end <= usize::MAX - 31,
    ensures
        final(state).memory@ == expand_mem(old(state).memory@, end as nat),
        final(state).memory@.len() % 32 == 0,
        final(state).memory@.len() >= end,
        final(state).stack@ == old(state).stack@,
        same_but_stack_memory(*old(state), *final(state)),
{
    let cur = state.memory.len();
    if end <= cur {
        return ;
    }
    let target = ((end + 31) / 32) * 32;
    proof {
        vstd::arithmetic::div_mod::lemma_mod_multiples_basic(
            ((end + 31) / 32) as int, 32);
        assert(target >= end);
        assert(target % 32 == 0);
    }
    let ghost base = state.memory@;
    while state.memory.len() < target
        invariant
            base.len() <= state.memory@.len() <= target,
            state.memory@.take(base.len() as int) == base,
            forall|i: int| base.len() <= i < state.memory@.len() ==> state.memory@[i] == 0u8,
            state.stack@ == old(state).stack@,
            same_but_stack_memory(*old(state), *state),
            base == old(state).memory@,
        decreases target - state.memory@.len(),
    {
        state.memory.push(0u8);
        proof {
            assert(state.memory@.take(base.len() as int) =~= base);
        }
    }
    proof {
        assert(state.memory@ =~= expand_mem(base, end as nat));
    }
}

/// Copy a byte string into memory at `off`.
fn memory_write(state: &mut Machine, off: usize, bytes: &Vec<u8>)
    requires
        off + bytes@.len() <= old(state).memory@.len(),
    ensures
        final(state).memory@ == old(state).memory@.take(off as int) + bytes@
            + old(state).memory@.skip(off + bytes@.len()),
        final(state).stack@ == old(state).stack@,
        same_but_stack_memory(*old(state), *final(state)),
{
    let n = bytes.len();
    let ml = state.memory.len();
    let mut i: usize = 0;
    while i < n
        invariant
            i <= n,
            n == bytes@.len(),
            off + n <= ml,
            ml == state.memory@.len(),
            state.memory@.len() == old(state).memory@.len(),
            forall|j: int| 0 <= j < off ==> state.memory@[j] == old(state).memory@[j],
            forall|j: int| 0 <= j < i ==> state.memory@[off + j] == bytes@[j],
            forall|j: int| off + i <= j < state.memory@.len()
                ==> state.memory@[j] == old(state).memory@[j],
            state.stack@ == old(state).stack@,
            same_but_stack_memory(*old(state), *state),
        decreases n - i,
    {
        let b = bytes[i];
        let idx = off + i;
        state.memory.set(idx, b);
        i = i + 1;
    }
    proof {
        assert(final(state).memory@ =~= old(state).memory@.take(off as int) + bytes@
            + old(state).memory@.skip(off + n));
    }
}

/// Read a byte range out of memory.
fn memory_read(state: &Machine, off: usize, len: usize) -> (r: Vec<u8>)
    requires
        off + len <= state.memory@.len(),
    ensures
        r@ == state.memory@.subrange(off as int, off + len),
{
    let mut v: Vec<u8> = Vec::new();
    let ml = state.memory.len();
    let mut i: usize = 0;
    while i < len
        invariant
            i <= len,
            off + len <= ml,
            ml == state.memory@.len(),
            v@ == state.memory@.subrange(off as int, off + i),
        decreases len - i,
    {
        let b = state.memory[off + i];
        v.push(b);
        i = i + 1;
        proof {
            assert(v@ =~= state.memory@.subrange(off as int, off + i));
        }
    }
    proof {
        assert(v@ =~= state.memory@.subrange(off as int, off + len));
    }
    v
}

/// Read `len` bytes at `off` from a buffer, zero for positions past its end.
fn buffer_read(src: &Vec<u8>, off: &U256, len: usize) -> (r: Vec<u8>)
    ensures
        r@ == padded_read(src@, off.as_nat(), len as nat),
{
    let n = src.len();
    let off_small = off.try_to_usize();
    let mut v: Vec<u8> = Vec::new();
    let mut i: usize = 0;
    while i < len
        invariant
            i <= len,
            n == src@.len(),
            off_small matches Some(o) ==> o == off.as_nat(),
            off_small is None ==> off.as_nat() > usize::MAX,
            v@ == padded_read(src@, off.as_nat(), i as nat),
        decreases len - i,
    {
        let b: u8 = match off_small {
            Some(o) => {
                if o < n && i < n - o {
                    src[o + i]
                } else {
                    0u8
                }
            },
            None => 0u8,
        };
        v.push(b);
        i = i + 1;
        proof {
            assert(v@ =~= padded_read(src@, off.as_nat(), i as nat));
        }
    }
    v
}

/// POP: discard the top of the stack.
pub open spec fn pop_step(pre: Machine, post: Machine, r: Control) -> bool {
    if pre.stack@.len() < 1 {
        post == pre && r == underflow()
    } else {
        &&& post.stack@ == pre.stack@.drop_last()
        &&& same_except_stack(pre, post)
        &&& r == Control::Continue(1)
    }
}

pub fn pop(state: &mut Machine) -> (r: Control)
    requires
        old(state).wf(),
    ensures
        final(state).wf(),
        pop_step(*old(state), *final(state), r),
{
    if state.stack.len() < 1 {
        return Control::Exit(ExitReason::Error(ExitError::StackUnderflow));
    }
    state.stack.pop();
    Control::Continue(1)
}

/// MLOAD: pop an offset, read the 32 bytes there (growing memory), and
/// push them as a big-endian word.
pub open spec fn mload_step(pre: Machine, post: Machine, r: Control) -> bool {
    let len = pre.stack@.len() as int;
    if len < 1 {
        post == pre && r == underflow()
    } else {
        let off = pre.stack@.last().as_nat();
        if !fits_mem(off + 32) {
            post == pre && r == Control::Exit(ExitReason::Error(ExitError::InvalidRange))
        } else {
            let m = expand_mem(pre.memory@, off + 32);
            &&& post.memory@ == m
            &&& post.stack@.len() == len
            &&& post.stack@.take(len - 1) == pre.stack@.take(len - 1)
            &&& post.stack@.last().as_nat() == be_val(m.subrange(off as int, off as int + 32))
            &&& same_but_stack_memory(pre, post)
            &&& r == Control::Continue(1)
        }
    }
}

pub fn mload(state: &mut Machine) -> (r: Control)
    requires
        old(state).wf(),
    ensures
        final(state).wf(),
        mload_step(*old(state), *final(state), r),
{
    let len = state.stack.len();
    if len < 1 {
        return Control::Exit(ExitReason::Error(ExitError::StackUnderflow));
    }
    let off_w = state.stack[len - 1];
    let off = match off_w.try_to_usize() {
        Some(o) => o,
        None => {
            return Control::Exit(ExitReason::Error(ExitError::InvalidRange));
        },
    };
    if off > usize::MAX - 63 {
        return Control::Exit(ExitReason::Error(ExitError::InvalidRange));
    }
    resize_memory(state, off + 32);
    let bytes = memory_read(state, off, 32);
    let w = U256::from_big_endian_fast(bytes.as_slice());
    state.stack.set(len - 1, w);
    proof {
        assert(final(state).stack@.take(len - 1) =~= old(state).stack@.take(len - 1));
    }
    Control::Continue(1)
}

/// MSTORE: pop an offset and a word, and write the word's 32-byte
/// big-endian form there, growing memory.
pub open spec fn mstore_step(pre: Machine, post: Machine, r: Control) -> bool {
    let len = pre.stack@.len() as int;
    if len < 2 {
        post == pre && r == underflow()
    } else {
        let off = pre.stack@[len - 1].as_nat();
        let value = pre.stack@[len - 2].as_nat();
        if !fits_mem(off + 32) {
            post == pre && r == Control::Exit(ExitReason::Error(ExitError::InvalidRange))
        } else {
            let m = expand_mem(pre.memory@, off + 32);
            &&& post.stack@ == pre.stack@.take(len - 2)
            &&& post.memory@.len() == m.len()
            &&& post.memory@.take(off as int) == m.take(off as int)
            &&& post.memory@.skip(off as int + 32) == m.skip(off as int + 32)
            &&& be_val(post.memory@.subrange(off as int, off as int + 32)) == value
            &&& same_but_stack_memory(pre, post)
            &&& r == Control::Continue(1)
        }
    }
}

pub fn mstore(state: &mut Machine) -> (r: Control)
    requires
        old(state).wf(),
    ensures
        final(state).wf(),
        mstore_step(*old(state), *final(state), r),
{
    let len = state.stack.len();
    if len < 2 {
        return Control::Exit(ExitReason::Error(ExitError::StackUnderflow));
    }
    let off_w = state.stack[len - 1];
    let value = state.stack[len - 2];
    let off = match off_w.try_to_usize() {
        Some(o) => o,
        None => {
            return Control::Exit(ExitReason::Error(ExitError::InvalidRange));
        },
    };
    if off > usize::MAX - 63 {
        return Control::Exit(ExitReason::Error(ExitError::InvalidRange));
    }
    resize_memory(state, off + 32);
    let bytes = value.to_big_endian();
    memory_write(state, off, &bytes);
    state.stack.truncate(len - 2);
    proof {
        let post = *state;
        let m = expand_mem(old(state).memory@, (off + 32) as nat);
        assert(post.memory@.take(off as int) =~= m.take(off as int));
        assert(post.memory@.skip(off as int + 32) =~= m.skip(off as int + 32));
        assert(post.memory@.subrange(off as int, off as int + 32) =~= bytes@);
    }
    Control::Continue(1)
}

/// MSTORE8: pop an offset and a word, and write the word's low byte there,
/// growing memory.
pub open spec fn mstore8_step(pre: Machine, post: Machine, r: Control) -> bool {
    let len = pre.stack@.len() as int;
    if len < 2 {
        post == pre && r == underflow()
    } else {
        let off = pre.stack@[len - 1].as_nat();
        let value = pre.stack@[len - 2].as_nat();
        if !fits_mem(off + 1) {
            post == pre && r == Control::Exit(ExitReason::Error(ExitError::InvalidRange))
        } else {
            let m = expand_mem(pre.memory@, off + 1);
            &&& post.stack@ == pre.stack@.take(len - 2)
            &&& post.memory@ == m.update(off as int, (value % 256) as u8)
            &&& same_but_stack_memory(pre, post)
            &&& r == Control::Continue(1)
        }
    }
}

pub fn mstore8(state: &mut Machine) -> (r: Control)
    requires
        old(state).wf(),
    ensures
        final(state).wf(),
        mstore8_step(*old(state), *final(state), r),
{
    let len = state.stack.len();
    if len < 2 {
        return Control::Exit(ExitReason::Error(ExitError::StackUnderflow));
    }
    let off_w = state.stack[len - 1];
    let value = state.stack[len - 2];
    let off = match off_w.try_to_usize() {
        Some(o) => o,
        None => {
            return Control::Exit(ExitReason::Error(ExitError::InvalidRange));
        },
    };
    if off > usize::MAX - 32 {
        return Control::Exit(ExitReason::Error(ExitError::InvalidRange));
    }
    resize_memory(state, off + 1);
    let b: u8 = (value.w0 & 0xFFu64) as u8;
    proof {
        let y0 = value.w0;
        assert(y0 & 0xFFu64 == y0 % 256) by (bit_vector);
        let hi = (value.w1 * 0x0100_0000_0000_0000
            + value.w2 * 0x0100_0000_0000_0000_0000_0000_0000_0000
            + value.w3
                * 0x0100_0000_0000_0000_0000_0000_0000_0000_0000_0000_0000_0000) as int;
        assert(value.as_nat() == 256 * hi + y0);
        vstd::arithmetic::div_mod::lemma_mod_multiples_vanish(hi, y0 as int, 256);
        vstd::arithmetic::div_mod::lemma_small_mod((y0 % 256) as nat, 256);
        assert(value.as_nat() % 256 == y0 % 256);
    }
    state.memory.set(off, b);
    state.stack.truncate(len - 2);
    proof {
        let m = expand_mem(old(state).memory@, (off + 1) as nat);
        assert(final(state).memory@ =~= m.update(off as int, (value.as_nat() % 256) as u8));
        assert(final(state).stack@ =~= old(state).stack@.take(len - 2));
    }
    Control::Continue(1)
}

/// MSIZE, CODESIZE, CALLDATASIZE and PC all push one machine quantity.
pub open spec fn push_value_step(pre: Machine, post: Machine, r: Control, v: nat) -> bool {
    if pre.stack@.len() >= STACK_LIMIT {
        post == pre && r == Control::Exit(ExitReason::Error(ExitError::StackOverflow))
    } else {
        &&& post.stack@.len() == pre.stack@.len() + 1
        &&& post.stack@.drop_last() == pre.stack@
        &&& post.stack@.last().as_nat() == v
        &&& same_except_stack(pre, post)
        &&& r == Control::Continue(1)
    }
}

/// Push one word, after the caller has checked the depth bound.
fn push_word(state: &mut Machine, w: U256) -> (r: Control)
    requires
        old(state).wf(),
        old(state).stack@.len() < STACK_LIMIT,
    ensures
        final(state).wf(),
        final(state).stack@ == old(state).stack@.push(w),
        same_except_stack(*old(state), *final(state)),
        r == Control::Continue(1),
{
    state.stack.push(w);
    Control::Continue(1)
}

/// PC: push the position of the instruction being stepped.
pub fn pc(state: &mut Machine, position: usize) -> (r: Control)
    requires
        old(state).wf(),
    ensures
        final(state).wf(),
        push_value_step(*old(state), *final(state), r, position as nat),
{
    if state.stack.len() >= STACK_LIMIT {
        return Control::Exit(ExitReason::Error(ExitError::StackOverflow));
    }
    let w = U256::from_usize(position);
    let r = push_word(state, w);
    proof {
        assert(final(state).stack@.drop_last() =~= old(state).stack@);
    }
    r
}

/// MSIZE: push the current memory length in bytes.
pub fn msize(state: &mut Machine) -> (r: Control)
    requires
        old(state).wf(),
    ensures
        final(state).wf(),
        push_value_step(*old(state), *final(state), r, old(state).memory@.len()),
{
    if state.stack.len() >= STACK_LIMIT {
        return Control::Exit(ExitReason::Error(ExitError::StackOverflow));
    }
    let w = U256::from_usize(state.memory.len());
    let r = push_word(state, w);
    proof {
        assert(final(state).stack@.drop_last() =~= old(state).stack@);
    }
    r
}

/// CODESIZE: push the code length in bytes.
pub fn codesize(state: &mut Machine) -> (r: Control)
    requires
        old(state).wf(),
    ensures
        final(state).wf(),
        push_value_step(*old(state), *final(state), r, old(state).code@.len()),
{
    if state.stack.len() >= STACK_LIMIT {
        return Control::Exit(ExitReason::Error(ExitError::StackOverflow));
    }
    let w = U256::from_usize(state.code.len());
    let r = push_word(state, w);
    proof {
        assert(final(state).stack@.drop_last() =~= old(state).stack@);
    }
    r
}

/// CALLDATASIZE: push the call input length in bytes.
pub fn calldatasize(state: &mut Machine) -> (r: Control)
    requires
        old(state).wf(),
    ensures
        final(state).wf(),
        push_value_step(*old(state), *final(state), r, old(state).data@.len()),
{
    if state.stack.len() >= STACK_LIMIT {
        return Control::Exit(ExitReason::Error(ExitError::StackOverflow));
    }
    let w = U256::from_usize(state.data.len());
    let r = push_word(state, w);
    proof {
        assert(final(state).stack@.drop_last() =~= old(state).stack@);
    }
    r
}

/// CALLDATALOAD: pop an offset and push the 32 input bytes there, reading
/// zero past the input's end.
pub open spec fn calldataload_step(pre: Machine, post: Machine, r: Control) -> bool {
    let len = pre.stack@.len() as int;
    if len < 1 {
        post == pre && r == underflow()
    } else {
        let off = pre.stack@.last().as_nat();
        &&& post.stack@.len() == len
        &&& post.stack@.take(len - 1) == pre.stack@.take(len - 1)
        &&& post.stack@.last().as_nat() == be_val(padded_read(pre.data@, off, 32))
        &&& same_except_stack(pre, post)
        &&& r == Control::Continue(1)
    }
}

pub fn calldataload(state: &mut Machine) -> (r: Control)
    requires
        old(state).wf(),
    ensures
        final(state).wf(),
        calldataload_step(*old(state), *final(state), r),
{
    let len = state.stack.len();
    if len < 1 {
        return Control::Exit(ExitReason::Error(ExitError::StackUnderflow));
    }
    let off_w = state.stack[len - 1];
    let bytes = buffer_read(&state.data, &off_w, 32);
    let w = U256::from_big_endian_fast(bytes.as_slice());
    state.stack.set(len - 1, w);
    proof {
        assert(final(state).stack@.take(len - 1) =~= old(state).stack@.take(len - 1));
    }
    Control::Continue(1)
}

/// CODECOPY and CALLDATACOPY: pop a destination, a source offset and a
/// length; copy that many source bytes to memory, reading zero past the
/// source's end. A zero-length copy changes nothing, whatever the offsets.
pub open spec fn copy_step(pre: Machine, post: Machine, r: Control, src: Seq<u8>) -> bool {
    let len = pre.stack@.len() as int;
    if len < 3 {
        post == pre && r == underflow()
    } else {
        let dest = pre.stack@[len - 1].as_nat();
        let srcoff = pre.stack@[len - 2].as_nat();
        let n = pre.stack@[len - 3].as_nat();
        if n == 0 {
            &&& post.stack@ == pre.stack@.take(len - 3)
            &&& same_except_stack(pre, post)
            &&& r == Control::Continue(1)
        } else if !fits_mem(dest + n) {
            post == pre && r == Control::Exit(ExitReason::Error(ExitError::InvalidRange))
        } else {
            let m = expand_mem(pre.memory@, dest + n);
            &&& post.stack@ == pre.stack@.take(len - 3)
            &&& post.memory@ == m.take(dest as int) + padded_read(src, srcoff, n)
                + m.skip(dest as int + n)
            &&& same_but_stack_memory(pre, post)
            &&& r == Control::Continue(1)
        }
    }
}

/// The copy body shared by CODECOPY and CALLDATACOPY, with `from_code`
/// choosing the source buffer.
fn copy_common(state: &mut Machine, from_code: bool) -> (r: Control)
    requires
        old(state).wf(),
    ensures
        final(state).wf(),
        copy_step(
            *old(state),
            *final(state),
            r,
            if from_code { old(state).code@ } else { old(state).data@ },
        ),
{
    let len = state.stack.len();
    if len < 3 {
        return Control::Exit(ExitReason::Error(ExitError::StackUnderflow));
    }
    let dest_w = state.stack[len - 1];
    let srcoff_w = state.stack[len - 2];
    let n_w = state.stack[len - 3];
    if n_w.is_zero() {
        state.stack.truncate(len - 3);
        return Control::Continue(1);
    }
    let dest = match dest_w.try_to_usize() {
        Some(o) => o,
        None => {
            return Control::Exit(ExitReason::Error(ExitError::InvalidRange));
        },
    };
    let n = match n_w.try_to_usize() {
        Some(o) => o,
        None => {
            return Control::Exit(ExitReason::Error(ExitError::InvalidRange));
        },
    };
    if n > usize::MAX - 31 || dest > usize::MAX - 31 - n {
        return Control::Exit(ExitReason::Error(ExitError::InvalidRange));
    }
    let bytes = if from_code {
        buffer_read(&state.code, &srcoff_w, n)
    } else {
        buffer_read(&state.data, &srcoff_w, n)
    };
    resize_memory(state, dest + n);
    memory_write(state, dest, &bytes);
    state.stack.truncate(len - 3);
    proof {
        let m = expand_mem(old(state).memory@, (dest + n) as nat);
        assert(final(state).memory@ =~= m.take(dest as int) + bytes@ + m.skip(dest as int + n));
    }
    Control::Continue(1)
}

pub fn codecopy(state: &mut Machine) -> (r: Control)
    requires
        old(state).wf(),
    ensures
        final(state).wf(),
        copy_step(*old(state), *final(state), r, old(state).code@),
{
    copy_common(state, true)
}

pub fn calldatacopy(state: &mut Machine) -> (r: Control)
    requires
        old(state).wf(),
    ensures
        final(state).wf(),
        copy_step(*old(state), *final(state), r, old(state).data@),
{
    copy_common(state, false)
}

/// JUMP: pop a target; a JUMPDEST at an instruction boundary transfers
/// control there, anything else is an invalid jump.
pub open spec fn jump_step(pre: Machine, post: Machine, r: Control) -> bool {
    let len = pre.stack@.len() as int;
    if len < 1 {
        post == pre && r == underflow()
    } else {
        let target = pre.stack@.last().as_nat();
        &&& post.stack@ == pre.stack@.drop_last()
        &&& same_except_stack(pre, post)
        &&& if valid_jumpdest(pre.code@, target) {
            r == Control::Jump(target as usize)
        } else {
            r == Control::Exit(ExitReason::Error(ExitError::InvalidJump))
        }
    }
}

pub fn jump(state: &mut Machine) -> (r: Control)
    requires
        old(state).wf(),
    ensures
        final(state).wf(),
        jump_step(*old(state), *final(state), r),
{
    let len = state.stack.len();
    if len < 1 {
        return Control::Exit(ExitReason::Error(ExitError::StackUnderflow));
    }
    let target_w = state.stack[len - 1];
    let _cl: usize = state.code.len();
    state.stack.pop();
    proof {
        assert(state.stack@ =~= old(state).stack@.drop_last());
    }
    match target_w.try_to_usize() {
        Some(t) => {
            if t < state.valids.len() && state.valids[t] {
                Control::Jump(t)
            } else {
                Control::Exit(ExitReason::Error(ExitError::InvalidJump))
            }
        },
        None => Control::Exit(ExitReason::Error(ExitError::InvalidJump)),
    }
}

/// JUMPI: pop a target and a condition; a nonzero condition jumps as JUMP
/// does, a zero one falls through with the target discarded.
pub open spec fn jumpi_step(pre: Machine, post: Machine, r: Control) -> bool {
    let len = pre.stack@.len() as int;
    if len < 2 {
        post == pre && r == underflow()
    } else {
        let target = pre.stack@[len - 1].as_nat();
        let cond = pre.stack@[len - 2].as_nat();
        &&& post.stack@ == pre.stack@.take(len - 2)
        &&& same_except_stack(pre, post)
        &&& if cond == 0 {
            r == Control::Continue(1)
        } else if valid_jumpdest(pre.code@, target) {
            r == Control::Jump(target as usize)
        } else {
            r == Control::Exit(ExitReason::Error(ExitError::InvalidJump))
        }
    }
}

pub fn jumpi(state: &mut Machine) -> (r: Control)
    requires
        old(state).wf(),
    ensures
        final(state).wf(),
        jumpi_step(*old(state), *final(state), r),
{
    let len = state.stack.len();
    if len < 2 {
        return Control::Exit(ExitReason::Error(ExitError::StackUnderflow));
    }
    let target_w = state.stack[len - 1];
    let cond = state.stack[len - 2];
    let _cl: usize = state.code.len();
    state.stack.truncate(len - 2);
    proof {
        assert(final(state).stack@ =~= old(state).stack@.take(len - 2));
    }
    if cond.is_zero() {
        return Control::Continue(1);
    }
    match target_w.try_to_usize() {
        Some(t) => {
            if t < state.valids.len() && state.valids[t] {
                Control::Jump(t)
            } else {
                Control::Exit(ExitReason::Error(ExitError::InvalidJump))
            }
        },
        None => Control::Exit(ExitReason::Error(ExitError::InvalidJump)),
    }
}

/// PUSH-k: read the immediate bytes following the opcode, right-aligned
/// as a big-endian value, any bytes past the code's end absent, and push
/// the word; the position advances past opcode and immediate.
pub open spec fn push_step(pre: Machine, post: Machine, r: Control, n: nat, pos: nat) -> bool {
    let clen = pre.code@.len();
    let start = if pos + 1 <= clen { pos + 1 } else { clen };
    let end = if pos + 1 + n <= clen { pos + 1 + n } else { clen };
    let value = be_val(pre.code@.subrange(start as int, end as int));
    if pre.stack@.len() >= STACK_LIMIT {
        post == pre && r == Control::Exit(ExitReason::Error(ExitError::StackOverflow))
    } else {
        &&& post.stack@.len() == pre.stack@.len() + 1
        &&& post.stack@.drop_last() == pre.stack@
        &&& post.stack@.last().as_nat() == value
        &&& same_except_stack(pre, post)
        &&& r == Control::Continue((n + 1) as usize)
    }
}

pub fn push(state: &mut Machine, n: usize, position: usize) -> (r: Control)
    requires
        old(state).wf(),
        1 <= n <= 32,
    ensures
        final(state).wf(),
        push_step(*old(state), *final(state), r, n as nat, position as nat),
{
    if state.stack.len() >= STACK_LIMIT {
        return Control::Exit(ExitReason::Error(ExitError::StackOverflow));
    }
    let clen = state.code.len();
    let start = if position >= clen {
        clen
    } else {
        position + 1
    };
    let count = if n <= clen - start {
        n
    } else {
        clen - start
    };
    let mut bytes: Vec<u8> = Vec::new();
    let mut i: usize = 0;
    while i < count
        invariant
            i <= count,
            start + count <= clen,
            clen == state.code@.len(),
            bytes@ == state.code@.subrange(start as int, start + i),
            *state == *old(state),
        decreases count - i,
    {
        let b = state.code[start + i];
        bytes.push(b);
        i = i + 1;
        proof {
            assert(bytes@ =~= state.code@.subrange(start as int, start + i));
        }
    }
    let w = U256::from_big_endian_fast(bytes.as_slice());
    proof {
        let clen_s = old(state).code@.len();
        let pos = position as nat;
        let start_s = if pos + 1 <= clen_s { (pos + 1) as nat } else { clen_s };
        let end_s = if pos + 1 + n <= clen_s { (pos + 1 + n) as nat } else { clen_s };
        assert(bytes@ =~= old(state).code@.subrange(start_s as int, end_s as int));
    }
    state.stack.push(w);
    proof {
        assert(final(state).stack@.drop_last() =~= old(state).stack@);
    }
    Control::Continue(n + 1)
}

/// DUP-n: copy the n-th item from the top onto the top.
pub open spec fn dup_step(pre: Machine, post: Machine, r: Control, n: nat) -> bool {
    let len = pre.stack@.len();
    if len < n {
        post == pre && r == underflow()
    } else if len >= STACK_LIMIT {
        post == pre && r == Control::Exit(ExitReason::Error(ExitError::StackOverflow))
    } else {
        &&& post.stack@ == pre.stack@.push(pre.stack@[len - n])
        &&& same_except_stack(pre, post)
        &&& r == Control::Continue(1)
    }
}

pub fn dup(state: &mut Machine, n: usize) -> (r: Control)
    requires
        old(state).wf(),
        1 <= n <= 16,
    ensures
        final(state).wf(),
        dup_step(*old(state), *final(state), r, n as nat),
{
    let len = state.stack.len();
    if len < n {
        return Control::Exit(ExitReason::Error(ExitError::StackUnderflow));
    }
    if len >= STACK_LIMIT {
        return Control::Exit(ExitReason::Error(ExitError::StackOverflow));
    }
    let w = state.stack[len - n];
    state.stack.push(w);
    Control::Continue(1)
}

/// SWAP-n: exchange the top with the n-th item below it.
pub open spec fn swap_step(pre: Machine, post: Machine, r: Control, n: nat) -> bool {
    let len = pre.stack@.len() as int;
    if len < n + 1 {
        post == pre && r == underflow()
    } else {
        &&& post.stack@ == pre.stack@.update(len - 1, pre.stack@[len - 1 - n]).update(
            len - 1 - n,
            pre.stack@[len - 1],
        )
        &&& same_except_stack(pre, post)
        &&& r == Control::Continue(1)
    }
}

pub fn swap(state: &mut Machine, n: usize) -> (r: Control)
    requires
        old(state).wf(),
        1 <= n <= 16,
    ensures
        final(state).wf(),
        swap_step(*old(state), *final(state), r, n as nat),
{
    let len = state.stack.len();
    if len < n + 1 {
        return Control::Exit(ExitReason::Error(ExitError::StackUnderflow));
    }
    let top = state.stack[len - 1];
    let other = state.stack[len - 1 - n];
    state.stack.set(len - 1, other);
    state.stack.set(len - 1 - n, top);
    Control::Continue(1)
}

/// RETURN and REVERT: pop an offset and a length, read that byte range
/// (growing memory), store it as the frame's payload, and exit.
pub open spec fn ret_step(pre: Machine, post: Machine, r: Control, reason: ExitReason) -> bool {
    let len = pre.stack@.len() as int;
    if len < 2 {
        post == pre && r == underflow()
    } else {
        let off = pre.stack@[len - 1].as_nat();
        let n = pre.stack@[len - 2].as_nat();
        if n == 0 {
            &&& post.stack@ == pre.stack@.take(len - 2)
            &&& post.retval@ == Seq::<u8>::empty()
            &&& post.memory@ == pre.memory@
            &&& post.code@ == pre.code@ && post.data@ == pre.data@
                && post.valids@ == pre.valids@
            &&& r == Control::Exit(reason)
        } else if !fits_mem(off + n) {
            post == pre && r == Control::Exit(ExitReason::Error(ExitError::InvalidRange))
        } else {
            let m = expand_mem(pre.memory@, off + n);
            &&& post.stack@ == pre.stack@.take(len - 2)
            &&& post.memory@ == m
            &&& post.retval@ == m.subrange(off as int, off as int + n)
            &&& post.code@ == pre.code@ && post.data@ == pre.data@
                && post.valids@ == pre.valids@
            &&& r == Control::Exit(reason)
        }
    }
}

/// The body shared by RETURN and REVERT: only the exit reason differs.
fn ret_common(state: &mut Machine, reason: ExitReason) -> (r: Control)
    requires
        old(state).wf(),
    ensures
        final(state).wf(),
        ret_step(*old(state), *final(state), r, reason),
{
    let len = state.stack.len();
    if len < 2 {
        return Control::Exit(ExitReason::Error(ExitError::StackUnderflow));
    }
    let off_w = state.stack[len - 1];
    let n_w = state.stack[len - 2];
    if n_w.is_zero() {
        state.stack.truncate(len - 2);
        state.retval = Vec::new();
        return Control::Exit(reason);
    }
    let off = match off_w.try_to_usize() {
        Some(o) => o,
        None => {
            return Control::Exit(ExitReason::Error(ExitError::InvalidRange));
        },
    };
    let n = match n_w.try_to_usize() {
        Some(o) => o,
        None => {
            return Control::Exit(ExitReason::Error(ExitError::InvalidRange));
        },
    };
    if n > usize::MAX - 31 || off > usize::MAX - 31 - n {
        return Control::Exit(ExitReason::Error(ExitError::InvalidRange));
    }
    resize_memory(state, off + n);
    let payload = memory_read(state, off, n);
    state.retval = payload;
    state.stack.truncate(len - 2);
    Control::Exit(reason)
}

pub fn ret(state: &mut Machine) -> (r: Control)
    requires
        old(state).wf(),
    ensures
        final(state).wf(),
        ret_step(*old(state), *final(state), r, ExitReason::Succeed(ExitSucceed::Returned)),
{
    ret_common(state, ExitReason::Succeed(ExitSucceed::Returned))
}

pub fn revert(state: &mut Machine) -> (r: Control)
    requires
        old(state).wf(),
    ensures
        final(state).wf(),
        ret_step(*old(state), *final(state), r, ExitReason::Revert(ExitRevert::Reverted)),
{
    ret_common(state, ExitReason::Revert(ExitRevert::Reverted))
}

} // verus!
