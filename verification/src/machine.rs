//! The execution context: code, call input, stack, linear memory, the
//! precomputed jump-target table, and the control effects a step returns.

use vstd::prelude::*;
use crate::primitive_types::U256;

verus! {

/// Stack depth bound: pushes past this depth fail with overflow.
pub const STACK_LIMIT: usize = 1024;

/// One byte of bytecode identifying an instruction.
#[derive(Clone, Copy, Debug, PartialEq, Eq, Structural)]
pub struct Opcode(pub u8);

/// The byte value of the JUMPDEST marker, the only legal jump target.
pub const OP_JUMPDEST: u8 = 0x5b;

/// Success: the frame is done and its result stands.
#[derive(Clone, Copy, Debug, PartialEq, Eq, Structural)]
pub enum ExitSucceed {
    /// STOP: finished with an empty result.
    Stopped,
    /// RETURN: finished with a result payload.
    Returned,
    /// Self-destruct, reported by the host.
    SelfDestruct,
}

/// The frame is undone but its payload still travels to the caller.
#[derive(Clone, Copy, Debug, PartialEq, Eq, Structural)]
pub enum ExitRevert {
    /// REVERT: unwound with a result payload.
    Reverted,
}

/// Hard failure: no payload travels to the caller.
#[derive(Clone, Copy, Debug, PartialEq, Eq, Structural)]
pub enum ExitError {
    /// An operation needed more stack items than were present.
    StackUnderflow,
    /// A push would have passed the stack depth bound.
    StackOverflow,
    /// A jump target was not a JUMPDEST at an instruction boundary.
    InvalidJump,
    /// A memory or byte range did not fit the address space.
    InvalidRange,
    /// The designated invalid instruction was executed.
    DesignatedInvalid,
    /// The program counter would have moved below zero.
    PCUnderflow,
    /// Any other failure reported by the host.
    Other,
}

/// Why one execution frame ended.
#[derive(Clone, Copy, Debug, PartialEq, Eq, Structural)]
pub enum ExitReason {
    Succeed(ExitSucceed),
    Revert(ExitRevert),
    Error(ExitError),
}

/// What the driving loop should do after one step.
#[derive(Clone, Copy, Debug, PartialEq, Eq, Structural)]
pub enum Control {
    /// Advance the position by the given byte count.
    Continue(usize),
    /// Terminate execution for the given reason.
    Exit(ExitReason),
    /// Set the position to the given, already validated, target.
    Jump(usize),
    /// This opcode is outside this core: the host must interpret it.
    Trap(Opcode),
}

/// The instruction boundary after the one at `i`: past the opcode byte and,
/// for a PUSH, past its immediate bytes.
pub open spec fn next_boundary(code: Seq<u8>, i: nat) -> nat {
    if 0x60 <= code[i as int] <= 0x7f {
        (i + (code[i as int] - 0x5f) + 1) as nat
    } else {
        i + 1
    }
}

/// Whether position `p` is an instruction boundary of the scan that starts
/// at boundary `i`.
pub open spec fn is_boundary(code: Seq<u8>, i: nat, p: nat) -> bool
    decreases code.len() + 33 - i when i <= code.len() + 32
{
    if i == p {
        true
    } else if i > p || i >= code.len() {
        false
    } else {
        is_boundary(code, next_boundary(code, i), p)
    }
}

/// Whether `p` is a legal jump target: a JUMPDEST byte standing at an
/// instruction boundary, not inside a PUSH immediate.
pub open spec fn valid_jumpdest(code: Seq<u8>, p: nat) -> bool {
    &&& p < code.len()
    &&& code[p as int] == OP_JUMPDEST
    &&& is_boundary(code, 0, p)
}

/// A true scan claim never starts past its goal.
proof fn lemma_boundary_le(code: Seq<u8>, a: nat, b: nat)
    requires
        a <= code.len() + 32,
        is_boundary(code, a, b),
    ensures
        a <= b,
{
}

/// Scanning from `a` through the boundary `b` and scanning from `b` agree
/// on everything at or beyond `b`.
pub proof fn lemma_boundary_split(code: Seq<u8>, a: nat, b: nat, p: nat)
    requires
        a <= code.len() + 32,
        is_boundary(code, a, b),
        b <= p,
    ensures
        is_boundary(code, a, p) == is_boundary(code, b, p),
    decreases b - a,
{
    if a == b {
    } else {
        let n = next_boundary(code, a);
        lemma_boundary_le(code, n, b);
        lemma_boundary_split(code, n, b, p);
    }
}

/// The execution context of one call frame.
pub struct Machine {
    /// The immutable bytecode being executed.
    pub code: Vec<u8>,
    /// The immutable call input.
    pub data: Vec<u8>,
    /// Operand stack, top at the end.
    pub stack: Vec<U256>,
    /// Byte-addressable linear memory, grown in whole 32-byte pieces.
    pub memory: Vec<u8>,
    /// The payload set by RETURN or REVERT.
    pub retval: Vec<u8>,
    /// For each code offset, whether it is a legal jump target.
    pub valids: Vec<bool>,
}

impl Machine {
    /// The context is well formed: the stack respects its bound, memory is
    /// whole 32-byte pieces, and the jump table matches the code.
    pub open spec fn wf(self) -> bool {
        &&& self.stack@.len() <= STACK_LIMIT
        &&& self.memory@.len() % 32 == 0
        &&& self.valids@.len() == self.code@.len()
        &&& forall|j: int| 0 <= j < self.code@.len()
            ==> self.valids@[j] == valid_jumpdest(self.code@, j as nat)
    }

    /// A fresh frame: the given code and input, empty stack and memory,
    /// and the jump table computed by one scan of the code.
    pub fn new(code: Vec<u8>, data: Vec<u8>) -> (r: Machine)
        ensures
            r.wf(),
            r.code@ == code@,
            r.data@ == data@,
            r.stack@.len() == 0,
            r.memory@.len() == 0,
            r.retval@.len() == 0,
    {
        let n = code.len();
        let mut valids: Vec<bool> = Vec::new();
        let mut i: usize = 0;
        while i < n
            invariant
                i <= n,
                n == code@.len(),
                valids@.len() == i,
                is_boundary(code@, 0, i as nat) || i == n,
                forall|j: int| 0 <= j < i
                    ==> valids@[j] == valid_jumpdest(code@, j as nat),
            decreases n - i,
        {
            let op = code[i];
            let ghost bi = i as nat;
            proof {
                assert(is_boundary(code@, 0, bi));
                assert(is_boundary(code@, bi, bi));
            }
            valids.push(op == OP_JUMPDEST);
            proof {
                assert(valid_jumpdest(code@, bi) == (op == OP_JUMPDEST)) by {
                    assert(is_boundary(code@, 0, bi));
                }
            }
            let mut p = i + 1;
            if 0x60 <= op && op <= 0x7f {
                let k = (op - 0x5f) as usize;
                let end: usize = if k <= n - (i + 1) {
                    i + 1 + k
                } else {
                    n
                };
                while p < end
                    invariant
                        i + 1 <= p <= end <= n,
                        end == (if i + 1 + k <= n { i + 1 + k } else { n as int }),
                        n == code@.len(),
                        valids@.len() == p,
                        bi == i < n,
                        op == code@[bi as int],
                        0x60 <= op <= 0x7f,
                        k == op - 0x5f,
                        is_boundary(code@, 0, bi),
                        next_boundary(code@, bi) == bi + k + 1,
                        forall|j: int| 0 <= j < p
                            ==> valids@[j] == valid_jumpdest(code@, j as nat),
                    decreases n - p,
                {
                    proof {
                        let q = p as nat;
                        if is_boundary(code@, 0, q) {
                            lemma_boundary_split(code@, 0, bi, q);
                            assert(is_boundary(code@, bi, q));
                            assert(is_boundary(code@, next_boundary(code@, bi), q));
                            assert(next_boundary(code@, bi) > q);
                            assert(false);
                        }
                    }
                    valids.push(false);
                    p = p + 1;
                }
            }
            proof {
                let q = p as nat;
                if q < n {
                    assert(q == next_boundary(code@, bi));
                    assert(is_boundary(code@, q, q));
                    assert(is_boundary(code@, next_boundary(code@, bi), q));
                    assert(is_boundary(code@, bi, q));
                    lemma_boundary_split(code@, 0, bi, q);
                }
            }
            i = p;
        }
        Machine { code, data, stack: Vec::new(), memory: Vec::new(), retval: Vec::new(), valids }
    }

    /// The current memory length in bytes.
    pub fn memory_len(&self) -> (r: usize)
        ensures
            r == self.memory@.len(),
    {
        self.memory.len()
    }

    /// The code length in bytes.
    pub fn code_len(&self) -> (r: usize)
        ensures
            r == self.code@.len(),
    {
        self.code.len()
    }

    /// The call input length in bytes.
    pub fn data_len(&self) -> (r: usize)
        ensures
            r == self.data@.len(),
    {
        self.data.len()
    }
}

} // verus!
