//! A model of the stack machine, as far as generated code uses it: what each
//! instruction that the assembly backend emits does to the operand stack and
//! to memory. The laws about generated code are stated over this model.
//!
//! Words are base field elements. Addresses are words, so address arithmetic
//! wraps around at the order of the field.

use crate::builder::ext_result;
use crate::circuit::BinOp;
use crate::field::reduce;
use crate::field::ExtensionElement;
use crate::field::P;
use crate::instruction::IOList;
use crate::instruction::Instruction;
use crate::instruction::Operand;
use vstd::arithmetic::div_mod::lemma_add_mod_noop_right;
use vstd::arithmetic::div_mod::lemma_fundamental_div_mod;
use vstd::prelude::*;

verus! {

/// The state of the machine: the operand stack, top last, and memory.
pub struct Machine {
    pub stack: Seq<u64>,
    pub ram: Map<u64, u64>,
}

/// The address `off` words after `base`.
#[verifier::opaque]
pub open spec fn address(base: u64, off: int) -> u64 {
    reduce(base + off) as u64
}

/// Addresses are field elements.
pub proof fn lemma_address_bound(base: u64, off: int)
    ensures
        address(base, off) < P,
{
    reveal(address);
}

/// Going on from an address is going on from its base.
pub proof fn lemma_address_shift(base: u64, off: int, d: int)
    ensures
        address(address(base, off), d) == address(base, off + d),
{
    reveal(address);
    lemma_add_mod_noop_right(d, base + off, P as int);
}

/// An offset and its remainder modulo the order of the field lead to the
/// same address.
pub proof fn lemma_address_reduced(base: u64, off: int)
    ensures
        address(base, reduce(off)) == address(base, off),
        reduce(off) as u64 == reduce(off),
{
    reveal(address);
    lemma_add_mod_noop_right(base as int, off, P as int);
}

/// Different offsets below the order of the field give different addresses.
pub proof fn lemma_address_injective(base: u64, o1: int, o2: int)
    requires
        0 <= o1 < P,
        0 <= o2 < P,
        address(base, o1) == address(base, o2),
    ensures
        o1 == o2,
{
    reveal(address);
    let p = P as int;
    let x = base + o1;
    let y = base + o2;
    lemma_fundamental_div_mod(x, p);
    lemma_fundamental_div_mod(y, p);
    let qx = x / p;
    let qy = y / p;
    assert(x - y == p * (qx - qy)) by (nonlinear_arith)
        requires
            x == p * qx + x % p,
            y == p * qy + y % p,
            x % p == y % p,
    ;
    if qx != qy {
        assert(p * (qx - qy) >= p || p * (qx - qy) <= -p) by (nonlinear_arith)
            requires
                qx != qy,
                p > 0,
        ;
    }
}

/// The words of an element as they lie on the stack: highest coefficient
/// first, so that the lowest is on top.
pub open spec fn as_words(v: ExtensionElement) -> Seq<u64> {
    seq![v.c2, v.c1, v.c0]
}

/// The element whose three words lie in memory from `off` words after
/// `base` on, lowest coefficient first.
pub open spec fn element_at(ram: Map<u64, u64>, base: u64, off: int) -> ExtensionElement {
    ExtensionElement {
        c0: ram[address(base, off)],
        c1: ram[address(base, off + 1)],
        c2: ram[address(base, off + 2)],
    }
}

/// The `n` words read downwards from address `p`, in the order read.
pub open spec fn read_words(ram: Map<u64, u64>, p: u64, n: nat) -> Seq<u64>
    decreases n,
{
    if n == 0 {
        Seq::<u64>::empty()
    } else {
        seq![ram[p]] + read_words(ram, address(p, -1), (n - 1) as nat)
    }
}

/// Memory after `words` have been written upwards from address `p`.
pub open spec fn write_words(ram: Map<u64, u64>, p: u64, words: Seq<u64>) -> Map<u64, u64>
    decreases words.len(),
{
    if words.len() == 0 {
        ram
    } else {
        write_words(ram.insert(p, words[0]), address(p, 1), words.drop_first())
    }
}

/// The top `n` words of the stack, the top first.
pub open spec fn top_words(stack: Seq<u64>, n: nat) -> Seq<u64> {
    Seq::new(n, |i: int| stack[stack.len() - 1 - i])
}

/// The element on top of the stack.
pub open spec fn top_element(stack: Seq<u64>) -> ExtensionElement {
    ExtensionElement {
        c0: stack[stack.len() - 1],
        c1: stack[stack.len() - 2],
        c2: stack[stack.len() - 3],
    }
}

/// What one instruction does. `pointers` gives the address that each named
/// region stands for. `None` where the machine would fail, and for the
/// instructions that generated code never holds.
pub open spec fn step(i: Instruction, m: Machine, pointers: spec_fn(IOList) -> u64) -> Option<
    Machine,
> {
    let len = m.stack.len() as int;
    match i {
        Instruction::Push(Operand::Constant(c)) => Some(
            Machine { stack: m.stack.push(reduce(c as int) as u64), ram: m.ram },
        ),
        Instruction::Push(Operand::Address(list, off)) => Some(
            Machine { stack: m.stack.push(address(pointers(list), off as int)), ram: m.ram },
        ),
        Instruction::Pop(n) => {
            if len >= n.spec_num_words() {
                Some(Machine { stack: m.stack.take(len - n.spec_num_words()), ram: m.ram })
            } else {
                None
            }
        },
        Instruction::ReadMem(n) => {
            if len >= 1 {
                let p = m.stack[len - 1];
                Some(
                    Machine {
                        stack: (m.stack.take(len - 1) + read_words(
                            m.ram,
                            p,
                            n.spec_num_words() as nat,
                        )).push(address(p, -(n.spec_num_words() as int))),
                        ram: m.ram,
                    },
                )
            } else {
                None
            }
        },
        Instruction::WriteMem(n) => {
            if len >= 1 + n.spec_num_words() {
                let p = m.stack[len - 1];
                Some(
                    Machine {
                        stack: m.stack.take(len - 1 - n.spec_num_words()).push(
                            address(p, n.spec_num_words() as int),
                        ),
                        ram: write_words(
                            m.ram,
                            p,
                            top_words(m.stack.take(len - 1), n.spec_num_words() as nat),
                        ),
                    },
                )
            } else {
                None
            }
        },
        Instruction::AddI(c) => {
            if len >= 1 {
                Some(
                    Machine {
                        stack: m.stack.take(len - 1).push(address(m.stack[len - 1], c as int)),
                        ram: m.ram,
                    },
                )
            } else {
                None
            }
        },
        Instruction::XxAdd => binary(BinOp::Add, m),
        Instruction::XxMul => binary(BinOp::Mul, m),
        _ => None,
    }
}

/// What an operation on two elements does: the two elements on top of the
/// stack give way to the result. The operations are commutative, so the
/// order of the two does not matter.
pub open spec fn binary(op: BinOp, m: Machine) -> Option<Machine> {
    let len = m.stack.len() as int;
    if len >= 6 {
        let rhs = top_element(m.stack);
        let lhs = top_element(m.stack.take(len - 3));
        Some(Machine { stack: m.stack.take(len - 6) + as_words(ext_result(op, lhs, rhs)), ram: m.ram })
    } else {
        None
    }
}

/// What a sequence of instructions does.
pub open spec fn run(code: Seq<Instruction>, m: Machine, pointers: spec_fn(IOList) -> u64) -> Option<
    Machine,
>
    decreases code.len(),
{
    if code.len() == 0 {
        Some(m)
    } else {
        match step(code[0], m, pointers) {
            Some(next) => run(code.drop_first(), next, pointers),
            None => None,
        }
    }
}

/// Running two pieces of code in a row is running the first and then, from
/// where it ends, the second.
pub proof fn lemma_run_concat(
    a: Seq<Instruction>,
    b: Seq<Instruction>,
    m: Machine,
    pointers: spec_fn(IOList) -> u64,
)
    ensures
        run(a + b, m, pointers) == match run(a, m, pointers) {
            Some(mid) => run(b, mid, pointers),
            None => None,
        },
    decreases a.len(),
{
    if a.len() == 0 {
        assert(a + b =~= b);
    } else {
        assert((a + b)[0] == a[0]);
        assert((a + b).drop_first() =~= a.drop_first() + b);
        match step(a[0], m, pointers) {
            Some(next) => {
                lemma_run_concat(a.drop_first(), b, next, pointers);
            },
            None => {},
        }
    }
}

} // verus!
