//! What generated assembly does when the machine runs it: it computes the
//! value of every constraint, stores the values in the output array, and
//! touches nothing outside the free page.

use crate::builder::ext_result;
use crate::circuit::well_formed;
use crate::circuit::BinOp;
use crate::circuit::CircuitExpression;
use crate::circuit::InputIndicator;
use crate::field::lifted;
use crate::field::ExtensionElement;
use crate::field::P;
use crate::instruction::IOList;
use crate::instruction::Instruction;
use crate::instruction::NumberOfWords;
use crate::instruction::Operand;
use crate::machine::address;
use crate::machine::as_words;
use crate::machine::binary;
use crate::machine::element_at;
use crate::machine::lemma_address_injective;
use crate::machine::lemma_address_reduced;
use crate::machine::lemma_address_shift;
use crate::machine::lemma_run_concat;
use crate::machine::read_words;
use crate::machine::run;
use crate::machine::step;
use crate::machine::top_element;
use crate::machine::top_words;
use crate::machine::write_words;
use crate::machine::Machine;
use crate::semantics::value_of;
use crate::semantics::Assignment;
use crate::tasm::addressable;
use crate::tasm::evaluation_code;
use crate::tasm::input_list;
use crate::tasm::load_constant;
use crate::tasm::load_from_list;
use crate::tasm::load_from_pointed_to_list;
use crate::tasm::operation;
use crate::tasm::read_word_index;
use crate::tasm::store_element;
use crate::tasm::storing_code;
use crate::tasm::output_code;
use crate::tasm::tokenized;
use crate::tasm::all_buckets_code;
use crate::tasm::all_compilable;
use crate::tasm::all_compilable_for;
use crate::tasm::compilable;
use crate::tasm::return_code;
use crate::tasm::push_address;
use crate::tasm::static_program;
use crate::tasm::dynamic_program;
use crate::tasm::row_pointer_code;
use crate::tasm::store_pointer_code;
use crate::tasm::MEM_PAGE_SIZE;
use crate::memory_layout::MemoryRegion;
use crate::memory_layout::StaticTasmConstraintEvaluationMemoryLayout;
use crate::memory_layout::DynamicTasmConstraintEvaluationMemoryLayout;
use crate::native::is_bucket_code;
use crate::native::RustCode;
use crate::semantics::lemma_native_code_values;
use crate::semantics::native_result;
use crate::constraints::Constraints;
use crate::circuit::Multicircuit;
use crate::circuit::base_first;
use crate::circuit::lemma_base_first;
use crate::circuit::roots_in_range;
use crate::sharing::lemma_shared_nodes;
use crate::sharing::shared_nodes;
use crate::semantics::values_of;
use crate::tasm::write_word_index;
use crate::tasm::MAX_NUM_CONSTRAINTS;
use crate::tasm::OUT_ARRAY_OFFSET;
use vstd::prelude::*;

verus! {

/// The machine with `words` pushed onto its stack.
pub open spec fn pushed(m: Machine, words: Seq<u64>) -> Machine {
    Machine { stack: m.stack + words, ram: m.ram }
}

/// Memory after the three words of `v` have been written from `off` words
/// after `base` on.
pub open spec fn with_element(ram: Map<u64, u64>, base: u64, off: int, v: ExtensionElement) -> Map<
    u64,
    u64,
> {
    ram.insert(address(base, off), v.c0).insert(address(base, off + 1), v.c1).insert(
        address(base, off + 2),
        v.c2,
    )
}

/// Reading three words downwards from the last word of an element yields the
/// element's words, highest coefficient first.
pub proof fn lemma_read_element(ram: Map<u64, u64>, base: u64, off: int)
    ensures
        read_words(ram, address(base, off + 2), 3) == as_words(element_at(ram, base, off)),
{
    reveal_with_fuel(read_words, 4);
    let p = address(base, off + 2);
    lemma_address_shift(base, off + 2, -1);
    lemma_address_shift(base, off + 1, -1);
    assert(read_words(ram, p, 3) =~= as_words(element_at(ram, base, off)));
}

/// Running one instruction is taking its step.
pub proof fn lemma_run_1(i0: Instruction, m: Machine, pointers: spec_fn(IOList) -> u64)
    ensures
        run(seq![i0], m, pointers) == step(i0, m, pointers),
{
    reveal_with_fuel(run, 2);
    let code = seq![i0];
    assert(code[0] == i0);
    assert(code.drop_first().len() == 0);
}

/// Running three instructions is taking their steps in turn.
pub proof fn lemma_run_3(
    i0: Instruction,
    i1: Instruction,
    i2: Instruction,
    m: Machine,
    m1: Machine,
    m2: Machine,
    pointers: spec_fn(IOList) -> u64,
)
    requires
        step(i0, m, pointers) == Some(m1),
        step(i1, m1, pointers) == Some(m2),
    ensures
        run(seq![i0, i1, i2], m, pointers) == step(i2, m2, pointers),
{
    lemma_run_1(i0, m, pointers);
    lemma_run_1(i1, m1, pointers);
    lemma_run_1(i2, m2, pointers);
    lemma_run_concat(seq![i0], seq![i1], m, pointers);
    lemma_run_concat(seq![i0] + seq![i1], seq![i2], m, pointers);
    assert(seq![i0] + seq![i1] + seq![i2] =~= seq![i0, i1, i2]);
}

/// Loading from a region whose start is known pushes the element found
/// there.
pub proof fn lemma_load_from_list(
    list: IOList,
    index: usize,
    m: Machine,
    pointers: spec_fn(IOList) -> u64,
)
    ensures
        run(load_from_list(list, index), m, pointers) == Some(
            pushed(m, as_words(element_at(m.ram, pointers(list), 3 * index))),
        ),
{
    let base = pointers(list);
    let p = address(base, 3 * index + 2);
    lemma_address_reduced(base, 3 * index + 2);
    let i0 = Instruction::Push(Operand::Address(list, read_word_index(index)));
    let i1 = Instruction::ReadMem(NumberOfWords::N3);
    let i2 = Instruction::Pop(NumberOfWords::N1);
    let m1 = Machine { stack: m.stack.push(p), ram: m.ram };
    lemma_read_element(m.ram, base, 3 * index);
    let words = as_words(element_at(m.ram, base, 3 * index));
    assert(m1.stack.take(m1.stack.len() - 1) =~= m.stack);
    let m2 = Machine { stack: (m.stack + words).push(address(p, -3)), ram: m.ram };
    assert(step(i1, m1, pointers) == Some(m2));
    assert(m2.stack.take(m2.stack.len() - 1) =~= m.stack + words);
    assert(step(i2, m2, pointers) == Some(pushed(m, words)));
    lemma_run_3(i0, i1, i2, m, m1, m2, pointers);
    assert(load_from_list(list, index) =~= seq![i0, i1, i2]);
}

/// Reading the word that holds a region's start pushes that word.
pub proof fn lemma_load_pointer(list: IOList, m: Machine, pointers: spec_fn(IOList) -> u64)
    ensures
        run(
            seq![
                Instruction::Push(Operand::Address(list, 0)),
                Instruction::ReadMem(NumberOfWords::N1),
                Instruction::Pop(NumberOfWords::N1),
            ],
            m,
            pointers,
        ) == Some(pushed(m, seq![m.ram[address(pointers(list), 0)]])),
{
    reveal_with_fuel(read_words, 2);
    let q = address(pointers(list), 0);
    let row = m.ram[q];
    let i0 = Instruction::Push(Operand::Address(list, 0));
    let i1 = Instruction::ReadMem(NumberOfWords::N1);
    let i2 = Instruction::Pop(NumberOfWords::N1);
    let m1 = Machine { stack: m.stack.push(q), ram: m.ram };
    assert(m1.stack.take(m1.stack.len() - 1) =~= m.stack);
    assert(read_words(m.ram, q, 1) =~= seq![row]);
    let m2 = Machine { stack: (m.stack + seq![row]).push(address(q, -1)), ram: m.ram };
    assert(step(i1, m1, pointers) == Some(m2));
    assert(m2.stack.take(m2.stack.len() - 1) =~= m.stack + seq![row]);
    assert(step(i2, m2, pointers) == Some(pushed(m, seq![row])));
    lemma_run_3(i0, i1, i2, m, m1, m2, pointers);
}

/// With a region's start on the stack, adding an element's offset and
/// reading pushes the element in place of the start.
pub proof fn lemma_read_from_pointer(
    row: u64,
    index: usize,
    m: Machine,
    pointers: spec_fn(IOList) -> u64,
)
    ensures
        run(
            seq![
                Instruction::AddI(read_word_index(index)),
                Instruction::ReadMem(NumberOfWords::N3),
                Instruction::Pop(NumberOfWords::N1),
            ],
            pushed(m, seq![row]),
            pointers,
        ) == Some(pushed(m, as_words(element_at(m.ram, row, 3 * index)))),
{
    let i3 = Instruction::AddI(read_word_index(index));
    let i4 = Instruction::ReadMem(NumberOfWords::N3);
    let i5 = Instruction::Pop(NumberOfWords::N1);
    let m3 = pushed(m, seq![row]);
    let p = address(row, 3 * index + 2);
    lemma_address_reduced(row, 3 * index + 2);
    let m4 = Machine { stack: m.stack.push(p), ram: m.ram };
    assert(m3.stack.take(m3.stack.len() - 1) =~= m.stack);
    assert(m3.stack[m3.stack.len() - 1] == row);
    assert(step(i3, m3, pointers) == Some(m4));
    lemma_read_element(m.ram, row, 3 * index);
    let words = as_words(element_at(m.ram, row, 3 * index));
    assert(m4.stack.take(m4.stack.len() - 1) =~= m.stack);
    let m5 = Machine { stack: (m.stack + words).push(address(p, -3)), ram: m.ram };
    assert(step(i4, m4, pointers) == Some(m5));
    assert(m5.stack.take(m5.stack.len() - 1) =~= m.stack + words);
    assert(step(i5, m5, pointers) == Some(pushed(m, words)));
    lemma_run_3(i3, i4, i5, m3, m4, m5, pointers);
}

/// Loading from a region whose start lies in memory pushes the element
/// found in the region that the stored address points to.
pub proof fn lemma_load_from_pointed_to_list(
    list: IOList,
    index: usize,
    m: Machine,
    pointers: spec_fn(IOList) -> u64,
)
    ensures
        run(load_from_pointed_to_list(list, index), m, pointers) == Some(
            pushed(
                m,
                as_words(element_at(m.ram, m.ram[address(pointers(list), 0)], 3 * index)),
            ),
        ),
{
    let first = seq![
        Instruction::Push(Operand::Address(list, 0)),
        Instruction::ReadMem(NumberOfWords::N1),
        Instruction::Pop(NumberOfWords::N1),
    ];
    let second = seq![
        Instruction::AddI(read_word_index(index)),
        Instruction::ReadMem(NumberOfWords::N3),
        Instruction::Pop(NumberOfWords::N1),
    ];
    lemma_load_pointer(list, m, pointers);
    lemma_read_from_pointer(m.ram[address(pointers(list), 0)], index, m, pointers);
    lemma_run_concat(first, second, m, pointers);
    assert(load_from_pointed_to_list(list, index) =~= first + second);
}

/// Pushing a field element puts it on the stack.
pub proof fn lemma_push_constant(c: u64, m: Machine, pointers: spec_fn(IOList) -> u64)
    requires
        c < P,
    ensures
        step(Instruction::Push(Operand::Constant(c)), m, pointers) == Some(
            Machine { stack: m.stack.push(c), ram: m.ram },
        ),
{
    vstd::arithmetic::div_mod::lemma_small_mod(c as nat, P as nat);
}

/// Loading a constant pushes the constant.
pub proof fn lemma_load_constant(x: ExtensionElement, m: Machine, pointers: spec_fn(IOList) -> u64)
    requires
        x.is_canonical(),
    ensures
        run(load_constant(x), m, pointers) == Some(pushed(m, as_words(x))),
{
    let i0 = Instruction::Push(Operand::Constant(x.c2));
    let i1 = Instruction::Push(Operand::Constant(x.c1));
    let i2 = Instruction::Push(Operand::Constant(x.c0));
    let m1 = Machine { stack: m.stack.push(x.c2), ram: m.ram };
    let m2 = Machine { stack: m1.stack.push(x.c1), ram: m.ram };
    let m3 = Machine { stack: m2.stack.push(x.c0), ram: m.ram };
    lemma_push_constant(x.c2, m, pointers);
    lemma_push_constant(x.c1, m1, pointers);
    lemma_push_constant(x.c0, m2, pointers);
    lemma_run_3(i0, i1, i2, m, m1, m2, pointers);
    assert(m3.stack =~= m.stack + as_words(x));
    assert(load_constant(x) =~= seq![i0, i1, i2]);
}

/// An operation replaces the two elements on top of the stack by the
/// result.
pub proof fn lemma_operation(
    op: BinOp,
    m: Machine,
    a: ExtensionElement,
    b: ExtensionElement,
    pointers: spec_fn(IOList) -> u64,
)
    ensures
        run(seq![operation(op)], pushed(pushed(m, as_words(a)), as_words(b)), pointers) == Some(
            pushed(m, as_words(ext_result(op, a, b))),
        ),
{
    let start = pushed(pushed(m, as_words(a)), as_words(b));
    let len = start.stack.len() as int;
    assert(top_element(start.stack) == b);
    assert(top_element(start.stack.take(len - 3)) == a);
    assert(start.stack.take(len - 6) =~= m.stack);
    assert(binary(op, start) == Some(pushed(m, as_words(ext_result(op, a, b)))));
    assert(step(operation(op), start, pointers) == binary(op, start));
    lemma_run_1(operation(op), start, pointers);
}

/// Storing takes the element on top of the stack to its slot.
pub proof fn lemma_store_element(
    index: usize,
    m: Machine,
    v: ExtensionElement,
    pointers: spec_fn(IOList) -> u64,
)
    requires
        index < OUT_ARRAY_OFFSET + MAX_NUM_CONSTRAINTS,
    ensures
        run(store_element(index), pushed(m, as_words(v)), pointers) == Some(
            Machine {
                stack: m.stack,
                ram: with_element(m.ram, pointers(IOList::FreeMemPage), 3 * index, v),
            },
        ),
{
    reveal_with_fuel(write_words, 4);
    let start = pushed(m, as_words(v));
    let base = pointers(IOList::FreeMemPage);
    let p = address(base, 3 * index);
    let i0 = Instruction::Push(Operand::Address(IOList::FreeMemPage, write_word_index(index)));
    let i1 = Instruction::WriteMem(NumberOfWords::N3);
    let i2 = Instruction::Pop(NumberOfWords::N1);
    let m1 = Machine { stack: start.stack.push(p), ram: m.ram };
    assert(step(i0, start, pointers) == Some(m1));
    let len = m1.stack.len() as int;
    let words = top_words(m1.stack.take(len - 1), 3);
    assert(words =~= seq![v.c0, v.c1, v.c2]);
    lemma_address_shift(base, 3 * index, 1);
    lemma_address_shift(base, 3 * index + 1, 1);
    assert(words.drop_first() =~= seq![v.c1, v.c2]);
    assert(words.drop_first().drop_first() =~= seq![v.c2]);
    assert(words.drop_first().drop_first().drop_first() =~= Seq::<u64>::empty());
    let ram = with_element(m.ram, base, 3 * index, v);
    assert(write_words(m.ram, p, words) == ram);
    assert(m1.stack.take(len - 4) =~= m.stack);
    let m2 = Machine { stack: m.stack.push(address(p, 3)), ram };
    assert(step(i1, m1, pointers) == Some(m2));
    assert(m2.stack.take(m2.stack.len() - 1) =~= m.stack);
    assert(step(i2, m2, pointers) == Some(Machine { stack: m.stack, ram }));
    lemma_run_3(i0, i1, i2, start, m1, m2, pointers);
    assert(store_element(index) =~= seq![i0, i1, i2]);
}

/// The element that an input is read from.
pub open spec fn input_value(
    ram: Map<u64, u64>,
    pointers: spec_fn(IOList) -> u64,
    input: InputIndicator,
    is_static: bool,
) -> ExtensionElement {
    if is_static {
        element_at(ram, pointers(input_list(input)), 3 * input.column)
    } else {
        element_at(ram, ram[address(pointers(input_list(input)), 0)], 3 * input.column)
    }
}

/// What the expression reads from memory is what the assignment gives.
pub open spec fn reads_agree(
    e: CircuitExpression,
    ram: Map<u64, u64>,
    pointers: spec_fn(IOList) -> u64,
    env: Assignment,
    is_static: bool,
) -> bool {
    match e {
        CircuitExpression::Input(input) => input_value(ram, pointers, input, is_static) == (
        env.inputs)(input),
        CircuitExpression::Challenge(index) => element_at(
            ram,
            pointers(IOList::Challenges),
            3 * index,
        ) == (env.challenges)(index),
        _ => true,
    }
}

/// Memory holds the rows and the challenges of the assignment: whatever a
/// node of the graph reads is there.
pub open spec fn inputs_hold(
    exprs: Seq<CircuitExpression>,
    ram: Map<u64, u64>,
    pointers: spec_fn(IOList) -> u64,
    env: Assignment,
    is_static: bool,
) -> bool {
    forall|n: int|
        0 <= n < exprs.len() ==> reads_agree(#[trigger] exprs[n], ram, pointers, env, is_static)
}

/// The slot of every kept node holds the node's value.
pub open spec fn kept_hold(
    exprs: Seq<CircuitExpression>,
    kept: Set<usize>,
    ram: Map<u64, u64>,
    pointers: spec_fn(IOList) -> u64,
    env: Assignment,
) -> bool {
    forall|k: usize|
        #[trigger] kept.contains(k) && k < exprs.len() ==> element_at(
            ram,
            pointers(IOList::FreeMemPage),
            3 * k,
        ) == value_of(exprs, k as int, env)
}

/// The code for a node computes the node: run on a machine whose memory
/// holds the inputs and the kept nodes, it pushes the node's value and
/// leaves memory as it is.
pub proof fn lemma_evaluation(
    exprs: Seq<CircuitExpression>,
    kept: Set<usize>,
    n: usize,
    is_static: bool,
    m: Machine,
    pointers: spec_fn(IOList) -> u64,
    env: Assignment,
)
    requires
        well_formed(exprs),
        addressable(exprs, is_static),
        n < exprs.len(),
        inputs_hold(exprs, m.ram, pointers, env, is_static),
        kept_hold(exprs, kept, m.ram, pointers, env),
    ensures
        run(evaluation_code(exprs, kept, n, is_static), m, pointers) == Some(
            pushed(m, as_words(value_of(exprs, n as int, env))),
        ),
    decreases n,
{
    let e = exprs[n as int];
    assert(e.fits_at(n as int));
    assert(reads_agree(e, m.ram, pointers, env, is_static));
    match e {
        CircuitExpression::BConstant(v) => {
            lemma_load_constant(lifted(v), m, pointers);
        },
        CircuitExpression::XConstant(x) => {
            lemma_load_constant(x, m, pointers);
        },
        CircuitExpression::Input(input) => {
            if is_static {
                lemma_load_from_list(input_list(input), input.column, m, pointers);
            } else {
                lemma_load_from_pointed_to_list(input_list(input), input.column, m, pointers);
            }
        },
        CircuitExpression::Challenge(index) => {
            lemma_load_from_list(IOList::Challenges, index, m, pointers);
        },
        CircuitExpression::BinaryOperation(op, l, r) => {
            if kept.contains(n) {
                lemma_load_from_list(IOList::FreeMemPage, n, m, pointers);
            } else {
                let code_l = evaluation_code(exprs, kept, l, is_static);
                let code_r = evaluation_code(exprs, kept, r, is_static);
                let vl = value_of(exprs, l as int, env);
                let vr = value_of(exprs, r as int, env);
                lemma_evaluation(exprs, kept, l, is_static, m, pointers, env);
                let m1 = pushed(m, as_words(vl));
                lemma_evaluation(exprs, kept, r, is_static, m1, pointers, env);
                lemma_run_concat(code_l, code_r, m, pointers);
                lemma_operation(op, m, vl, vr, pointers);
                lemma_run_concat(code_l + code_r, seq![operation(op)], m, pointers);
            }
        },
    }
}

/// Number of words, from the start of the free page's usable part, that
/// generated code may write to: the slots of the nodes and the output array.
pub open spec fn work_area_words() -> int {
    3 * (OUT_ARRAY_OFFSET + MAX_NUM_CONSTRAINTS)
}

/// Address `a` is none of the words that generated code may write to.
pub open spec fn outside_work_area(base: u64, a: u64) -> bool {
    forall|off: int| 0 <= off < work_area_words() ==> #[trigger] address(base, off) != a
}

/// None of the three words of the element is a word that generated code may
/// write to.
pub open spec fn element_outside(base: u64, from: u64, off: int) -> bool {
    &&& outside_work_area(base, address(from, off))
    &&& outside_work_area(base, address(from, off + 1))
    &&& outside_work_area(base, address(from, off + 2))
}

/// What the expression reads lies where generated code does not write.
pub open spec fn read_outside(
    e: CircuitExpression,
    ram: Map<u64, u64>,
    pointers: spec_fn(IOList) -> u64,
    is_static: bool,
) -> bool {
    let base = pointers(IOList::FreeMemPage);
    match e {
        CircuitExpression::Input(input) => {
            let list = pointers(input_list(input));
            if is_static {
                element_outside(base, list, 3 * input.column)
            } else {
                &&& outside_work_area(base, address(list, 0))
                &&& element_outside(base, ram[address(list, 0)], 3 * input.column)
            }
        },
        CircuitExpression::Challenge(index) => element_outside(
            base,
            pointers(IOList::Challenges),
            3 * index,
        ),
        _ => true,
    }
}

/// Whatever a node of the graph reads lies where generated code does not
/// write.
pub open spec fn reads_outside(
    exprs: Seq<CircuitExpression>,
    ram: Map<u64, u64>,
    pointers: spec_fn(IOList) -> u64,
    is_static: bool,
) -> bool {
    forall|n: int| 0 <= n < exprs.len() ==> read_outside(#[trigger] exprs[n], ram, pointers, is_static)
}

/// The two memories agree wherever generated code does not write.
pub open spec fn same_outside(before: Map<u64, u64>, after: Map<u64, u64>, base: u64) -> bool {
    forall|a: u64| outside_work_area(base, a) ==> #[trigger] after[a] == before[a]
}

/// The two memories agree on the words of the work area from `lo` up to
/// `hi`.
pub open spec fn same_between(
    before: Map<u64, u64>,
    after: Map<u64, u64>,
    base: u64,
    lo: int,
    hi: int,
) -> bool {
    forall|off: int| lo <= off < hi ==> after[#[trigger] address(base, off)] == before[address(base, off)]
}

/// What writing an element to the work area changes, and what it leaves.
pub proof fn lemma_with_element(ram: Map<u64, u64>, base: u64, off: int, v: ExtensionElement)
    requires
        0 <= off,
        off + 2 < work_area_words(),
    ensures
        element_at(with_element(ram, base, off, v), base, off) == v,
        same_outside(ram, with_element(ram, base, off, v), base),
        same_between(ram, with_element(ram, base, off, v), base, 0, off),
        same_between(ram, with_element(ram, base, off, v), base, off + 3, work_area_words()),
{
    let after = with_element(ram, base, off, v);
    assert(work_area_words() < P);
    assert(address(base, off) != address(base, off + 1)) by {
        if address(base, off) == address(base, off + 1) {
            lemma_address_injective(base, off, off + 1);
        }
    }
    assert(address(base, off) != address(base, off + 2)) by {
        if address(base, off) == address(base, off + 2) {
            lemma_address_injective(base, off, off + 2);
        }
    }
    assert(address(base, off + 1) != address(base, off + 2)) by {
        if address(base, off + 1) == address(base, off + 2) {
            lemma_address_injective(base, off + 1, off + 2);
        }
    }
    assert forall|a: u64| outside_work_area(base, a) implies #[trigger] after[a] == ram[a] by {
        assert(address(base, off) != a);
        assert(address(base, off + 1) != a);
        assert(address(base, off + 2) != a);
    }
    assert forall|o: int| (0 <= o < off || off + 3 <= o < work_area_words()) implies after[
    #[trigger] address(base, o)] == ram[address(base, o)] by {
        if address(base, o) == address(base, off) {
            lemma_address_injective(base, o, off);
        }
        if address(base, o) == address(base, off + 1) {
            lemma_address_injective(base, o, off + 1);
        }
        if address(base, o) == address(base, off + 2) {
            lemma_address_injective(base, o, off + 2);
        }
    }
}

/// An element that lies where generated code does not write is the same in
/// two memories that agree there.
pub proof fn lemma_element_survives(
    before: Map<u64, u64>,
    after: Map<u64, u64>,
    base: u64,
    from: u64,
    off: int,
)
    requires
        same_outside(before, after, base),
        element_outside(base, from, off),
    ensures
        element_at(after, from, off) == element_at(before, from, off),
{
    assert(after[address(from, off)] == before[address(from, off)]);
    assert(after[address(from, off + 1)] == before[address(from, off + 1)]);
    assert(after[address(from, off + 2)] == before[address(from, off + 2)]);
}

/// Memory that held the inputs still holds them after generated code has
/// written to it.
pub proof fn lemma_inputs_survive(
    exprs: Seq<CircuitExpression>,
    before: Map<u64, u64>,
    after: Map<u64, u64>,
    pointers: spec_fn(IOList) -> u64,
    env: Assignment,
    is_static: bool,
)
    requires
        inputs_hold(exprs, before, pointers, env, is_static),
        reads_outside(exprs, before, pointers, is_static),
        same_outside(before, after, pointers(IOList::FreeMemPage)),
    ensures
        inputs_hold(exprs, after, pointers, env, is_static),
        reads_outside(exprs, after, pointers, is_static),
{
    let base = pointers(IOList::FreeMemPage);
    assert forall|n: int| 0 <= n < exprs.len() implies reads_agree(
        #[trigger] exprs[n],
        after,
        pointers,
        env,
        is_static,
    ) && read_outside(exprs[n], after, pointers, is_static) by {
        assert(reads_agree(exprs[n], before, pointers, env, is_static));
        assert(read_outside(exprs[n], before, pointers, is_static));
        match exprs[n] {
            CircuitExpression::Input(input) => {
                let list = pointers(input_list(input));
                if is_static {
                    lemma_element_survives(before, after, base, list, 3 * input.column);
                } else {
                    assert(after[address(list, 0)] == before[address(list, 0)]);
                    lemma_element_survives(
                        before,
                        after,
                        base,
                        before[address(list, 0)],
                        3 * input.column,
                    );
                }
            },
            CircuitExpression::Challenge(index) => {
                lemma_element_survives(
                    before,
                    after,
                    base,
                    pointers(IOList::Challenges),
                    3 * index,
                );
            },
            _ => {},
        }
    }
}

/// Agreement where generated code does not write carries over a further
/// step.
pub proof fn lemma_same_outside_transitive(
    a: Map<u64, u64>,
    b: Map<u64, u64>,
    c: Map<u64, u64>,
    base: u64,
)
    requires
        same_outside(a, b, base),
        same_outside(b, c, base),
    ensures
        same_outside(a, c, base),
{
    assert forall|x: u64| outside_work_area(base, x) implies #[trigger] c[x] == a[x] by {
        assert(b[x] == a[x]);
    }
}

/// Agreement on a range of the work area carries over a further step.
pub proof fn lemma_same_between_transitive(
    a: Map<u64, u64>,
    b: Map<u64, u64>,
    c: Map<u64, u64>,
    base: u64,
    lo: int,
    hi: int,
)
    requires
        same_between(a, b, base, lo, hi),
        same_between(b, c, base, lo, hi),
    ensures
        same_between(a, c, base, lo, hi),
{
    assert forall|off: int| lo <= off < hi implies c[#[trigger] address(base, off)] == a[address(
        base,
        off,
    )] by {
        assert(b[address(base, off)] == a[address(base, off)]);
    }
}

/// Agreement on a range is agreement on every part of it.
pub proof fn lemma_same_between_narrow(
    a: Map<u64, u64>,
    b: Map<u64, u64>,
    base: u64,
    lo: int,
    hi: int,
    lo2: int,
    hi2: int,
)
    requires
        same_between(a, b, base, lo, hi),
        lo <= lo2,
        hi2 <= hi,
    ensures
        same_between(a, b, base, lo2, hi2),
{
}

/// An element on whose words two memories agree is the same in both.
pub proof fn lemma_element_same(
    a: Map<u64, u64>,
    b: Map<u64, u64>,
    base: u64,
    lo: int,
    hi: int,
    off: int,
)
    requires
        same_between(a, b, base, lo, hi),
        lo <= off,
        off + 2 < hi,
    ensures
        element_at(b, base, off) == element_at(a, base, off),
{
    assert(b[address(base, off)] == a[address(base, off)]);
    assert(b[address(base, off + 1)] == a[address(base, off + 1)]);
    assert(b[address(base, off + 2)] == a[address(base, off + 2)]);
}

/// The machine that running `code` ends in.
pub open spec fn after(code: Seq<Instruction>, m: Machine, pointers: spec_fn(IOList) -> u64)
    -> Machine {
    run(code, m, pointers).unwrap()
}

/// Memory holds everything that the code for the graph relies on: the
/// inputs, out of the way of what the code writes, and the values of the
/// kept nodes.
pub open spec fn ready(
    exprs: Seq<CircuitExpression>,
    kept: Set<usize>,
    ram: Map<u64, u64>,
    pointers: spec_fn(IOList) -> u64,
    env: Assignment,
    is_static: bool,
) -> bool {
    &&& inputs_hold(exprs, ram, pointers, env, is_static)
    &&& reads_outside(exprs, ram, pointers, is_static)
    &&& kept_hold(exprs, kept, ram, pointers, env)
}

/// The first word of the output array, as an offset into the work area.
pub open spec fn out_offset() -> int {
    3 * OUT_ARRAY_OFFSET
}

/// Computing a node and storing it: the node's slot then holds its value,
/// and everything that was relied on can still be relied on.
pub proof fn lemma_compute_and_store(
    exprs: Seq<CircuitExpression>,
    kept: Set<usize>,
    n: usize,
    slot: usize,
    is_static: bool,
    m: Machine,
    pointers: spec_fn(IOList) -> u64,
    env: Assignment,
)
    requires
        well_formed(exprs),
        addressable(exprs, is_static),
        n < exprs.len(),
        slot < OUT_ARRAY_OFFSET + MAX_NUM_CONSTRAINTS,
        ready(exprs, kept, m.ram, pointers, env, is_static),
    ensures
        run(evaluation_code(exprs, kept, n, is_static) + store_element(slot), m, pointers).is_some(),
        after(
            evaluation_code(exprs, kept, n, is_static) + store_element(slot),
            m,
            pointers,
        ).stack == m.stack,
        after(
            evaluation_code(exprs, kept, n, is_static) + store_element(slot),
            m,
            pointers,
        ).ram == with_element(
            m.ram,
            pointers(IOList::FreeMemPage),
            3 * slot,
            value_of(exprs, n as int, env),
        ),
{
    let v = value_of(exprs, n as int, env);
    lemma_evaluation(exprs, kept, n, is_static, m, pointers, env);
    lemma_store_element(slot, m, v, pointers);
    lemma_run_concat(
        evaluation_code(exprs, kept, n, is_static),
        store_element(slot),
        m,
        pointers,
    );
}

/// Writing an element to a slot keeps memory ready, for the kept nodes
/// whose slots are elsewhere.
pub proof fn lemma_ready_after_write(
    exprs: Seq<CircuitExpression>,
    kept: Set<usize>,
    slot: usize,
    v: ExtensionElement,
    ram: Map<u64, u64>,
    pointers: spec_fn(IOList) -> u64,
    env: Assignment,
    is_static: bool,
)
    requires
        slot < OUT_ARRAY_OFFSET + MAX_NUM_CONSTRAINTS,
        exprs.len() <= OUT_ARRAY_OFFSET,
        ready(exprs, kept, ram, pointers, env, is_static),
        kept.contains(slot) && slot < exprs.len() ==> v == value_of(exprs, slot as int, env),
    ensures
        ready(
            exprs,
            kept,
            with_element(ram, pointers(IOList::FreeMemPage), 3 * slot, v),
            pointers,
            env,
            is_static,
        ),
{
    let base = pointers(IOList::FreeMemPage);
    let written = with_element(ram, base, 3 * slot, v);
    lemma_with_element(ram, base, 3 * slot, v);
    lemma_inputs_survive(exprs, ram, written, pointers, env, is_static);
    assert forall|k: usize| #[trigger] kept.contains(k) && k < exprs.len() implies element_at(
        written,
        base,
        3 * k,
    ) == value_of(exprs, k as int, env) by {
        if k < slot {
            lemma_element_same(ram, written, base, 0, 3 * slot, 3 * k);
        } else if k > slot {
            lemma_element_same(ram, written, base, 3 * slot + 3, work_area_words(), 3 * k);
        }
    }
}

/// The code that stores nodes stores them: afterwards the slot of each
/// holds its value, the stack is as it was, and memory has changed only in
/// the slots of the nodes.
pub proof fn lemma_storing(
    exprs: Seq<CircuitExpression>,
    kept: Set<usize>,
    nodes: Seq<usize>,
    is_static: bool,
    m: Machine,
    pointers: spec_fn(IOList) -> u64,
    env: Assignment,
)
    requires
        well_formed(exprs),
        addressable(exprs, is_static),
        forall|j: int| 0 <= j < nodes.len() ==> #[trigger] nodes[j] < exprs.len(),
        ready(exprs, kept, m.ram, pointers, env, is_static),
    ensures
        run(storing_code(exprs, kept, nodes, is_static), m, pointers).is_some(),
        after(storing_code(exprs, kept, nodes, is_static), m, pointers).stack == m.stack,
        ready(
            exprs,
            kept.union(nodes.to_set()),
            after(storing_code(exprs, kept, nodes, is_static), m, pointers).ram,
            pointers,
            env,
            is_static,
        ),
        same_outside(
            m.ram,
            after(storing_code(exprs, kept, nodes, is_static), m, pointers).ram,
            pointers(IOList::FreeMemPage),
        ),
        same_between(
            m.ram,
            after(storing_code(exprs, kept, nodes, is_static), m, pointers).ram,
            pointers(IOList::FreeMemPage),
            out_offset(),
            work_area_words(),
        ),
    decreases nodes.len(),
{
    let base = pointers(IOList::FreeMemPage);
    if nodes.len() == 0 {
        assert(kept.union(nodes.to_set()) =~= kept);
    } else {
        let k = nodes[0];
        let rest = nodes.drop_first();
        let v = value_of(exprs, k as int, env);
        let first = evaluation_code(exprs, kept, k, is_static) + store_element(k);
        let later = storing_code(exprs, kept.insert(k), rest, is_static);
        lemma_compute_and_store(exprs, kept, k, k, is_static, m, pointers, env);
        let m1 = after(first, m, pointers);
        lemma_with_element(m.ram, base, 3 * k, v);
        lemma_ready_after_write(exprs, kept, k, v, m.ram, pointers, env, is_static);
        assert(kept_hold(exprs, kept.insert(k), m1.ram, pointers, env));
        assert forall|j: int| 0 <= j < rest.len() implies #[trigger] rest[j] < exprs.len() by {
            assert(rest[j] == nodes[j + 1]);
        }
        lemma_storing(exprs, kept.insert(k), rest, is_static, m1, pointers, env);
        let m2 = after(later, m1, pointers);
        lemma_run_concat(first, later, m, pointers);
        assert(storing_code(exprs, kept, nodes, is_static) == first + later);
        assert(kept.insert(k).union(rest.to_set()) =~= kept.union(nodes.to_set())) by {
            assert forall|x: usize|
                kept.insert(k).union(rest.to_set()).contains(x) <==> kept.union(
                    nodes.to_set(),
                ).contains(x) by {
                if rest.to_set().contains(x) {
                    let i = choose|i: int| 0 <= i < rest.len() && rest[i] == x;
                    assert(nodes[i + 1] == x);
                    assert(nodes.contains(x));
                }
                if nodes.to_set().contains(x) {
                    let i = choose|i: int| 0 <= i < nodes.len() && nodes[i] == x;
                    if i > 0 {
                        assert(rest[i - 1] == x);
                        assert(rest.contains(x));
                    }
                }
                if x == k {
                    assert(nodes.contains(nodes[0]));
                }
            }
        }
        lemma_same_outside_transitive(m.ram, m1.ram, m2.ram, base);
        lemma_same_between_narrow(
            m.ram,
            m1.ram,
            base,
            3 * k + 3,
            work_area_words(),
            out_offset(),
            work_area_words(),
        );
        lemma_same_between_transitive(
            m.ram,
            m1.ram,
            m2.ram,
            base,
            out_offset(),
            work_area_words(),
        );
    }
}

/// The code that writes results writes them: afterwards the output array
/// holds the value of each root from slot `written` on, the stack is as it
/// was, and memory has changed only in those slots.
pub proof fn lemma_output(
    exprs: Seq<CircuitExpression>,
    kept: Set<usize>,
    roots: Seq<usize>,
    written: usize,
    is_static: bool,
    m: Machine,
    pointers: spec_fn(IOList) -> u64,
    env: Assignment,
)
    requires
        well_formed(exprs),
        addressable(exprs, is_static),
        forall|j: int| 0 <= j < roots.len() ==> #[trigger] roots[j] < exprs.len(),
        written + roots.len() <= MAX_NUM_CONSTRAINTS,
        ready(exprs, kept, m.ram, pointers, env, is_static),
    ensures
        run(output_code(exprs, kept, roots, written, is_static), m, pointers).is_some(),
        after(output_code(exprs, kept, roots, written, is_static), m, pointers).stack == m.stack,
        ready(
            exprs,
            kept,
            after(output_code(exprs, kept, roots, written, is_static), m, pointers).ram,
            pointers,
            env,
            is_static,
        ),
        same_outside(
            m.ram,
            after(output_code(exprs, kept, roots, written, is_static), m, pointers).ram,
            pointers(IOList::FreeMemPage),
        ),
        same_between(
            m.ram,
            after(output_code(exprs, kept, roots, written, is_static), m, pointers).ram,
            pointers(IOList::FreeMemPage),
            0,
            out_offset() + 3 * written,
        ),
        forall|i: int|
            0 <= i < roots.len() ==> element_at(
                after(output_code(exprs, kept, roots, written, is_static), m, pointers).ram,
                pointers(IOList::FreeMemPage),
                out_offset() + 3 * (written + i),
            ) == value_of(exprs, #[trigger] roots[i] as int, env),
    decreases roots.len(),
{
    let base = pointers(IOList::FreeMemPage);
    if roots.len() > 0 {
        let init = roots.drop_last();
        let last = roots.last();
        let n = roots.len() as int;
        let slot = (OUT_ARRAY_OFFSET + written + n - 1) as usize;
        let v = value_of(exprs, last as int, env);
        let earlier = output_code(exprs, kept, init, written, is_static);
        let this = evaluation_code(exprs, kept, last, is_static) + store_element(slot);
        assert forall|j: int| 0 <= j < init.len() implies #[trigger] init[j] < exprs.len() by {
            assert(init[j] == roots[j]);
        }
        lemma_output(exprs, kept, init, written, is_static, m, pointers, env);
        let m1 = after(earlier, m, pointers);
        lemma_compute_and_store(exprs, kept, last, slot, is_static, m1, pointers, env);
        let m2 = after(this, m1, pointers);
        lemma_with_element(m1.ram, base, 3 * slot, v);
        lemma_ready_after_write(exprs, kept, slot, v, m1.ram, pointers, env, is_static);
        lemma_run_concat(earlier, this, m, pointers);
        assert(output_code(exprs, kept, roots, written, is_static) =~= earlier + this);
        lemma_same_outside_transitive(m.ram, m1.ram, m2.ram, base);
        lemma_same_between_narrow(
            m1.ram,
            m2.ram,
            base,
            0,
            3 * slot,
            0,
            out_offset() + 3 * written,
        );
        lemma_same_between_transitive(m.ram, m1.ram, m2.ram, base, 0, out_offset() + 3 * written);
        assert forall|i: int| 0 <= i < roots.len() implies element_at(
            m2.ram,
            base,
            out_offset() + 3 * (written + i),
        ) == value_of(exprs, #[trigger] roots[i] as int, env) by {
            if i < n - 1 {
                assert(init[i] == roots[i]);
                lemma_element_same(
                    m1.ram,
                    m2.ram,
                    base,
                    0,
                    3 * slot,
                    out_offset() + 3 * (written + i),
                );
            }
        }
    }
}

/// The code for a bucket computes the bucket: afterwards the output array
/// holds, from slot `written` on, the value of every constraint, base field
/// constraints first. The stack is as it was, the results written before
/// are as they were, and so is everything outside the work area.
pub proof fn lemma_tokenized(
    exprs: Seq<CircuitExpression>,
    roots: Seq<usize>,
    written: usize,
    is_static: bool,
    m: Machine,
    pointers: spec_fn(IOList) -> u64,
    env: Assignment,
)
    requires
        well_formed(exprs),
        addressable(exprs, is_static),
        roots_in_range(roots, exprs.len() as int),
        written + roots.len() <= MAX_NUM_CONSTRAINTS,
        inputs_hold(exprs, m.ram, pointers, env, is_static),
        reads_outside(exprs, m.ram, pointers, is_static),
    ensures
        run(tokenized(exprs, roots, written, is_static), m, pointers).is_some(),
        after(tokenized(exprs, roots, written, is_static), m, pointers).stack == m.stack,
        same_outside(
            m.ram,
            after(tokenized(exprs, roots, written, is_static), m, pointers).ram,
            pointers(IOList::FreeMemPage),
        ),
        same_between(
            m.ram,
            after(tokenized(exprs, roots, written, is_static), m, pointers).ram,
            pointers(IOList::FreeMemPage),
            out_offset(),
            out_offset() + 3 * written,
        ),
        forall|i: int|
            0 <= i < roots.len() ==> element_at(
                after(tokenized(exprs, roots, written, is_static), m, pointers).ram,
                pointers(IOList::FreeMemPage),
                out_offset() + 3 * (written + i),
            ) == #[trigger] values_of(exprs, base_first(exprs, roots), env)[i],
{
    let base = pointers(IOList::FreeMemPage);
    let shared = shared_nodes(exprs, roots);
    let nothing = Set::<usize>::empty();
    let ordered = base_first(exprs, roots);
    let storing = storing_code(exprs, nothing, shared, is_static);
    let output = output_code(exprs, shared.to_set(), ordered, written, is_static);
    lemma_shared_nodes(exprs, roots);
    lemma_storing(exprs, nothing, shared, is_static, m, pointers, env);
    let m1 = after(storing, m, pointers);
    assert(nothing.union(shared.to_set()) =~= shared.to_set());
    lemma_base_first(exprs, roots);
    assert forall|j: int| 0 <= j < ordered.len() implies #[trigger] ordered[j] < exprs.len() by {
        assert(ordered.contains(ordered[j]));
        assert(roots.contains(ordered[j]));
        let i = choose|i: int| 0 <= i < roots.len() && roots[i] == ordered[j];
        assert(roots[i] < exprs.len());
    }
    lemma_output(exprs, shared.to_set(), ordered, written, is_static, m1, pointers, env);
    let m2 = after(output, m1, pointers);
    lemma_run_concat(storing, output, m, pointers);
    lemma_same_outside_transitive(m.ram, m1.ram, m2.ram, base);
    lemma_same_between_narrow(
        m.ram,
        m1.ram,
        base,
        out_offset(),
        work_area_words(),
        out_offset(),
        out_offset() + 3 * written,
    );
    lemma_same_between_narrow(
        m1.ram,
        m2.ram,
        base,
        0,
        out_offset() + 3 * written,
        out_offset(),
        out_offset() + 3 * written,
    );
    lemma_same_between_transitive(
        m.ram,
        m1.ram,
        m2.ram,
        base,
        out_offset(),
        out_offset() + 3 * written,
    );
    assert forall|i: int| 0 <= i < roots.len() implies element_at(
        m2.ram,
        base,
        out_offset() + 3 * (written + i),
    ) == #[trigger] values_of(exprs, ordered, env)[i] by {
        assert(values_of(exprs, ordered, env)[i] == value_of(exprs, ordered[i] as int, env));
    }
}

/// Memory holds the inputs of the bucket, out of the way of what generated
/// code writes.
pub open spec fn bucket_ready(
    circuits: Multicircuit,
    ram: Map<u64, u64>,
    pointers: spec_fn(IOList) -> u64,
    env: Assignment,
    is_static: bool,
) -> bool {
    &&& inputs_hold(circuits.expressions@, ram, pointers, env, is_static)
    &&& reads_outside(circuits.expressions@, ram, pointers, is_static)
}

/// Memory holds the inputs of all four buckets.
pub open spec fn all_ready(
    constraints: &Constraints,
    ram: Map<u64, u64>,
    pointers: spec_fn(IOList) -> u64,
    env: Assignment,
    is_static: bool,
) -> bool {
    &&& bucket_ready(constraints.init, ram, pointers, env, is_static)
    &&& bucket_ready(constraints.cons, ram, pointers, env, is_static)
    &&& bucket_ready(constraints.tran, ram, pointers, env, is_static)
    &&& bucket_ready(constraints.term, ram, pointers, env, is_static)
}

/// The values of the constraints of a bucket in the order in which they are
/// evaluated.
pub open spec fn bucket_values(circuits: Multicircuit, env: Assignment) -> Seq<ExtensionElement> {
    values_of(circuits.expressions@, base_first(circuits.expressions@, circuits.roots@), env)
}

/// The values of all constraints: those of the initial, the consistency,
/// the transition and the terminal constraints, in this order.
pub open spec fn all_values(constraints: &Constraints, env: Assignment) -> Seq<ExtensionElement> {
    bucket_values(constraints.init, env) + bucket_values(constraints.cons, env) + bucket_values(
        constraints.tran,
        env,
    ) + bucket_values(constraints.term, env)
}

/// One bucket in the run over all four: the results before it stay, its
/// own are added, and memory stays ready for the buckets after it.
pub proof fn lemma_next_bucket(
    circuits: Multicircuit,
    done: Seq<ExtensionElement>,
    is_static: bool,
    m: Machine,
    pointers: spec_fn(IOList) -> u64,
    env: Assignment,
)
    requires
        compilable(&circuits, is_static),
        done.len() + circuits.roots@.len() <= MAX_NUM_CONSTRAINTS,
        bucket_ready(circuits, m.ram, pointers, env, is_static),
        forall|i: int|
            0 <= i < done.len() ==> element_at(
                m.ram,
                pointers(IOList::FreeMemPage),
                out_offset() + 3 * i,
            ) == #[trigger] done[i],
    ensures
        run(
            tokenized(circuits.expressions@, circuits.roots@, done.len() as usize, is_static),
            m,
            pointers,
        ).is_some(),
        after(
            tokenized(circuits.expressions@, circuits.roots@, done.len() as usize, is_static),
            m,
            pointers,
        ).stack == m.stack,
        same_outside(
            m.ram,
            after(
                tokenized(circuits.expressions@, circuits.roots@, done.len() as usize, is_static),
                m,
                pointers,
            ).ram,
            pointers(IOList::FreeMemPage),
        ),
        forall|i: int|
            0 <= i < done.len() + circuits.roots@.len() ==> element_at(
                after(
                    tokenized(
                        circuits.expressions@,
                        circuits.roots@,
                        done.len() as usize,
                        is_static,
                    ),
                    m,
                    pointers,
                ).ram,
                pointers(IOList::FreeMemPage),
                out_offset() + 3 * i,
            ) == #[trigger] (done + bucket_values(circuits, env))[i],
{
    let exprs = circuits.expressions@;
    let roots = circuits.roots@;
    let written = done.len() as usize;
    let base = pointers(IOList::FreeMemPage);
    lemma_tokenized(exprs, roots, written, is_static, m, pointers, env);
    let m1 = after(tokenized(exprs, roots, written, is_static), m, pointers);
    lemma_base_first(exprs, roots);
    let all = done + bucket_values(circuits, env);
    assert forall|i: int| 0 <= i < done.len() + roots.len() implies element_at(
        m1.ram,
        base,
        out_offset() + 3 * i,
    ) == #[trigger] all[i] by {
        if i < done.len() {
            lemma_element_same(
                m.ram,
                m1.ram,
                base,
                out_offset(),
                out_offset() + 3 * written,
                out_offset() + 3 * i,
            );
            assert(all[i] == done[i]);
        } else {
            let j = i - done.len();
            assert(all[i] == bucket_values(circuits, env)[j]);
            assert(out_offset() + 3 * (written + j) == out_offset() + 3 * i);
        }
    }
}

/// Pushing an address puts it on the stack.
pub proof fn lemma_return(m: Machine, pointers: spec_fn(IOList) -> u64)
    ensures
        run(return_code(), m, pointers) == Some(
            Machine {
                stack: m.stack.push(address(pointers(IOList::FreeMemPage), out_offset())),
                ram: m.ram,
            },
        ),
{
    lemma_run_1(
        push_address(IOList::FreeMemPage, write_word_index(OUT_ARRAY_OFFSET)),
        m,
        pointers,
    );
    assert(return_code() =~= seq![
        push_address(IOList::FreeMemPage, write_word_index(OUT_ARRAY_OFFSET)),
    ]);
}

/// The code for all buckets computes all constraints. Run on a machine
/// whose memory holds the rows and challenges of an assignment, it ends
/// with the address of the output array on top of the stack; the array
/// holds the value of every constraint under the assignment, in the order
/// of the buckets and base field constraints first within each; and no word
/// outside the work area has changed.
pub proof fn lemma_all_buckets(
    constraints: &Constraints,
    is_static: bool,
    m: Machine,
    pointers: spec_fn(IOList) -> u64,
    env: Assignment,
)
    requires
        all_compilable_for(constraints, is_static),
        all_ready(constraints, m.ram, pointers, env, is_static),
    ensures
        run(all_buckets_code(constraints, is_static), m, pointers).is_some(),
        after(all_buckets_code(constraints, is_static), m, pointers).stack == m.stack.push(
            address(pointers(IOList::FreeMemPage), out_offset()),
        ),
        same_outside(
            m.ram,
            after(all_buckets_code(constraints, is_static), m, pointers).ram,
            pointers(IOList::FreeMemPage),
        ),
        all_values(constraints, env).len() == constraints.spec_len(),
        forall|i: int|
            0 <= i < constraints.spec_len() ==> element_at(
                after(all_buckets_code(constraints, is_static), m, pointers).ram,
                pointers(IOList::FreeMemPage),
                out_offset() + 3 * i,
            ) == #[trigger] all_values(constraints, env)[i],
{
    let base = pointers(IOList::FreeMemPage);
    let init = constraints.init;
    let cons = constraints.cons;
    let tran = constraints.tran;
    let term = constraints.term;
    lemma_base_first(init.expressions@, init.roots@);
    lemma_base_first(cons.expressions@, cons.roots@);
    lemma_base_first(tran.expressions@, tran.roots@);
    lemma_base_first(term.expressions@, term.roots@);
    let v0 = Seq::<ExtensionElement>::empty();
    let c1 = tokenized(init.expressions@, init.roots@, 0, is_static);
    lemma_next_bucket(init, v0, is_static, m, pointers, env);
    let m1 = after(c1, m, pointers);
    let v1 = v0 + bucket_values(init, env);
    assert(v1 =~= bucket_values(init, env));

    lemma_inputs_survive(cons.expressions@, m.ram, m1.ram, pointers, env, is_static);
    let c2 = tokenized(cons.expressions@, cons.roots@, v1.len() as usize, is_static);
    lemma_next_bucket(cons, v1, is_static, m1, pointers, env);
    let m2 = after(c2, m1, pointers);
    let v2 = v1 + bucket_values(cons, env);
    lemma_same_outside_transitive(m.ram, m1.ram, m2.ram, base);

    lemma_inputs_survive(tran.expressions@, m.ram, m2.ram, pointers, env, is_static);
    let c3 = tokenized(tran.expressions@, tran.roots@, v2.len() as usize, is_static);
    lemma_next_bucket(tran, v2, is_static, m2, pointers, env);
    let m3 = after(c3, m2, pointers);
    let v3 = v2 + bucket_values(tran, env);
    lemma_same_outside_transitive(m.ram, m2.ram, m3.ram, base);

    lemma_inputs_survive(term.expressions@, m.ram, m3.ram, pointers, env, is_static);
    let c4 = tokenized(term.expressions@, term.roots@, v3.len() as usize, is_static);
    lemma_next_bucket(term, v3, is_static, m3, pointers, env);
    let m4 = after(c4, m3, pointers);
    let v4 = v3 + bucket_values(term, env);
    lemma_same_outside_transitive(m.ram, m3.ram, m4.ram, base);

    lemma_return(m4, pointers);
    lemma_run_concat(c1, c2, m, pointers);
    lemma_run_concat(c1 + c2, c3, m, pointers);
    lemma_run_concat(c1 + c2 + c3, c4, m, pointers);
    lemma_run_concat(c1 + c2 + c3 + c4, return_code(), m, pointers);
    assert(all_buckets_code(constraints, is_static) == c1 + c2 + c3 + c4 + return_code());
    assert(v4 =~= all_values(constraints, env));
}

/// The free page that starts at `start`.
pub open spec fn free_page(start: u64) -> MemoryRegion {
    MemoryRegion { start, size: MEM_PAGE_SIZE }
}

/// The free page holds the addresses up to its size after its start.
pub proof fn lemma_page_contains(start: u64, off: int)
    requires
        start < P,
        0 <= off < MEM_PAGE_SIZE,
    ensures
        free_page(start).spec_contains_address(address(start, off)),
{
    reveal(address);
    let x = start + off;
    if x < P {
        vstd::arithmetic::div_mod::lemma_small_mod(x as nat, P as nat);
    } else {
        vstd::arithmetic::div_mod::lemma_small_mod((x - P) as nat, P as nat);
        vstd::arithmetic::div_mod::lemma_mod_add_multiples_vanish(x - P, P as int);
    }
}

/// An address off the free page is none that generated code writes to,
/// whether the work area starts with the page or after the words that hold
/// the row pointers.
pub proof fn lemma_off_page_is_outside(start: u64, shift: int, a: u64)
    requires
        start < P,
        0 <= shift <= 4,
        !free_page(start).spec_contains_address(a),
    ensures
        outside_work_area((start + shift) as u64, a),
{
    assert forall|off: int| 0 <= off < work_area_words() implies #[trigger] address(
        (start + shift) as u64,
        off,
    ) != a by {
        assert(address((start + shift) as u64, off) == address(start, shift + off)) by {
            reveal(address);
        }
        lemma_page_contains(start, shift + off);
    }
}

/// None of the three words of the element lies on the free page.
pub open spec fn element_off_page(page_start: u64, from: u64, off: int) -> bool {
    &&& !free_page(page_start).spec_contains_address(address(from, off))
    &&& !free_page(page_start).spec_contains_address(address(from, off + 1))
    &&& !free_page(page_start).spec_contains_address(address(from, off + 2))
}

/// What the expression reads is in its place: in the region that `starts`
/// gives, off the free page, and equal to what the assignment gives.
pub open spec fn read_in_place(
    e: CircuitExpression,
    ram: Map<u64, u64>,
    page_start: u64,
    starts: spec_fn(IOList) -> u64,
    env: Assignment,
) -> bool {
    match e {
        CircuitExpression::Input(input) => {
            &&& element_at(ram, starts(input_list(input)), 3 * input.column) == (env.inputs)(input)
            &&& element_off_page(page_start, starts(input_list(input)), 3 * input.column)
        },
        CircuitExpression::Challenge(index) => {
            &&& element_at(ram, starts(IOList::Challenges), 3 * index) == (env.challenges)(index)
            &&& element_off_page(page_start, starts(IOList::Challenges), 3 * index)
        },
        _ => true,
    }
}

/// Memory holds the rows and challenges of the assignment in the regions
/// that `starts` gives, off the free page, as far as the graph reads them.
pub open spec fn inputs_in_place(
    exprs: Seq<CircuitExpression>,
    ram: Map<u64, u64>,
    page_start: u64,
    starts: spec_fn(IOList) -> u64,
    env: Assignment,
) -> bool {
    forall|n: int|
        0 <= n < exprs.len() ==> read_in_place(#[trigger] exprs[n], ram, page_start, starts, env)
}

/// Memory holds the rows and challenges that any of the constraints reads.
pub open spec fn all_in_place(
    constraints: &Constraints,
    ram: Map<u64, u64>,
    page_start: u64,
    starts: spec_fn(IOList) -> u64,
    env: Assignment,
) -> bool {
    &&& inputs_in_place(constraints.init.expressions@, ram, page_start, starts, env)
    &&& inputs_in_place(constraints.cons.expressions@, ram, page_start, starts, env)
    &&& inputs_in_place(constraints.tran.expressions@, ram, page_start, starts, env)
    &&& inputs_in_place(constraints.term.expressions@, ram, page_start, starts, env)
}

/// An element off the free page lies where generated code does not write.
pub proof fn lemma_element_off_page(page_start: u64, shift: int, from: u64, off: int)
    requires
        page_start < P,
        0 <= shift <= 4,
        element_off_page(page_start, from, off),
    ensures
        element_outside((page_start + shift) as u64, from, off),
{
    lemma_off_page_is_outside(page_start, shift, address(from, off));
    lemma_off_page_is_outside(page_start, shift, address(from, off + 1));
    lemma_off_page_is_outside(page_start, shift, address(from, off + 2));
}

/// The addresses that the names stand for under a static layout.
pub open spec fn static_pointers(layout: StaticTasmConstraintEvaluationMemoryLayout) -> spec_fn(
    IOList,
) -> u64 {
    |list: IOList| layout.spec_pointer(list)
}

/// The addresses that the names stand for under a dynamic layout.
pub open spec fn dynamic_pointers(layout: DynamicTasmConstraintEvaluationMemoryLayout) -> spec_fn(
    IOList,
) -> u64 {
    |list: IOList| layout.spec_pointer(list)
}

/// Inputs that are in their place under a static layout are where the
/// static program expects them.
pub proof fn lemma_static_ready(
    exprs: Seq<CircuitExpression>,
    ram: Map<u64, u64>,
    layout: StaticTasmConstraintEvaluationMemoryLayout,
    env: Assignment,
)
    requires
        layout.free_mem_page_ptr < P,
        inputs_in_place(exprs, ram, layout.free_mem_page_ptr, static_pointers(layout), env),
    ensures
        inputs_hold(exprs, ram, static_pointers(layout), env, true),
        reads_outside(exprs, ram, static_pointers(layout), true),
{
    let pointers = static_pointers(layout);
    let start = layout.free_mem_page_ptr;
    assert(pointers(IOList::FreeMemPage) == start);
    assert forall|n: int| 0 <= n < exprs.len() implies reads_agree(
        #[trigger] exprs[n],
        ram,
        pointers,
        env,
        true,
    ) && read_outside(exprs[n], ram, pointers, true) by {
        assert(read_in_place(exprs[n], ram, start, pointers, env));
        match exprs[n] {
            CircuitExpression::Input(input) => {
                lemma_element_off_page(start, 0, pointers(input_list(input)), 3 * input.column);
            },
            CircuitExpression::Challenge(index) => {
                lemma_element_off_page(start, 0, pointers(IOList::Challenges), 3 * index);
            },
            _ => {},
        }
    }
}

/// The static program is correct. Let memory hold the rows and challenges
/// of an assignment where the layout says, off the free page. Then the
/// program runs to its end; it leaves on top of the stack the address of
/// the output array; the array holds the value of every constraint under
/// the assignment, in the order initial, consistency, transition, terminal,
/// base field constraints first within each; and every word off the free
/// page is as it was.
pub proof fn lemma_static_program(
    constraints: &Constraints,
    layout: StaticTasmConstraintEvaluationMemoryLayout,
    m: Machine,
    env: Assignment,
)
    requires
        all_compilable(constraints),
        layout.free_mem_page_ptr < P,
        all_in_place(constraints, m.ram, layout.free_mem_page_ptr, static_pointers(layout), env),
    ensures
        run(static_program(constraints), m, static_pointers(layout)).is_some(),
        after(static_program(constraints), m, static_pointers(layout)).stack == m.stack.push(
            address(layout.free_mem_page_ptr, out_offset()),
        ),
        all_values(constraints, env).len() == constraints.spec_len(),
        forall|i: int|
            0 <= i < constraints.spec_len() ==> element_at(
                after(static_program(constraints), m, static_pointers(layout)).ram,
                layout.free_mem_page_ptr,
                out_offset() + 3 * i,
            ) == #[trigger] all_values(constraints, env)[i],
        forall|a: u64|
            !free_page(layout.free_mem_page_ptr).spec_contains_address(a) ==> #[trigger] after(
                static_program(constraints),
                m,
                static_pointers(layout),
            ).ram[a] == m.ram[a],
{
    let pointers = static_pointers(layout);
    let start = layout.free_mem_page_ptr;
    assert(pointers(IOList::FreeMemPage) == start);
    lemma_static_ready(constraints.init.expressions@, m.ram, layout, env);
    lemma_static_ready(constraints.cons.expressions@, m.ram, layout, env);
    lemma_static_ready(constraints.tran.expressions@, m.ram, layout, env);
    lemma_static_ready(constraints.term.expressions@, m.ram, layout, env);
    lemma_all_buckets(constraints, true, m, pointers, env);
    let end = after(static_program(constraints), m, pointers);
    assert forall|a: u64| !free_page(start).spec_contains_address(a) implies #[trigger] end.ram[a]
        == m.ram[a] by {
        lemma_off_page_is_outside(start, 0, a);
    }
}

/// What the native code of all four buckets yields, in the order of the
/// buckets.
pub open spec fn native_results(code: RustCode, env: Assignment) -> Seq<ExtensionElement> {
    native_result(code.init, env) + native_result(code.cons, env) + native_result(code.tran, env)
        + native_result(code.term, env)
}

/// The native code is the code of the native backend for the constraints.
pub open spec fn is_native_code(constraints: &Constraints, code: RustCode) -> bool {
    &&& is_bucket_code(constraints.init.expressions@, constraints.init.roots@, code.init)
    &&& is_bucket_code(constraints.cons.expressions@, constraints.cons.roots@, code.cons)
    &&& is_bucket_code(constraints.tran.expressions@, constraints.tran.roots@, code.tran)
    &&& is_bucket_code(constraints.term.expressions@, constraints.term.roots@, code.term)
}

/// The native code computes the constraints: under any assignment it
/// yields the value of every constraint, in the order in which the assembly
/// writes them to the output array.
pub proof fn lemma_native_results(constraints: &Constraints, code: RustCode, env: Assignment)
    requires
        constraints.wf(),
        is_native_code(constraints, code),
    ensures
        native_results(code, env) == all_values(constraints, env),
{
    lemma_native_code_values(
        constraints.init.expressions@,
        constraints.init.roots@,
        code.init,
        env,
    );
    lemma_native_code_values(
        constraints.cons.expressions@,
        constraints.cons.roots@,
        code.cons,
        env,
    );
    lemma_native_code_values(
        constraints.tran.expressions@,
        constraints.tran.roots@,
        code.tran,
        env,
    );
    lemma_native_code_values(
        constraints.term.expressions@,
        constraints.term.roots@,
        code.term,
        env,
    );
}

/// The two backends agree, static case: what the static program leaves in
/// the output array is, constraint by constraint, what the native code
/// yields under the same assignment.
pub proof fn lemma_static_program_agrees_with_native_code(
    constraints: &Constraints,
    code: RustCode,
    layout: StaticTasmConstraintEvaluationMemoryLayout,
    m: Machine,
    env: Assignment,
)
    requires
        all_compilable(constraints),
        is_native_code(constraints, code),
        layout.free_mem_page_ptr < P,
        all_in_place(constraints, m.ram, layout.free_mem_page_ptr, static_pointers(layout), env),
    ensures
        run(static_program(constraints), m, static_pointers(layout)).is_some(),
        native_results(code, env).len() == constraints.spec_len(),
        forall|i: int|
            0 <= i < constraints.spec_len() ==> element_at(
                after(static_program(constraints), m, static_pointers(layout)).ram,
                layout.free_mem_page_ptr,
                out_offset() + 3 * i,
            ) == #[trigger] native_results(code, env)[i],
{
    lemma_static_program(constraints, layout, m, env);
    lemma_native_results(constraints, code, env);
}

/// The addresses of the four rows, as the dynamic program finds them on the
/// stack.
pub struct RowPointers {
    pub curr_base_row: u64,
    pub curr_ext_row: u64,
    pub next_base_row: u64,
    pub next_ext_row: u64,
}

impl RowPointers {
    /// The row pointers as they lie on the stack, the pointer to the next
    /// auxiliary row on top.
    pub open spec fn on_stack(self) -> Seq<u64> {
        seq![self.curr_base_row, self.curr_ext_row, self.next_base_row, self.next_ext_row]
    }

    /// Where each region starts: the rows where the pointers say, the
    /// challenges where the layout says.
    pub open spec fn starts(self, layout: DynamicTasmConstraintEvaluationMemoryLayout) -> spec_fn(
        IOList,
    ) -> u64 {
        |list: IOList|
            match list {
                IOList::FreeMemPage => layout.free_mem_page_ptr,
                IOList::CurrBaseRow => self.curr_base_row,
                IOList::CurrExtRow => self.curr_ext_row,
                IOList::NextBaseRow => self.next_base_row,
                IOList::NextExtRow => self.next_ext_row,
                IOList::Challenges => layout.challenges_ptr,
            }
    }

    /// Memory after the row pointers have been put into the first words of
    /// the free page.
    pub open spec fn stored(
        self,
        ram: Map<u64, u64>,
        layout: DynamicTasmConstraintEvaluationMemoryLayout,
    ) -> Map<u64, u64> {
        let start = layout.free_mem_page_ptr;
        ram.insert(address(start, 3), self.next_ext_row).insert(
            address(start, 2),
            self.next_base_row,
        ).insert(address(start, 1), self.curr_ext_row).insert(
            address(start, 0),
            self.curr_base_row,
        )
    }
}

/// Writing one word takes the word below the address to the address.
pub proof fn lemma_write_pointer(
    list: IOList,
    m: Machine,
    value: u64,
    pointers: spec_fn(IOList) -> u64,
)
    ensures
        run(store_pointer_code(list), pushed(m, seq![value]), pointers) == Some(
            Machine { stack: m.stack, ram: m.ram.insert(address(pointers(list), 0), value) },
        ),
{
    reveal_with_fuel(write_words, 2);
    let start = pushed(m, seq![value]);
    let p = address(pointers(list), 0);
    let i0 = push_address(list, 0);
    let i1 = Instruction::WriteMem(NumberOfWords::N1);
    let i2 = Instruction::Pop(NumberOfWords::N1);
    let m1 = Machine { stack: start.stack.push(p), ram: m.ram };
    assert(step(i0, start, pointers) == Some(m1));
    let len = m1.stack.len() as int;
    let words = top_words(m1.stack.take(len - 1), 1);
    assert(words =~= seq![value]);
    assert(words.drop_first() =~= Seq::<u64>::empty());
    let ram = m.ram.insert(p, value);
    assert(write_words(m.ram, p, words) == ram);
    assert(m1.stack.take(len - 2) =~= m.stack);
    let m2 = Machine { stack: m.stack.push(address(p, 1)), ram };
    assert(step(i1, m1, pointers) == Some(m2));
    assert(m2.stack.take(m2.stack.len() - 1) =~= m.stack);
    assert(step(i2, m2, pointers) == Some(Machine { stack: m.stack, ram }));
    lemma_run_3(i0, i1, i2, start, m1, m2, pointers);
    assert(store_pointer_code(list) =~= seq![i0, i1, i2]);
}

/// Where the dynamic layout keeps the four row pointers.
pub proof fn lemma_pointer_slots(layout: DynamicTasmConstraintEvaluationMemoryLayout)
    requires
        layout.free_mem_page_ptr < P,
    ensures
        address(dynamic_pointers(layout)(IOList::CurrBaseRow), 0) == address(
            layout.free_mem_page_ptr,
            0,
        ),
        address(dynamic_pointers(layout)(IOList::CurrExtRow), 0) == address(
            layout.free_mem_page_ptr,
            1,
        ),
        address(dynamic_pointers(layout)(IOList::NextBaseRow), 0) == address(
            layout.free_mem_page_ptr,
            2,
        ),
        address(dynamic_pointers(layout)(IOList::NextExtRow), 0) == address(
            layout.free_mem_page_ptr,
            3,
        ),
{
    reveal(address);
}

/// The opening of the dynamic program takes the four row pointers from the
/// stack to the first words of the free page.
pub proof fn lemma_row_pointers(
    layout: DynamicTasmConstraintEvaluationMemoryLayout,
    m: Machine,
    rows: RowPointers,
)
    requires
        layout.free_mem_page_ptr < P,
    ensures
        run(row_pointer_code(), pushed(m, rows.on_stack()), dynamic_pointers(layout)) == Some(
            Machine { stack: m.stack, ram: rows.stored(m.ram, layout) },
        ),
{
    let pointers = dynamic_pointers(layout);
    lemma_pointer_slots(layout);
    let s3 = m.stack + seq![rows.curr_base_row, rows.curr_ext_row, rows.next_base_row];
    let s2 = m.stack + seq![rows.curr_base_row, rows.curr_ext_row];
    let s1 = m.stack + seq![rows.curr_base_row];
    let m0 = pushed(m, rows.on_stack());
    let start = layout.free_mem_page_ptr;
    let r1 = m.ram.insert(address(start, 3), rows.next_ext_row);
    let r2 = r1.insert(address(start, 2), rows.next_base_row);
    let r3 = r2.insert(address(start, 1), rows.curr_ext_row);
    // the machine below the pointer that each of the four blocks stores
    let c3 = Machine { stack: s3, ram: m.ram };
    let c2 = Machine { stack: s2, ram: r1 };
    let c1 = Machine { stack: s1, ram: r2 };
    let c0 = Machine { stack: m.stack, ram: r3 };
    assert(m0.stack =~= s3 + seq![rows.next_ext_row]);
    assert(s3 =~= s2 + seq![rows.next_base_row]);
    assert(s2 =~= s1 + seq![rows.curr_ext_row]);
    assert(m0 == pushed(c3, seq![rows.next_ext_row]));
    assert(Machine { stack: s3, ram: r1 } == pushed(c2, seq![rows.next_base_row]));
    assert(Machine { stack: s2, ram: r2 } == pushed(c1, seq![rows.curr_ext_row]));
    assert(Machine { stack: s1, ram: r3 } == pushed(c0, seq![rows.curr_base_row]));
    let b3 = store_pointer_code(IOList::NextExtRow);
    let b2 = store_pointer_code(IOList::NextBaseRow);
    let b1 = store_pointer_code(IOList::CurrExtRow);
    let b0 = store_pointer_code(IOList::CurrBaseRow);
    lemma_write_pointer(IOList::NextExtRow, c3, rows.next_ext_row, pointers);
    lemma_write_pointer(IOList::NextBaseRow, c2, rows.next_base_row, pointers);
    lemma_write_pointer(IOList::CurrExtRow, c1, rows.curr_ext_row, pointers);
    lemma_write_pointer(IOList::CurrBaseRow, c0, rows.curr_base_row, pointers);
    lemma_run_concat(b3, b2, m0, pointers);
    lemma_run_concat(b3 + b2, b1, m0, pointers);
    lemma_run_concat(b3 + b2 + b1, b0, m0, pointers);
}

/// Inputs that are in their place are where the dynamic program expects
/// them once the row pointers have been stored.
pub proof fn lemma_dynamic_ready(
    exprs: Seq<CircuitExpression>,
    ram: Map<u64, u64>,
    layout: DynamicTasmConstraintEvaluationMemoryLayout,
    rows: RowPointers,
    env: Assignment,
)
    requires
        layout.free_mem_page_ptr < P,
        inputs_in_place(exprs, ram, layout.free_mem_page_ptr, rows.starts(layout), env),
    ensures
        inputs_hold(exprs, rows.stored(ram, layout), dynamic_pointers(layout), env, false),
        reads_outside(exprs, rows.stored(ram, layout), dynamic_pointers(layout), false),
{
    let pointers = dynamic_pointers(layout);
    let starts = rows.starts(layout);
    let start = layout.free_mem_page_ptr;
    let stored = rows.stored(ram, layout);
    let base = pointers(IOList::FreeMemPage);
    assert(base == (start + 4) as u64);
    // the four words hold the four row pointers
    assert forall|j: int, k: int| 0 <= j < 4 && 0 <= k < 4 && j != k implies address(start, j)
        != address(start, k) by {
        if address(start, j) == address(start, k) {
            lemma_address_injective(start, j, k);
        }
    }
    assert(address(start, 0) != address(start, 1));
    assert(address(start, 0) != address(start, 2));
    assert(address(start, 0) != address(start, 3));
    assert(address(start, 1) != address(start, 2));
    assert(address(start, 1) != address(start, 3));
    assert(address(start, 2) != address(start, 3));
    lemma_pointer_slots(layout);
    // the four words lie on the page, and not where results go
    lemma_page_contains(start, 0);
    lemma_page_contains(start, 1);
    lemma_page_contains(start, 2);
    lemma_page_contains(start, 3);
    assert forall|j: int| 0 <= j < 4 implies outside_work_area(base, #[trigger] address(start, j)) by {
        assert forall|off: int| 0 <= off < work_area_words() implies #[trigger] address(base, off)
            != address(start, j) by {
            assert(address(base, off) == address(start, 4 + off)) by {
                reveal(address);
            }
            if address(start, 4 + off) == address(start, j) {
                lemma_address_injective(start, 4 + off, j);
            }
        }
    }
    assert forall|a: u64| !free_page(start).spec_contains_address(a) implies #[trigger] stored[a]
        == ram[a] by {}
    assert forall|n: int| 0 <= n < exprs.len() implies reads_agree(
        #[trigger] exprs[n],
        stored,
        pointers,
        env,
        false,
    ) && read_outside(exprs[n], stored, pointers, false) by {
        assert(read_in_place(exprs[n], ram, start, starts, env));
        match exprs[n] {
            CircuitExpression::Input(input) => {
                let list = input_list(input);
                let from = starts(list);
                assert(stored[address(pointers(list), 0)] == from);
                lemma_element_off_page(start, 4, from, 3 * input.column);
                assert(element_at(stored, from, 3 * input.column) == element_at(
                    ram,
                    from,
                    3 * input.column,
                ));
                assert(exists|j: int| 0 <= j < 4 && address(pointers(list), 0) == address(start, j))
                    by {
                    match list {
                        IOList::CurrBaseRow => {
                            assert(address(pointers(list), 0) == address(start, 0));
                        },
                        IOList::CurrExtRow => {
                            assert(address(pointers(list), 0) == address(start, 1));
                        },
                        IOList::NextBaseRow => {
                            assert(address(pointers(list), 0) == address(start, 2));
                        },
                        _ => {
                            assert(address(pointers(list), 0) == address(start, 3));
                        },
                    }
                }
            },
            CircuitExpression::Challenge(index) => {
                let from = starts(IOList::Challenges);
                lemma_element_off_page(start, 4, from, 3 * index);
                assert(element_at(stored, from, 3 * index) == element_at(ram, from, 3 * index));
            },
            _ => {},
        }
    }
}

/// The dynamic program is correct. Let the four row pointers lie on the
/// stack, and let memory hold the rows where they point and the challenges
/// where the layout says, all off the free page. Then the program runs to
/// its end; it takes the row pointers from the stack and leaves the address
/// of the output array; the array holds the value of every constraint under
/// the assignment, in the order initial, consistency, transition, terminal,
/// base field constraints first within each; and every word off the free
/// page is as it was.
pub proof fn lemma_dynamic_program(
    constraints: &Constraints,
    layout: DynamicTasmConstraintEvaluationMemoryLayout,
    m: Machine,
    rows: RowPointers,
    env: Assignment,
)
    requires
        all_compilable_for(constraints, false),
        layout.free_mem_page_ptr < P,
        all_in_place(constraints, m.ram, layout.free_mem_page_ptr, rows.starts(layout), env),
    ensures
        run(
            dynamic_program(constraints),
            pushed(m, rows.on_stack()),
            dynamic_pointers(layout),
        ).is_some(),
        after(
            dynamic_program(constraints),
            pushed(m, rows.on_stack()),
            dynamic_pointers(layout),
        ).stack == m.stack.push(address(layout.spec_pointer(IOList::FreeMemPage), out_offset())),
        all_values(constraints, env).len() == constraints.spec_len(),
        forall|i: int|
            0 <= i < constraints.spec_len() ==> element_at(
                after(
                    dynamic_program(constraints),
                    pushed(m, rows.on_stack()),
                    dynamic_pointers(layout),
                ).ram,
                layout.spec_pointer(IOList::FreeMemPage),
                out_offset() + 3 * i,
            ) == #[trigger] all_values(constraints, env)[i],
        forall|a: u64|
            !free_page(layout.free_mem_page_ptr).spec_contains_address(a) ==> #[trigger] after(
                dynamic_program(constraints),
                pushed(m, rows.on_stack()),
                dynamic_pointers(layout),
            ).ram[a] == m.ram[a],
{
    let pointers = dynamic_pointers(layout);
    let start = layout.free_mem_page_ptr;
    let m0 = pushed(m, rows.on_stack());
    lemma_row_pointers(layout, m, rows);
    let m1 = Machine { stack: m.stack, ram: rows.stored(m.ram, layout) };
    lemma_dynamic_ready(constraints.init.expressions@, m.ram, layout, rows, env);
    lemma_dynamic_ready(constraints.cons.expressions@, m.ram, layout, rows, env);
    lemma_dynamic_ready(constraints.tran.expressions@, m.ram, layout, rows, env);
    lemma_dynamic_ready(constraints.term.expressions@, m.ram, layout, rows, env);
    lemma_all_buckets(constraints, false, m1, pointers, env);
    lemma_run_concat(row_pointer_code(), all_buckets_code(constraints, false), m0, pointers);
    let end = after(dynamic_program(constraints), m0, pointers);
    lemma_page_contains(start, 0);
    lemma_page_contains(start, 1);
    lemma_page_contains(start, 2);
    lemma_page_contains(start, 3);
    assert forall|a: u64| !free_page(start).spec_contains_address(a) implies #[trigger] end.ram[a]
        == m.ram[a] by {
        lemma_off_page_is_outside(start, 4, a);
        assert(m1.ram[a] == m.ram[a]);
    }
}

/// The two backends agree, dynamic case: what the dynamic program leaves in
/// the output array is, constraint by constraint, what the native code
/// yields under the same assignment.
pub proof fn lemma_dynamic_program_agrees_with_native_code(
    constraints: &Constraints,
    code: RustCode,
    layout: DynamicTasmConstraintEvaluationMemoryLayout,
    m: Machine,
    rows: RowPointers,
    env: Assignment,
)
    requires
        all_compilable_for(constraints, false),
        is_native_code(constraints, code),
        layout.free_mem_page_ptr < P,
        all_in_place(constraints, m.ram, layout.free_mem_page_ptr, rows.starts(layout), env),
    ensures
        run(
            dynamic_program(constraints),
            pushed(m, rows.on_stack()),
            dynamic_pointers(layout),
        ).is_some(),
        native_results(code, env).len() == constraints.spec_len(),
        forall|i: int|
            0 <= i < constraints.spec_len() ==> element_at(
                after(
                    dynamic_program(constraints),
                    pushed(m, rows.on_stack()),
                    dynamic_pointers(layout),
                ).ram,
                layout.spec_pointer(IOList::FreeMemPage),
                out_offset() + 3 * i,
            ) == #[trigger] native_results(code, env)[i],
{
    lemma_dynamic_program(constraints, layout, m, rows, env);
    lemma_native_results(constraints, code, env);
}

} // verus!
