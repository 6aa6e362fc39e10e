//! The assembly backend: straight-line code for the stack machine that
//! evaluates all constraints and leaves the results in an array inside a
//! page of free memory.
//!
//! Every operation that is referred to at least twice is computed once,
//! after everything shared below it, and stored in the free page at a slot
//! named by the node; every later use loads the slot. The results of the constraints go to an array at the end of the
//! page, base field constraints before extension field constraints in each
//! bucket.

use crate::circuit::base_first;
use crate::circuit::BinOp;
use crate::circuit::CircuitExpression;
use crate::circuit::InputIndicator;
use crate::circuit::Multicircuit;
use crate::circuit::Row;
use crate::circuit::Table;
use crate::constraints::Constraints;
use crate::field::bfe_canonical;
use crate::field::lift;
use crate::field::reduce;
use crate::field::lifted;
use crate::field::ExtensionElement;
use crate::field::EXTENSION_DEGREE;
use crate::instruction::assemble;
use crate::instruction::assembled;
use crate::instruction::straight_line;
use crate::instruction::IOList;
use crate::instruction::Instruction;
use crate::instruction::NumberOfWords;
use crate::instruction::Operand;
use crate::instruction::Word;
use crate::memory_layout::DynamicTasmConstraintEvaluationMemoryLayout;
use crate::memory_layout::RegionSizes;
use crate::memory_layout::StaticTasmConstraintEvaluationMemoryLayout;
use crate::sharing::countable;
use crate::sharing::lemma_no_roots_no_sharing;
use crate::sharing::lemma_stored_below;
use crate::sharing::lemma_to_set_concat;
use crate::reach::closed;
use crate::reach::lemma_before_the_passes;
use crate::reach::lemma_descending_rest;
use crate::reach::lemma_pass;
use crate::reach::lemma_pass_stays_low;
use crate::reach::lemma_pass_stays_low_with_more_kept;
use crate::reach::lemma_stays_low_at_operand;
use crate::reach::pass_stays_low;
use crate::reach::passes_remain;
use crate::reach::reached;
use crate::reach::stays_low;
use crate::sharing::picked_below;
use crate::sharing::stored_below;
use crate::sharing::strictly_descending;
use crate::sharing::picked_for_count;
use crate::sharing::picked_for_counts;
use crate::sharing::reference_counts;
use crate::sharing::reference_counts_of;
use crate::sharing::relevant_counts_of;
use crate::sharing::relevant_ref_counts;
use crate::sharing::shared_nodes;
use std::collections::HashSet;
use vstd::prelude::*;
use vstd::std_specs::hash::group_hash_axioms;

verus! {

broadcast use group_hash_axioms;

/// Size of the page of free memory, in words.
pub const MEM_PAGE_SIZE: u64 = 0x1_0000_0000;

/// Number of words at the end of the free page that are set aside for the
/// evaluated constraints.
pub const OUT_ARRAY_NUM_WORDS: u64 = 0x1_0000;

/// Where the array of evaluated constraints starts, as a number of extension
/// field elements from the start of the free page.
pub const OUT_ARRAY_OFFSET: usize = 1431633920;

/// An offset added to a region's start must stay below this bound, so that
/// the sum of the two is still a field element.
pub const OFFSET_LIMIT: u64 = 0xffff_fffe;

/// The largest element index that can be read from a region.
pub const MAX_READ_INDEX: usize = 1431655763;

/// The largest number of constraints whose results fit the output array,
/// also when the array starts after the words that hold the row pointers.
pub const MAX_NUM_CONSTRAINTS: usize = 21844;

/// Number of words at the start of the free page that hold the row pointers
/// when the rows' locations are known only at run time.
pub const NUM_POINTER_POINTERS: u64 = 4;

/// How the constants above hang together.
pub proof fn lemma_layout_constants()
    ensures
        OUT_ARRAY_OFFSET * 3 == MEM_PAGE_SIZE - OUT_ARRAY_NUM_WORDS,
        OFFSET_LIMIT == u64::MAX - crate::field::P,
        MAX_READ_INDEX * 3 + 2 < OFFSET_LIMIT,
        (MAX_READ_INDEX + 1) * 3 + 2 >= OFFSET_LIMIT,
        (OUT_ARRAY_OFFSET + MAX_NUM_CONSTRAINTS) * 3 + NUM_POINTER_POINTERS <= MEM_PAGE_SIZE,
        (OUT_ARRAY_OFFSET + MAX_NUM_CONSTRAINTS + 1) * 3 + NUM_POINTER_POINTERS > MEM_PAGE_SIZE,
        (OUT_ARRAY_OFFSET + MAX_NUM_CONSTRAINTS - 1) * 3 < OFFSET_LIMIT,
{
}

/// The word that a read of element `element_index` starts from: the last
/// of the element's three words, since reading walks downwards. The index
/// is a field element, so it is taken modulo the field's order.
pub open spec fn read_word_index(element_index: usize) -> u64 {
    reduce(element_index * 3 + 2) as u64
}

/// The word index of the element can be computed in the machine word.
pub open spec fn word_index_fits(element_index: usize) -> bool {
    element_index * 3 + 2 <= usize::MAX
}

/// The word index of the element can be computed, and can be added to a
/// region's start where an address is pushed.
pub open spec fn can_be_pushed(element_index: usize) -> bool {
    word_index_fits(element_index) && read_word_index(element_index) < OFFSET_LIMIT
}

/// The element can be read: by way of a pushed address where its region's
/// start is known when the code is assembled, by way of an address that is
/// added to at run time where the start lies in memory.
pub open spec fn can_be_read(element_index: usize, pushed: bool) -> bool {
    if pushed {
        can_be_pushed(element_index)
    } else {
        word_index_fits(element_index)
    }
}

/// Up to `MAX_READ_INDEX`, the word index is three times the element's
/// index plus two, and can be pushed.
pub proof fn lemma_small_index(element_index: usize)
    requires
        element_index <= MAX_READ_INDEX,
    ensures
        can_be_pushed(element_index),
        read_word_index(element_index) == element_index * 3 + 2,
{
    vstd::arithmetic::div_mod::lemma_small_mod(
        (element_index * 3 + 2) as nat,
        crate::field::P as nat,
    );
}

/// The first of the three words of element `element_index`.
pub open spec fn write_word_index(element_index: usize) -> u64 {
    (element_index * 3) as u64
}

/// The instruction that pushes the address `offset` words after the start
/// of `list`.
pub open spec fn push_address(list: IOList, offset: u64) -> Instruction {
    Instruction::Push(Operand::Address(list, offset))
}

/// Code that loads one element of a region whose start is known when the
/// code is assembled.
pub open spec fn load_from_list(list: IOList, element_index: usize) -> Seq<Instruction> {
    seq![
        push_address(list, read_word_index(element_index)),
        Instruction::ReadMem(NumberOfWords::N3),
        Instruction::Pop(NumberOfWords::N1),
    ]
}

/// Code that loads one element of a region whose start is itself read from
/// memory.
pub open spec fn load_from_pointed_to_list(list: IOList, element_index: usize) -> Seq<
    Instruction,
> {
    seq![
        push_address(list, 0),
        Instruction::ReadMem(NumberOfWords::N1),
        Instruction::Pop(NumberOfWords::N1),
        Instruction::AddI(read_word_index(element_index)),
        Instruction::ReadMem(NumberOfWords::N3),
        Instruction::Pop(NumberOfWords::N1),
    ]
}

/// Code that stores the element on top of the stack in slot `element_index`
/// of the free page.
pub open spec fn store_element(element_index: usize) -> Seq<Instruction> {
    seq![
        push_address(IOList::FreeMemPage, write_word_index(element_index)),
        Instruction::WriteMem(NumberOfWords::N3),
        Instruction::Pop(NumberOfWords::N1),
    ]
}

/// Code that pushes a constant, highest coefficient first.
pub open spec fn load_constant(x: ExtensionElement) -> Seq<Instruction> {
    seq![
        Instruction::Push(Operand::Constant(x.c2)),
        Instruction::Push(Operand::Constant(x.c1)),
        Instruction::Push(Operand::Constant(x.c0)),
    ]
}

/// The region that an input is read from.
pub open spec fn input_list(input: InputIndicator) -> IOList {
    match (input.row, input.table) {
        (Row::Current, Table::Main) => IOList::CurrBaseRow,
        (Row::Current, Table::Aux) => IOList::CurrExtRow,
        (Row::Next, Table::Main) => IOList::NextBaseRow,
        (Row::Next, Table::Aux) => IOList::NextExtRow,
    }
}

/// Code that loads an input.
pub open spec fn load_input_code(input: InputIndicator, is_static: bool) -> Seq<Instruction> {
    if is_static {
        load_from_list(input_list(input), input.column)
    } else {
        load_from_pointed_to_list(input_list(input), input.column)
    }
}

/// Code that loads the value of a node without computing anything: a
/// constant, an input, a challenge, or the stored result of an operation.
pub open spec fn load_node_code(e: CircuitExpression, n: usize, is_static: bool) -> Seq<
    Instruction,
> {
    match e {
        CircuitExpression::BConstant(v) => load_constant(lifted(v)),
        CircuitExpression::XConstant(x) => load_constant(x),
        CircuitExpression::Input(input) => load_input_code(input, is_static),
        CircuitExpression::Challenge(index) => load_from_list(IOList::Challenges, index),
        CircuitExpression::BinaryOperation(_, _, _) => load_from_list(IOList::FreeMemPage, n),
    }
}

/// The instruction that carries out `op` on two elements of the extension
/// field.
pub open spec fn operation(op: BinOp) -> Instruction {
    match op {
        BinOp::Add => Instruction::XxAdd,
        BinOp::Mul => Instruction::XxMul,
    }
}

/// Code that leaves the value of node `n` on the stack. Nodes in `kept` are
/// loaded from their slots; other operations are computed from their
/// operands.
pub open spec fn evaluation_code(
    exprs: Seq<CircuitExpression>,
    kept: Set<usize>,
    n: usize,
    is_static: bool,
) -> Seq<Instruction>
    decreases n,
{
    if n < exprs.len() {
        match exprs[n as int] {
            CircuitExpression::BinaryOperation(op, l, r) => {
                if !kept.contains(n) && l < n && r < n {
                    evaluation_code(exprs, kept, l, is_static) + evaluation_code(
                        exprs,
                        kept,
                        r,
                        is_static,
                    ) + seq![operation(op)]
                } else {
                    load_node_code(exprs[n as int], n, is_static)
                }
            },
            _ => load_node_code(exprs[n as int], n, is_static),
        }
    } else {
        Seq::<Instruction>::empty()
    }
}

/// Code that computes each of `nodes` in turn and stores it in its slot. A
/// node that has been stored counts as kept for the nodes after it.
pub open spec fn storing_code(
    exprs: Seq<CircuitExpression>,
    kept: Set<usize>,
    nodes: Seq<usize>,
    is_static: bool,
) -> Seq<Instruction>
    decreases nodes.len(),
{
    if nodes.len() == 0 {
        Seq::<Instruction>::empty()
    } else {
        evaluation_code(exprs, kept, nodes[0], is_static) + store_element(nodes[0]) + storing_code(
            exprs,
            kept.insert(nodes[0]),
            nodes.drop_first(),
            is_static,
        )
    }
}

/// Code that evaluates each of `roots` in turn and stores the results in
/// consecutive slots of the output array, the first in slot `written`.
pub open spec fn output_code(
    exprs: Seq<CircuitExpression>,
    kept: Set<usize>,
    roots: Seq<usize>,
    written: usize,
    is_static: bool,
) -> Seq<Instruction>
    decreases roots.len(),
{
    if roots.len() == 0 {
        Seq::<Instruction>::empty()
    } else {
        output_code(exprs, kept, roots.drop_last(), written, is_static) + evaluation_code(
            exprs,
            kept,
            roots.last(),
            is_static,
        ) + store_element((OUT_ARRAY_OFFSET + written + roots.len() - 1) as usize)
    }
}

/// The code for one bucket: the shared nodes are stored, then the
/// constraints are evaluated, those of the base field first.
pub open spec fn tokenized(
    exprs: Seq<CircuitExpression>,
    roots: Seq<usize>,
    written: usize,
    is_static: bool,
) -> Seq<Instruction> {
    let shared = shared_nodes(exprs, roots);
    storing_code(exprs, Set::<usize>::empty(), shared, is_static) + output_code(
        exprs,
        shared.to_set(),
        base_first(exprs, roots),
        written,
        is_static,
    )
}

/// Code that moves the word below the top of the stack to the word that
/// `list` names.
pub open spec fn store_pointer_code(list: IOList) -> Seq<Instruction> {
    seq![
        push_address(list, 0),
        Instruction::WriteMem(NumberOfWords::N1),
        Instruction::Pop(NumberOfWords::N1),
    ]
}

/// Code that moves the four row pointers from the stack to the first four
/// words of the free page, the pointer on top first.
pub open spec fn row_pointer_code() -> Seq<Instruction> {
    store_pointer_code(IOList::NextExtRow) + store_pointer_code(IOList::NextBaseRow)
        + store_pointer_code(IOList::CurrExtRow) + store_pointer_code(IOList::CurrBaseRow)
}

/// Code that leaves the address of the output array on the stack.
pub open spec fn return_code() -> Seq<Instruction> {
    seq![push_address(IOList::FreeMemPage, write_word_index(OUT_ARRAY_OFFSET))]
}

/// The code for all four buckets, in the order initial, consistency,
/// transition, terminal, followed by the code that returns the output array.
pub open spec fn all_buckets_code(constraints: &Constraints, is_static: bool) -> Seq<Instruction> {
    let n_init = constraints.init.roots@.len();
    let n_cons = constraints.cons.roots@.len();
    let n_tran = constraints.tran.roots@.len();
    tokenized(constraints.init.expressions@, constraints.init.roots@, 0, is_static) + tokenized(
        constraints.cons.expressions@,
        constraints.cons.roots@,
        n_init as usize,
        is_static,
    ) + tokenized(
        constraints.tran.expressions@,
        constraints.tran.roots@,
        (n_init + n_cons) as usize,
        is_static,
    ) + tokenized(
        constraints.term.expressions@,
        constraints.term.roots@,
        (n_init + n_cons + n_tran) as usize,
        is_static,
    ) + return_code()
}

/// The whole program for rows at addresses known when the code is assembled.
pub open spec fn static_program(constraints: &Constraints) -> Seq<Instruction> {
    all_buckets_code(constraints, true)
}

/// The whole program for rows whose addresses arrive on the stack.
pub open spec fn dynamic_program(constraints: &Constraints) -> Seq<Instruction> {
    row_pointer_code() + all_buckets_code(constraints, false)
}

/// The words of a program, led by their number.
pub open spec fn with_length_prefix(words: Seq<Word>) -> Seq<Word> {
    seq![Word::Literal(words.len() as u64)] + words
}

/// Every input and every challenge of the graph can be read, and no node's
/// slot reaches into the output array.
pub open spec fn addressable(exprs: Seq<CircuitExpression>, is_static: bool) -> bool {
    &&& exprs.len() <= OUT_ARRAY_OFFSET
    &&& forall|n: int| 0 <= n < exprs.len() ==> readable(#[trigger] exprs[n], is_static)
}

/// What the expression reads can be read. The address of a challenge is
/// always pushed; that of an input is pushed where the rows' places are
/// known when the code is assembled.
pub open spec fn readable(e: CircuitExpression, is_static: bool) -> bool {
    match e {
        CircuitExpression::Input(input) => can_be_read(input.column, is_static),
        CircuitExpression::Challenge(index) => can_be_pushed(index),
        _ => true,
    }
}

/// What can be read where addresses are pushed can be read where they are
/// not.
pub proof fn lemma_addressable_either_way(exprs: Seq<CircuitExpression>)
    requires
        addressable(exprs, true),
    ensures
        addressable(exprs, false),
{
    assert forall|n: int| 0 <= n < exprs.len() implies readable(#[trigger] exprs[n], false) by {
        assert(readable(exprs[n], true));
    }
}

/// The assembly backend can compile the batch: its reference counts fit the
/// machine word and everything it reads and stores can be addressed.
pub open spec fn compilable(circuits: &Multicircuit, is_static: bool) -> bool {
    &&& circuits.wf()
    &&& countable(circuits.expressions@, circuits.roots@)
    &&& addressable(circuits.expressions@, is_static)
}

/// Storing a run of nodes and then another is storing the two runs in one.
pub proof fn lemma_storing_code_concat(
    exprs: Seq<CircuitExpression>,
    kept: Set<usize>,
    a: Seq<usize>,
    b: Seq<usize>,
    is_static: bool,
)
    ensures
        storing_code(exprs, kept, a + b, is_static) == storing_code(exprs, kept, a, is_static)
            + storing_code(exprs, kept.union(a.to_set()), b, is_static),
    decreases a.len(),
{
    if a.len() == 0 {
        assert(a + b =~= b);
        assert(kept.union(a.to_set()) =~= kept);
        assert(storing_code(exprs, kept, a, is_static) + storing_code(exprs, kept, b, is_static)
            =~= storing_code(exprs, kept, b, is_static));
    } else {
        let rest = a.drop_first();
        assert((a + b).drop_first() =~= rest + b);
        assert((a + b)[0] == a[0]);
        lemma_storing_code_concat(exprs, kept.insert(a[0]), rest, b, is_static);
        assert(kept.insert(a[0]).union(rest.to_set()) =~= kept.union(a.to_set())) by {
            assert forall|x: usize|
                kept.insert(a[0]).union(rest.to_set()).contains(x) <==> kept.union(
                    a.to_set(),
                ).contains(x) by {
                if rest.to_set().contains(x) {
                    let i = choose|i: int| 0 <= i < rest.len() && rest[i] == x;
                    assert(a[i + 1] == x);
                    assert(a.contains(x));
                }
                if a.to_set().contains(x) {
                    let i = choose|i: int| 0 <= i < a.len() && a[i] == x;
                    if i > 0 {
                        assert(rest[i - 1] == x);
                        assert(rest.contains(x));
                    }
                }
            }
        }
        assert(storing_code(exprs, kept, a + b, is_static) =~= storing_code(
            exprs,
            kept,
            a,
            is_static,
        ) + storing_code(exprs, kept.union(a.to_set()), b, is_static));
    }
}

/// Joining two runs of straight-line code gives straight-line code.
pub proof fn lemma_straight_line_concat(a: Seq<Instruction>, b: Seq<Instruction>)
    requires
        straight_line(a),
        straight_line(b),
    ensures
        straight_line(a + b),
{
    assert forall|i: int| 0 <= i < (a + b).len() implies !(#[trigger] (a + b)[i]).is_control_flow() by {
        if i < a.len() {
            assert((a + b)[i] == a[i]);
        } else {
            assert((a + b)[i] == b[i - a.len()]);
        }
    }
}

/// Loading a node takes no control-flow instruction.
pub proof fn lemma_load_node_straight_line(e: CircuitExpression, n: usize, is_static: bool)
    ensures
        straight_line(load_node_code(e, n, is_static)),
{
}

/// Evaluating a node takes no control-flow instruction.
pub proof fn lemma_evaluation_straight_line(
    exprs: Seq<CircuitExpression>,
    kept: Set<usize>,
    n: usize,
    is_static: bool,
)
    ensures
        straight_line(evaluation_code(exprs, kept, n, is_static)),
    decreases n,
{
    if n < exprs.len() {
        match exprs[n as int] {
            CircuitExpression::BinaryOperation(op, l, r) => {
                if !kept.contains(n) && l < n && r < n {
                    lemma_evaluation_straight_line(exprs, kept, l, is_static);
                    lemma_evaluation_straight_line(exprs, kept, r, is_static);
                    lemma_straight_line_concat(
                        evaluation_code(exprs, kept, l, is_static),
                        evaluation_code(exprs, kept, r, is_static),
                    );
                    lemma_straight_line_concat(
                        evaluation_code(exprs, kept, l, is_static) + evaluation_code(
                            exprs,
                            kept,
                            r,
                            is_static,
                        ),
                        seq![operation(op)],
                    );
                } else {
                    lemma_load_node_straight_line(exprs[n as int], n, is_static);
                }
            },
            _ => {
                lemma_load_node_straight_line(exprs[n as int], n, is_static);
            },
        }
    }
}

/// Storing nodes takes no control-flow instruction.
pub proof fn lemma_storing_straight_line(
    exprs: Seq<CircuitExpression>,
    kept: Set<usize>,
    nodes: Seq<usize>,
    is_static: bool,
)
    ensures
        straight_line(storing_code(exprs, kept, nodes, is_static)),
    decreases nodes.len(),
{
    if nodes.len() > 0 {
        lemma_evaluation_straight_line(exprs, kept, nodes[0], is_static);
        lemma_storing_straight_line(exprs, kept.insert(nodes[0]), nodes.drop_first(), is_static);
        lemma_straight_line_concat(
            evaluation_code(exprs, kept, nodes[0], is_static),
            store_element(nodes[0]),
        );
        lemma_straight_line_concat(
            evaluation_code(exprs, kept, nodes[0], is_static) + store_element(nodes[0]),
            storing_code(exprs, kept.insert(nodes[0]), nodes.drop_first(), is_static),
        );
    }
}

/// Writing results takes no control-flow instruction.
pub proof fn lemma_output_straight_line(
    exprs: Seq<CircuitExpression>,
    kept: Set<usize>,
    roots: Seq<usize>,
    written: usize,
    is_static: bool,
)
    ensures
        straight_line(output_code(exprs, kept, roots, written, is_static)),
    decreases roots.len(),
{
    if roots.len() > 0 {
        lemma_output_straight_line(exprs, kept, roots.drop_last(), written, is_static);
        lemma_evaluation_straight_line(exprs, kept, roots.last(), is_static);
        lemma_straight_line_concat(
            output_code(exprs, kept, roots.drop_last(), written, is_static),
            evaluation_code(exprs, kept, roots.last(), is_static),
        );
        lemma_straight_line_concat(
            output_code(exprs, kept, roots.drop_last(), written, is_static) + evaluation_code(
                exprs,
                kept,
                roots.last(),
                is_static,
            ),
            store_element((OUT_ARRAY_OFFSET + written + roots.len() - 1) as usize),
        );
    }
}

/// The code for a bucket takes no control-flow instruction.
pub proof fn lemma_tokenized_straight_line(
    exprs: Seq<CircuitExpression>,
    roots: Seq<usize>,
    written: usize,
    is_static: bool,
)
    ensures
        straight_line(tokenized(exprs, roots, written, is_static)),
{
    let shared = shared_nodes(exprs, roots);
    lemma_storing_straight_line(exprs, Set::<usize>::empty(), shared, is_static);
    lemma_output_straight_line(
        exprs,
        shared.to_set(),
        base_first(exprs, roots),
        written,
        is_static,
    );
    lemma_straight_line_concat(
        storing_code(exprs, Set::<usize>::empty(), shared, is_static),
        output_code(exprs, shared.to_set(), base_first(exprs, roots), written, is_static),
    );
}

/// Generated assembly is straight-line code: neither of the two programs
/// holds a call, a return, a recursion, a conditional skip or a halt. (Labels
/// cannot occur at all: a program is a sequence of instructions.)
pub proof fn lemma_programs_are_straight_line(constraints: &Constraints)
    ensures
        straight_line(static_program(constraints)),
        straight_line(dynamic_program(constraints)),
{
    lemma_all_buckets_straight_line(constraints, true);
    lemma_all_buckets_straight_line(constraints, false);
    lemma_straight_line_concat(row_pointer_code(), all_buckets_code(constraints, false));
}

/// The code for all buckets takes no control-flow instruction.
pub proof fn lemma_all_buckets_straight_line(constraints: &Constraints, is_static: bool)
    ensures
        straight_line(all_buckets_code(constraints, is_static)),
{
    let n_init = constraints.init.roots@.len();
    let n_cons = constraints.cons.roots@.len();
    let n_tran = constraints.tran.roots@.len();
    let a = tokenized(constraints.init.expressions@, constraints.init.roots@, 0, is_static);
    let b = tokenized(
        constraints.cons.expressions@,
        constraints.cons.roots@,
        n_init as usize,
        is_static,
    );
    let c = tokenized(
        constraints.tran.expressions@,
        constraints.tran.roots@,
        (n_init + n_cons) as usize,
        is_static,
    );
    let d = tokenized(
        constraints.term.expressions@,
        constraints.term.roots@,
        (n_init + n_cons + n_tran) as usize,
        is_static,
    );
    lemma_tokenized_straight_line(constraints.init.expressions@, constraints.init.roots@, 0, is_static);
    lemma_tokenized_straight_line(
        constraints.cons.expressions@,
        constraints.cons.roots@,
        n_init as usize,
        is_static,
    );
    lemma_tokenized_straight_line(
        constraints.tran.expressions@,
        constraints.tran.roots@,
        (n_init + n_cons) as usize,
        is_static,
    );
    lemma_tokenized_straight_line(
        constraints.term.expressions@,
        constraints.term.roots@,
        (n_init + n_cons + n_tran) as usize,
        is_static,
    );
    lemma_straight_line_concat(a, b);
    lemma_straight_line_concat(a + b, c);
    lemma_straight_line_concat(a + b + c, d);
    lemma_straight_line_concat(a + b + c + d, return_code());
}

/// The documentation that goes with the static program.
pub const STATIC_DOC_COMMENT: &'static str = "
         The emitted Triton assembly has the following signature:

         # Signature

         ```text
         BEFORE: _
         AFTER:  _ *evaluated_constraints
         ```
         # Requirements

         In order for this method to emit Triton assembly, various memory regions need to be
         declared. This is done through [`StaticTasmConstraintEvaluationMemoryLayout`]. The memory
         layout must be [integral].

         # Guarantees

         - The emitted code does not declare any labels.
         - The emitted code is “straight-line”, _i.e._, does not contain any of the instructions
           `call`, `return`, `recurse`, `recurse_or_return`, or `skiz`.
         - The emitted code does not contain instruction `halt`.
         - All memory write access of the emitted code is within the bounds of the memory region
           pointed to by `*free_memory_page`.
         - `*evaluated_constraints` points to an array of [`XFieldElement`][xfe]s of length
            [`NUM_CONSTRAINTS`][total]. Each element is the evaluation of one constraint. In
            particular, the disjoint sequence of slices containing
            [`NUM_INITIAL_CONSTRAINTS`][init], [`NUM_CONSISTENCY_CONSTRAINTS`][cons],
            [`NUM_TRANSITION_CONSTRAINTS`][tran], and [`NUM_TERMINAL_CONSTRAINTS`][term]
            (respectively and in this order) correspond to the evaluations of the initial,
            consistency, transition, and terminal constraints.

         [integral]: crate::air::memory_layout::IntegralMemoryLayout::is_integral
         [xfe]: twenty_first::prelude::XFieldElement
         [total]: crate::table::master_table::MasterExtTable::NUM_CONSTRAINTS
         [init]: crate::table::master_table::MasterExtTable::NUM_INITIAL_CONSTRAINTS
         [cons]: crate::table::master_table::MasterExtTable::NUM_CONSISTENCY_CONSTRAINTS
         [tran]: crate::table::master_table::MasterExtTable::NUM_TRANSITION_CONSTRAINTS
         [term]: crate::table::master_table::MasterExtTable::NUM_TERMINAL_CONSTRAINTS
        ";

/// The documentation that goes with the dynamic program.
pub const DYNAMIC_DOC_COMMENT: &'static str = "
         The emitted Triton assembly has the following signature:

         # Signature

         ```text
         BEFORE: _ *current_main_row *current_aux_row *next_main_row *next_aux_row
         AFTER:  _ *evaluated_constraints
         ```
         # Requirements

         In order for this method to emit Triton assembly, various memory regions need to be
         declared. This is done through [`DynamicTasmConstraintEvaluationMemoryLayout`]. The memory
         layout must be [integral].

         # Guarantees

         - The emitted code does not declare any labels.
         - The emitted code is “straight-line”, _i.e._, does not contain any of the instructions
           `call`, `return`, `recurse`, `recurse_or_return`, or `skiz`.
         - The emitted code does not contain instruction `halt`.
         - All memory write access of the emitted code is within the bounds of the memory region
           pointed to by `*free_memory_page`.
         - `*evaluated_constraints` points to an array of [`XFieldElement`][xfe]s of length
            [`NUM_CONSTRAINTS`][total]. Each element is the evaluation of one constraint. In
            particular, the disjoint sequence of slices containing
            [`NUM_INITIAL_CONSTRAINTS`][init], [`NUM_CONSISTENCY_CONSTRAINTS`][cons],
            [`NUM_TRANSITION_CONSTRAINTS`][tran], and [`NUM_TERMINAL_CONSTRAINTS`][term]
            (respectively and in this order) correspond to the evaluations of the initial,
            consistency, transition, and terminal constraints.

         [integral]: crate::air::memory_layout::IntegralMemoryLayout::is_integral
         [xfe]: twenty_first::prelude::XFieldElement
         [total]: crate::table::master_table::MasterExtTable::NUM_CONSTRAINTS
         [init]: crate::table::master_table::MasterExtTable::NUM_INITIAL_CONSTRAINTS
         [cons]: crate::table::master_table::MasterExtTable::NUM_CONSISTENCY_CONSTRAINTS
         [tran]: crate::table::master_table::MasterExtTable::NUM_TRANSITION_CONSTRAINTS
         [term]: crate::table::master_table::MasterExtTable::NUM_TERMINAL_CONSTRAINTS
        ";

/// All four buckets can be compiled for the given way of finding the rows,
/// and the results of all constraints fit the output array.
pub open spec fn all_compilable_for(constraints: &Constraints, is_static: bool) -> bool {
    &&& constraints.wf()
    &&& compilable(&constraints.init, is_static)
    &&& compilable(&constraints.cons, is_static)
    &&& compilable(&constraints.tran, is_static)
    &&& compilable(&constraints.term, is_static)
    &&& constraints.spec_len() <= MAX_NUM_CONSTRAINTS
}

/// Both programs can be made for the constraints.
pub open spec fn all_compilable(constraints: &Constraints) -> bool {
    all_compilable_for(constraints, true)
}

/// Where both programs can be made, each can.
pub proof fn lemma_all_compilable(constraints: &Constraints)
    requires
        all_compilable(constraints),
    ensures
        all_compilable_for(constraints, false),
{
    lemma_addressable_either_way(constraints.init.expressions@);
    lemma_addressable_either_way(constraints.cons.expressions@);
    lemma_addressable_either_way(constraints.tran.expressions@);
    lemma_addressable_either_way(constraints.term.expressions@);
}

/// The two programs that evaluate all constraints, as instructions and as
/// the words that a generated function holds.
#[derive(Debug, PartialEq, Eq)]
pub struct TasmCode {
    pub static_instructions: Vec<Instruction>,
    pub static_words: Vec<Word>,
    pub dynamic_instructions: Vec<Instruction>,
    pub dynamic_words: Vec<Word>,
}

/// The code is the code of the assembly backend for the constraints.
pub open spec fn is_tasm_code(constraints: &Constraints, code: TasmCode) -> bool {
    &&& code.static_instructions@ == static_program(constraints)
    &&& code.static_words@ == with_length_prefix(assembled(static_program(constraints)))
    &&& code.dynamic_instructions@ == dynamic_program(constraints)
    &&& code.dynamic_words@ == with_length_prefix(assembled(dynamic_program(constraints)))
}

/// The assembly backend is deterministic: compiling the same constraints
/// twice gives the same instructions and the same words.
pub proof fn lemma_assembly_is_deterministic(
    constraints: &Constraints,
    first: TasmCode,
    second: TasmCode,
)
    requires
        is_tasm_code(constraints, first),
        is_tasm_code(constraints, second),
    ensures
        first.static_instructions@ == second.static_instructions@,
        first.static_words@ == second.static_words@,
        first.dynamic_instructions@ == second.dynamic_instructions@,
        first.dynamic_words@ == second.dynamic_words@,
{
}

/// The state of one run of the assembly backend.
pub struct TasmBackend {
    /// The nodes whose values are in their slots.
    pub scope: HashSet<usize>,
    /// The number of constraints whose results are in the output array.
    pub elements_written: usize,
    /// Whether the rows' addresses are known when the code is assembled.
    pub input_location_is_static: bool,
}

/// `a` followed by `b`.
fn concat(a: Vec<Instruction>, b: Vec<Instruction>) -> (r: Vec<Instruction>)
    ensures
        r@ == a@ + b@,
{
    let mut a = a;
    let mut b = b;
    a.append(&mut b);
    a
}

impl TasmBackend {
    /// A backend for rows at addresses known when the code is assembled.
    pub fn statically_known_input_locations() -> (r: Self)
        ensures
            r.scope@ == Set::<usize>::empty(),
            r.elements_written == 0,
            r.input_location_is_static,
    {
        Self { scope: HashSet::new(), elements_written: 0, input_location_is_static: true }
    }

    /// A backend for rows whose addresses arrive on the stack.
    pub fn dynamically_known_input_locations() -> (r: Self)
        ensures
            r.scope@ == Set::<usize>::empty(),
            r.elements_written == 0,
            !r.input_location_is_static,
    {
        let statically_known = Self::statically_known_input_locations();
        Self {
            scope: statically_known.scope,
            elements_written: statically_known.elements_written,
            input_location_is_static: false,
        }
    }

    /// The documentation that goes with the program for rows at addresses
    /// known when the code is assembled.
    pub fn doc_comment_static_version() -> (r: &'static str)
        ensures
            r@ == STATIC_DOC_COMMENT@,
    {
        STATIC_DOC_COMMENT
    }

    /// The documentation that goes with the program for rows whose addresses
    /// arrive on the stack.
    pub fn doc_comment_dynamic_version() -> (r: &'static str)
        ensures
            r@ == DYNAMIC_DOC_COMMENT@,
    {
        DYNAMIC_DOC_COMMENT
    }

    /// Decides whether the word index of the element can be computed.
    pub fn check_word_index_fits(element_index: usize) -> (r: bool)
        ensures
            r == word_index_fits(element_index),
    {
        element_index <= (usize::MAX - 2) / 3
    }

    /// Decides whether the element can be read, by way of a pushed address
    /// or not.
    pub fn check_can_be_read(element_index: usize, pushed: bool) -> (r: bool)
        ensures
            r == can_be_read(element_index, pushed),
    {
        if !Self::check_word_index_fits(element_index) {
            return false;
        }
        !pushed || Self::element_index_to_word_index_for_reading(element_index) < OFFSET_LIMIT
    }

    /// Decides whether the batch can be compiled for the given way of
    /// finding the rows.
    pub fn can_compile(circuits: &Multicircuit, is_static: bool) -> (r: bool)
        requires
            circuits.wf(),
        ensures
            r == compilable(circuits, is_static),
    {
        let len = circuits.expressions.len();
        if len > OUT_ARRAY_OFFSET {
            return false;
        }
        if circuits.roots.len() > usize::MAX - len || circuits.roots.len() + len > usize::MAX - len {
            return false;
        }
        let mut n: usize = 0;
        while n < len
            invariant
                n <= len,
                len == circuits.expressions@.len(),
                forall|k: int|
                    0 <= k < n ==> readable(#[trigger] circuits.expressions@[k], is_static),
            decreases len - n,
        {
            let ok = match circuits.expressions[n] {
                CircuitExpression::Input(input) => Self::check_can_be_read(input.column, is_static),
                CircuitExpression::Challenge(index) => Self::check_can_be_read(index, true),
                _ => true,
            };
            if !ok {
                assert(!readable(circuits.expressions@[n as int], is_static));
                return false;
            }
            n = n + 1;
        }
        true
    }

    /// Decides whether all constraints can be compiled for the given way of
    /// finding the rows.
    pub fn can_compile_all_for(constraints: &Constraints, is_static: bool) -> (r: bool)
        requires
            constraints.wf(),
        ensures
            r == all_compilable_for(constraints, is_static),
    {
        if !(Self::can_compile(&constraints.init, is_static) && Self::can_compile(
            &constraints.cons,
            is_static,
        ) && Self::can_compile(&constraints.tran, is_static) && Self::can_compile(
            &constraints.term,
            is_static,
        )) {
            return false;
        }
        let n_init = constraints.init.roots.len();
        let n_cons = constraints.cons.roots.len();
        let n_tran = constraints.tran.roots.len();
        let n_term = constraints.term.roots.len();
        n_init <= MAX_NUM_CONSTRAINTS && n_cons <= MAX_NUM_CONSTRAINTS - n_init && n_tran
            <= MAX_NUM_CONSTRAINTS - n_init - n_cons && n_term <= MAX_NUM_CONSTRAINTS - n_init
            - n_cons - n_tran
    }

    /// Decides whether both programs can be made for the constraints.
    pub fn can_compile_all(constraints: &Constraints) -> (r: bool)
        requires
            constraints.wf(),
        ensures
            r == all_compilable(constraints),
    {
        Self::can_compile_all_for(constraints, true)
    }

    /// The code for all four buckets followed by the code that returns the
    /// output array.
    fn all_buckets(&mut self, constraints: &Constraints) -> (r: Vec<Instruction>)
        requires
            all_compilable_for(constraints, old(self).input_location_is_static),
            old(self).elements_written == 0,
        ensures
            r@ == all_buckets_code(constraints, old(self).input_location_is_static),
    {
        let init_constraints = self.tokenize_circuits(&constraints.init);
        let cons_constraints = self.tokenize_circuits(&constraints.cons);
        let tran_constraints = self.tokenize_circuits(&constraints.tran);
        let term_constraints = self.tokenize_circuits(&constraints.term);
        let prepare_return_values = Self::prepare_return_values();
        concat(
            concat(
                concat(concat(init_constraints, cons_constraints), tran_constraints),
                term_constraints,
            ),
            prepare_return_values,
        )
    }

    /// The program for rows at the addresses that `layout` gives, if the
    /// layout is integral and the constraints fit the free page. A layout
    /// whose regions overlap is refused before any code is made.
    pub fn static_air_constraint_evaluation_tasm(
        constraints: &Constraints,
        layout: StaticTasmConstraintEvaluationMemoryLayout,
        sizes: RegionSizes,
    ) -> (r: Option<Vec<Instruction>>)
        requires
            constraints.wf(),
        ensures
            r.is_some() == (layout.spec_is_integral(sizes) && all_compilable_for(
                constraints,
                true,
            )),
            r.is_some() ==> r.unwrap()@ == static_program(constraints),
    {
        if !layout.is_integral(sizes) {
            return None;
        }
        if !Self::can_compile_all_for(constraints, true) {
            return None;
        }
        let mut backend = Self::statically_known_input_locations();
        Some(backend.all_buckets(constraints))
    }

    /// The program for rows whose addresses arrive on the stack, if the
    /// layout is integral and the constraints fit the free page. A layout
    /// whose regions overlap is refused before any code is made.
    pub fn dynamic_air_constraint_evaluation_tasm(
        constraints: &Constraints,
        layout: DynamicTasmConstraintEvaluationMemoryLayout,
        sizes: RegionSizes,
    ) -> (r: Option<Vec<Instruction>>)
        requires
            constraints.wf(),
        ensures
            r.is_some() == (layout.spec_is_integral(sizes) && all_compilable_for(
                constraints,
                false,
            )),
            r.is_some() ==> r.unwrap()@ == dynamic_program(constraints),
    {
        if !layout.is_integral(sizes) {
            return None;
        }
        if !Self::can_compile_all_for(constraints, false) {
            return None;
        }
        let mut backend = Self::dynamically_known_input_locations();
        let move_row_pointers = backend.write_row_pointers_to_ram();
        let buckets = backend.all_buckets(constraints);
        Some(concat(move_row_pointers, buckets))
    }

    /// Both programs that evaluate all constraints: one for rows at addresses
    /// known when the code is assembled, one for rows whose addresses arrive
    /// on the stack. Each comes as instructions and as the words that a
    /// generated function holds, led by their number.
    pub fn constraint_evaluation_code(constraints: &Constraints) -> (r: TasmCode)
        requires
            all_compilable(constraints),
        ensures
            is_tasm_code(constraints, r),
            straight_line(r.static_instructions@),
            straight_line(r.dynamic_instructions@),
    {
        let mut backend = Self::statically_known_input_locations();
        let static_instructions = backend.all_buckets(constraints);
        let static_words = Self::raw_instructions(&static_instructions);

        let mut backend = Self::dynamically_known_input_locations();
        let move_row_pointers = backend.write_row_pointers_to_ram();
        proof {
            lemma_all_compilable(constraints);
        }
        let buckets = backend.all_buckets(constraints);
        let dynamic_instructions = concat(move_row_pointers, buckets);
        let dynamic_words = Self::raw_instructions(&dynamic_instructions);

        proof {
            lemma_programs_are_straight_line(constraints);
        }
        TasmCode { static_instructions, static_words, dynamic_instructions, dynamic_words }
    }

    /// The words of a program, led by their number.
    fn raw_instructions(code: &Vec<Instruction>) -> (r: Vec<Word>)
        ensures
            r@ == with_length_prefix(assembled(code@)),
    {
        let mut words = assemble(code);
        let num_instructions = words.len() as u64;
        let mut r = vec![Word::Literal(num_instructions)];
        r.append(&mut words);
        r
    }

    /// The word that a read of element `element_index` starts from, as a
    /// field element.
    pub fn element_index_to_word_index_for_reading(element_index: usize) -> (r: u64)
        requires
            word_index_fits(element_index),
        ensures
            r == read_word_index(element_index),
    {
        assert(element_index * EXTENSION_DEGREE + (EXTENSION_DEGREE - 1) == element_index * 3 + 2)
            by (nonlinear_arith)
            requires
                EXTENSION_DEGREE == 3,
        ;
        let word_offset = element_index * EXTENSION_DEGREE;
        let start_to_read_offset = EXTENSION_DEGREE - 1;
        let word_index = word_offset + start_to_read_offset;
        bfe_canonical(word_index as u64)
    }

    /// Code that loads one element of a region whose start is known when the
    /// code is assembled.
    pub fn load_ext_field_element_from_list(list: IOList, element_index: usize) -> (r: Vec<
        Instruction,
    >)
        requires
            can_be_pushed(element_index),
        ensures
            r@ == load_from_list(list, element_index),
    {
        let word_index = Self::element_index_to_word_index_for_reading(element_index);
        let r = vec![
            Instruction::Push(Operand::Address(list, word_index)),
            Instruction::ReadMem(NumberOfWords::N3),
            Instruction::Pop(NumberOfWords::N1),
        ];
        assert(r@ =~= load_from_list(list, element_index));
        r
    }

    /// Code that loads one element of a region whose start is itself read
    /// from memory.
    pub fn load_ext_field_element_from_pointed_to_list(list: IOList, element_index: usize) -> (r:
        Vec<Instruction>)
        requires
            word_index_fits(element_index),
        ensures
            r@ == load_from_pointed_to_list(list, element_index),
    {
        let word_index = Self::element_index_to_word_index_for_reading(element_index);
        let r = vec![
            Instruction::Push(Operand::Address(list, 0)),
            Instruction::ReadMem(NumberOfWords::N1),
            Instruction::Pop(NumberOfWords::N1),
            Instruction::AddI(word_index),
            Instruction::ReadMem(NumberOfWords::N3),
            Instruction::Pop(NumberOfWords::N1),
        ];
        assert(r@ =~= load_from_pointed_to_list(list, element_index));
        r
    }

    /// Code that stores the element on top of the stack in slot
    /// `element_index` of the free page.
    pub fn store_ext_field_element(element_index: usize) -> (r: Vec<Instruction>)
        requires
            element_index < OUT_ARRAY_OFFSET + MAX_NUM_CONSTRAINTS,
        ensures
            r@ == store_element(element_index),
    {
        assert(element_index * EXTENSION_DEGREE == element_index * 3) by (nonlinear_arith)
            requires
                EXTENSION_DEGREE == 3,
        ;
        let word_offset = element_index as u64 * EXTENSION_DEGREE as u64;
        let r = vec![
            Instruction::Push(Operand::Address(IOList::FreeMemPage, word_offset)),
            Instruction::WriteMem(NumberOfWords::N3),
            Instruction::Pop(NumberOfWords::N1),
        ];
        assert(r@ =~= store_element(element_index));
        r
    }

    /// Code that pushes a constant, highest coefficient first.
    pub fn load_ext_field_constant(xfe: ExtensionElement) -> (r: Vec<Instruction>)
        ensures
            r@ == load_constant(xfe),
    {
        let r = vec![
            Instruction::Push(Operand::Constant(xfe.c2)),
            Instruction::Push(Operand::Constant(xfe.c1)),
            Instruction::Push(Operand::Constant(xfe.c0)),
        ];
        assert(r@ =~= load_constant(xfe));
        r
    }

    /// Code that loads an input from the row and table that it names.
    pub fn load_input(&self, input: InputIndicator) -> (r: Vec<Instruction>)
        requires
            can_be_read(input.column, self.input_location_is_static),
        ensures
            r@ == load_input_code(input, self.input_location_is_static),
    {
        let list = match (input.is_current_row(), input.is_main_table_column()) {
            (true, true) => IOList::CurrBaseRow,
            (true, false) => IOList::CurrExtRow,
            (false, true) => IOList::NextBaseRow,
            (false, false) => IOList::NextExtRow,
        };
        if self.input_location_is_static {
            Self::load_ext_field_element_from_list(list, input.column)
        } else {
            Self::load_ext_field_element_from_pointed_to_list(list, input.column)
        }
    }

    /// Code that loads a challenge.
    pub fn load_challenge(challenge_idx: usize) -> (r: Vec<Instruction>)
        requires
            can_be_pushed(challenge_idx),
        ensures
            r@ == load_from_list(IOList::Challenges, challenge_idx),
    {
        Self::load_ext_field_element_from_list(IOList::Challenges, challenge_idx)
    }

    /// Code that loads the stored result of an operation from its slot.
    pub fn load_evaluated_bin_op(node_id: usize) -> (r: Vec<Instruction>)
        requires
            can_be_pushed(node_id),
        ensures
            r@ == load_from_list(IOList::FreeMemPage, node_id),
    {
        Self::load_ext_field_element_from_list(IOList::FreeMemPage, node_id)
    }

    /// Code that loads the value of node `n` without computing anything.
    pub fn load_node(&self, circuits: &Multicircuit, n: usize) -> (r: Vec<Instruction>)
        requires
            compilable(circuits, self.input_location_is_static),
            n < circuits.expressions@.len(),
        ensures
            r@ == load_node_code(circuits.expressions@[n as int], n, self.input_location_is_static),
    {
        assert(readable(circuits.expressions@[n as int], self.input_location_is_static));
        match circuits.expressions[n] {
            CircuitExpression::BConstant(bfe) => Self::load_ext_field_constant(lift(bfe)),
            CircuitExpression::XConstant(xfe) => Self::load_ext_field_constant(xfe),
            CircuitExpression::Input(input) => self.load_input(input),
            CircuitExpression::Challenge(challenge_idx) => Self::load_challenge(challenge_idx),
            CircuitExpression::BinaryOperation(_, _, _) => Self::load_evaluated_bin_op(n),
        }
    }

    /// Code that leaves the value of node `n` on the stack: a load if the
    /// node is in scope or a leaf, else the code for both operands followed
    /// by the operation.
    pub fn evaluate_single_node(&self, circuits: &Multicircuit, n: usize) -> (r: Vec<Instruction>)
        requires
            compilable(circuits, self.input_location_is_static),
            n < circuits.expressions@.len(),
        ensures
            r@ == evaluation_code(
                circuits.expressions@,
                self.scope@,
                n,
                self.input_location_is_static,
            ),
        decreases n,
    {
        if self.scope.contains(&n) {
            return self.load_node(circuits, n);
        }
        assert(circuits.expressions@[n as int].fits_at(n as int));
        match circuits.expressions[n] {
            CircuitExpression::BinaryOperation(op, lhs, rhs) => {
                let lhs = self.evaluate_single_node(circuits, lhs);
                let rhs = self.evaluate_single_node(circuits, rhs);
                let binop = match op {
                    BinOp::Add => vec![Instruction::XxAdd],
                    BinOp::Mul => vec![Instruction::XxMul],
                };
                assert(binop@ =~= seq![operation(op)]);
                concat(concat(lhs, rhs), binop)
            },
            _ => self.load_node(circuits, n),
        }
    }

    /// Code that stores the shared operations at and below node `n` that
    /// are not in scope yet, each after those below it, and takes them into
    /// scope. An operation is computed from its operands and stored once
    /// everything shared below it is in scope, so its code loads what is
    /// shared and computes nothing twice.
    pub fn store_shared_nodes_below(
        &mut self,
        circuits: &Multicircuit,
        counts: &Vec<usize>,
        n: usize,
    ) -> (r: Vec<Instruction>)
        requires
            compilable(circuits, old(self).input_location_is_static),
            counts@.len() == circuits.expressions@.len(),
            n < circuits.expressions@.len(),
        ensures
            final(self).elements_written == old(self).elements_written,
            final(self).input_location_is_static == old(self).input_location_is_static,
            final(self).scope@ == old(self).scope@.union(
                stored_below(circuits.expressions@, counts@, old(self).scope@, n).to_set(),
            ),
            r@ == storing_code(
                circuits.expressions@,
                old(self).scope@,
                stored_below(circuits.expressions@, counts@, old(self).scope@, n),
                old(self).input_location_is_static,
            ),
        decreases n,
    {
        let ghost exprs = circuits.expressions@;
        let ghost kept = self.scope@;
        let ghost is_static = self.input_location_is_static;
        if self.scope.contains(&n) {
            assert(kept.union(Seq::<usize>::empty().to_set()) =~= kept);
            return vec![];
        }
        assert(exprs[n as int].fits_at(n as int));
        match circuits.expressions[n] {
            CircuitExpression::BinaryOperation(_, lhs, rhs) => {
                let out_left = self.store_shared_nodes_below(circuits, counts, lhs);
                let out_right = self.store_shared_nodes_below(circuits, counts, rhs);
                let ghost left = stored_below(exprs, counts@, kept, lhs);
                let ghost right = stored_below(exprs, counts@, kept.union(left.to_set()), rhs);
                let ghost below = kept.union((left + right).to_set());
                proof {
                    lemma_storing_code_concat(exprs, kept, left, right, is_static);
                    lemma_to_set_concat(left, right);
                    assert(kept.union(left.to_set()).union(right.to_set()) =~= below);
                }
                let out_below = concat(out_left, out_right);
                if counts[n] < 2 {
                    return out_below;
                }
                proof {
                    lemma_stored_below(exprs, counts@, kept, lhs);
                    lemma_stored_below(exprs, counts@, kept.union(left.to_set()), rhs);
                    if left.contains(n) {
                        let i = choose|i: int| 0 <= i < left.len() && left[i] == n;
                        assert(left[i] <= lhs);
                    }
                    if right.contains(n) {
                        let i = choose|i: int| 0 <= i < right.len() && right[i] == n;
                        assert(right[i] <= rhs);
                    }
                    assert(!below.contains(n));
                }
                let evaluate = self.evaluate_single_node(circuits, n);
                let store = Self::store_ext_field_element(n);
                let is_new_insertion = self.scope.insert(n);
                proof {
                    let picked = seq![n];
                    assert(picked.drop_first() =~= Seq::<usize>::empty());
                    assert(picked.to_set() =~= Set::<usize>::empty().insert(n)) by {
                        assert(picked[0] == n);
                        assert forall|x: usize| picked.to_set().contains(x) <==> x == n by {
                            if x == n {
                                assert(picked.contains(picked[0]));
                            }
                        }
                    }
                    assert(storing_code(exprs, below.insert(n), picked.drop_first(), is_static)
                        =~= Seq::<Instruction>::empty());
                    assert(storing_code(exprs, below, picked, is_static) =~= evaluate@ + store@);
                    lemma_storing_code_concat(exprs, kept, left + right, picked, is_static);
                    lemma_to_set_concat(left + right, picked);
                    assert(self.scope@ =~= kept.union((left + right + picked).to_set()));
                }
                assert(is_new_insertion);
                concat(out_below, concat(evaluate, store))
            },
            _ => {
                assert(kept.union(Seq::<usize>::empty().to_set()) =~= kept);
                vec![]
            },
        }
    }

    /// Code that stores the shared nodes met on a walk from node `n` in the
    /// pass for `ref_count`, and takes them into scope. The walk passes
    /// through operations that are referred to less often than `ref_count`;
    /// where it comes to an operation that is referred to `ref_count` times,
    /// it stores what is shared below the operation, then the operation.
    /// That it comes to no operation referred to more often is asked of the
    /// caller: it is so when the passes are made in descending order.
    pub fn store_single_shared_node_of_ref_count(
        &mut self,
        circuits: &Multicircuit,
        counts: &Vec<usize>,
        n: usize,
        ref_count: usize,
    ) -> (r: Vec<Instruction>)
        requires
            compilable(circuits, old(self).input_location_is_static),
            counts@.len() == circuits.expressions@.len(),
            n < circuits.expressions@.len(),
            stays_low(circuits.expressions@, counts@, old(self).scope@, n, ref_count),
        ensures
            final(self).elements_written == old(self).elements_written,
            final(self).input_location_is_static == old(self).input_location_is_static,
            final(self).scope@ == old(self).scope@.union(
                picked_below(circuits.expressions@, counts@, old(self).scope@, n, ref_count).to_set(),
            ),
            r@ == storing_code(
                circuits.expressions@,
                old(self).scope@,
                picked_below(circuits.expressions@, counts@, old(self).scope@, n, ref_count),
                old(self).input_location_is_static,
            ),
        decreases n,
    {
        let ghost exprs = circuits.expressions@;
        let ghost kept = self.scope@;
        let ghost is_static = self.input_location_is_static;
        if self.scope.contains(&n) {
            assert(kept.union(Seq::<usize>::empty().to_set()) =~= kept);
            return vec![];
        }
        assert(exprs[n as int].fits_at(n as int));
        match circuits.expressions[n] {
            CircuitExpression::BinaryOperation(_, lhs, rhs) => {
                if counts[n] < ref_count {
                    let ghost left = picked_below(exprs, counts@, kept, lhs, ref_count);
                    proof {
                        lemma_stays_low_at_operand(
                            exprs,
                            counts@,
                            kept,
                            Set::<usize>::empty(),
                            n,
                            lhs,
                            ref_count,
                        );
                        assert(kept.union(Set::<usize>::empty()) =~= kept);
                        lemma_stays_low_at_operand(
                            exprs,
                            counts@,
                            kept,
                            left.to_set(),
                            n,
                            rhs,
                            ref_count,
                        );
                    }
                    let out_left = self.store_single_shared_node_of_ref_count(
                        circuits,
                        counts,
                        lhs,
                        ref_count,
                    );
                    let out_right = self.store_single_shared_node_of_ref_count(
                        circuits,
                        counts,
                        rhs,
                        ref_count,
                    );
                    proof {
                        let right = picked_below(
                            exprs,
                            counts@,
                            kept.union(left.to_set()),
                            rhs,
                            ref_count,
                        );
                        lemma_storing_code_concat(exprs, kept, left, right, is_static);
                        assert(kept.union(left.to_set()).union(right.to_set()) =~= kept.union(
                            (left + right).to_set(),
                        )) by {
                            lemma_to_set_concat(left, right);
                        }
                    }
                    return concat(out_left, out_right);
                }
                assert(counts@[n as int] == ref_count) by {
                    assert(reached(exprs, counts@, kept, n, n, ref_count));
                }
                self.store_shared_nodes_below(circuits, counts, n)
            },
            _ => {
                assert(kept.union(Seq::<usize>::empty().to_set()) =~= kept);
                vec![]
            },
        }
    }

    /// Code that stores the shared nodes met in the pass for `count`, on
    /// walks from every constraint in turn.
    pub fn store_all_shared_nodes_of_ref_count(
        &mut self,
        circuits: &Multicircuit,
        counts: &Vec<usize>,
        count: usize,
    ) -> (r: Vec<Instruction>)
        requires
            compilable(circuits, old(self).input_location_is_static),
            counts@.len() == circuits.expressions@.len(),
            pass_stays_low(
                circuits.expressions@,
                counts@,
                old(self).scope@,
                circuits.roots@,
                count,
            ),
        ensures
            final(self).elements_written == old(self).elements_written,
            final(self).input_location_is_static == old(self).input_location_is_static,
            final(self).scope@ == old(self).scope@.union(
                picked_for_count(
                    circuits.expressions@,
                    counts@,
                    old(self).scope@,
                    circuits.roots@,
                    count,
                ).to_set(),
            ),
            r@ == storing_code(
                circuits.expressions@,
                old(self).scope@,
                picked_for_count(
                    circuits.expressions@,
                    counts@,
                    old(self).scope@,
                    circuits.roots@,
                    count,
                ),
                old(self).input_location_is_static,
            ),
    {
        let ghost exprs = circuits.expressions@;
        let ghost roots = circuits.roots@;
        let ghost kept = self.scope@;
        let ghost is_static = self.input_location_is_static;
        let ghost mut done = Seq::<usize>::empty();
        let mut out: Vec<Instruction> = Vec::new();
        let mut i: usize = 0;
        proof {
            assert(roots.skip(0) =~= roots);
            assert(kept.union(done.to_set()) =~= kept);
            assert(done + picked_for_count(exprs, counts@, kept, roots, count)
                =~= picked_for_count(exprs, counts@, kept, roots, count));
        }
        while i < circuits.roots.len()
            invariant
                compilable(circuits, self.input_location_is_static),
                counts@.len() == circuits.expressions@.len(),
                exprs == circuits.expressions@,
                roots == circuits.roots@,
                i <= roots.len(),
                self.elements_written == old(self).elements_written,
                self.input_location_is_static == is_static,
                self.scope@ == kept.union(done.to_set()),
                pass_stays_low(exprs, counts@, self.scope@, roots, count),
                out@ == storing_code(exprs, kept, done, is_static),
                picked_for_count(exprs, counts@, kept, roots, count) == done + picked_for_count(
                    exprs,
                    counts@,
                    self.scope@,
                    roots.skip(i as int),
                    count,
                ),
            decreases roots.len() - i,
        {
            let ghost now = self.scope@;
            let root = circuits.roots[i];
            assert(stays_low(exprs, counts@, now, roots[i as int], count));
            let stored = self.store_single_shared_node_of_ref_count(circuits, counts, root, count);
            proof {
                let rest = roots.skip(i as int);
                let first = picked_below(exprs, counts@, now, root, count);
                lemma_pass_stays_low_with_more_kept(
                    exprs,
                    counts@,
                    now,
                    first.to_set(),
                    roots,
                    count,
                );
                assert(rest[0] == root);
                assert(rest.drop_first() =~= roots.skip(i + 1));
                lemma_storing_code_concat(exprs, kept, done, first, is_static);
                lemma_to_set_concat(done, first);
                assert(kept.union(done.to_set()).union(first.to_set()) =~= kept.union(
                    (done + first).to_set(),
                ));
                assert(done + (first + picked_for_count(
                    exprs,
                    counts@,
                    now.union(first.to_set()),
                    roots.skip(i + 1),
                    count,
                )) =~= (done + first) + picked_for_count(
                    exprs,
                    counts@,
                    now.union(first.to_set()),
                    roots.skip(i + 1),
                    count,
                ));
                done = done + first;
            }
            out = concat(out, stored);
            i = i + 1;
        }
        proof {
            assert(roots.skip(i as int) =~= Seq::<usize>::empty());
            assert(done + Seq::<usize>::empty() =~= done);
        }
        out
    }

    /// Code that stores all shared nodes: one pass for each reference count
    /// above 1, largest first. What is in scope already must have been
    /// taken into scope after everything shared below it; an empty scope
    /// has.
    pub fn store_all_shared_nodes(&mut self, circuits: &Multicircuit, counts: &Vec<usize>) -> (r:
        Vec<Instruction>)
        requires
            compilable(circuits, old(self).input_location_is_static),
            counts@.len() == circuits.expressions@.len(),
            closed(circuits.expressions@, counts@, old(self).scope@),
        ensures
            final(self).elements_written == old(self).elements_written,
            final(self).input_location_is_static == old(self).input_location_is_static,
            final(self).scope@ == old(self).scope@.union(
                picked_for_counts(
                    circuits.expressions@,
                    counts@,
                    old(self).scope@,
                    circuits.roots@,
                    relevant_counts_of(counts@),
                ).to_set(),
            ),
            r@ == storing_code(
                circuits.expressions@,
                old(self).scope@,
                picked_for_counts(
                    circuits.expressions@,
                    counts@,
                    old(self).scope@,
                    circuits.roots@,
                    relevant_counts_of(counts@),
                ),
                old(self).input_location_is_static,
            ),
    {
        let relevant_ref_counts = relevant_ref_counts(counts);
        let ghost exprs = circuits.expressions@;
        let ghost roots = circuits.roots@;
        let ghost kept = self.scope@;
        let ghost is_static = self.input_location_is_static;
        let ghost ks = relevant_ref_counts@;
        let ghost mut done = Seq::<usize>::empty();
        let mut out: Vec<Instruction> = Vec::new();
        let mut i: usize = 0;
        proof {
            assert(ks.skip(0) =~= ks);
            assert(kept.union(done.to_set()) =~= kept);
            assert(done + picked_for_counts(exprs, counts@, kept, roots, ks)
                =~= picked_for_counts(exprs, counts@, kept, roots, ks));
            lemma_before_the_passes(exprs, counts@, kept, roots, ks);
        }
        while i < relevant_ref_counts.len()
            invariant
                compilable(circuits, self.input_location_is_static),
                counts@.len() == circuits.expressions@.len(),
                exprs == circuits.expressions@,
                roots == circuits.roots@,
                ks == relevant_ref_counts@,
                i <= ks.len(),
                self.elements_written == old(self).elements_written,
                self.input_location_is_static == is_static,
                self.scope@ == kept.union(done.to_set()),
                strictly_descending(ks),
                forall|j: int| 0 <= j < ks.len() ==> ks[j] >= 2,
                closed(exprs, counts@, self.scope@),
                passes_remain(exprs, counts@, self.scope@, roots, ks.skip(i as int)),
                out@ == storing_code(exprs, kept, done, is_static),
                picked_for_counts(exprs, counts@, kept, roots, ks) == done + picked_for_counts(
                    exprs,
                    counts@,
                    self.scope@,
                    roots,
                    ks.skip(i as int),
                ),
            decreases ks.len() - i,
        {
            let ghost now = self.scope@;
            let count = relevant_ref_counts[i];
            proof {
                let rest = ks.skip(i as int);
                assert(rest[0] == count);
                lemma_descending_rest(ks, i as int);
                lemma_pass_stays_low(exprs, counts@, now, roots, rest);
            }
            let stored = self.store_all_shared_nodes_of_ref_count(circuits, counts, count);
            proof {
                let rest = ks.skip(i as int);
                let first = picked_for_count(exprs, counts@, now, roots, count);
                assert(rest[0] == count);
                assert(rest.drop_first() =~= ks.skip(i + 1));
                lemma_pass(exprs, counts@, now, roots, rest);
                lemma_storing_code_concat(exprs, kept, done, first, is_static);
                lemma_to_set_concat(done, first);
                assert(kept.union(done.to_set()).union(first.to_set()) =~= kept.union(
                    (done + first).to_set(),
                ));
                assert(done + (first + picked_for_counts(
                    exprs,
                    counts@,
                    now.union(first.to_set()),
                    roots,
                    ks.skip(i + 1),
                )) =~= (done + first) + picked_for_counts(
                    exprs,
                    counts@,
                    now.union(first.to_set()),
                    roots,
                    ks.skip(i + 1),
                ));
                done = done + first;
            }
            out = concat(out, stored);
            i = i + 1;
        }
        proof {
            assert(ks.skip(i as int) =~= Seq::<usize>::empty());
            assert(done + Seq::<usize>::empty() =~= done);
        }
        out
    }

    /// Code that evaluates node `n` and stores the result in the next free
    /// slot of the output array.
    pub fn write_evaluated_constraint_into_output_list(
        &mut self,
        circuits: &Multicircuit,
        n: usize,
    ) -> (r: Vec<Instruction>)
        requires
            compilable(circuits, old(self).input_location_is_static),
            n < circuits.expressions@.len(),
            old(self).elements_written < MAX_NUM_CONSTRAINTS,
        ensures
            final(self).elements_written == old(self).elements_written + 1,
            final(self).input_location_is_static == old(self).input_location_is_static,
            final(self).scope@ == old(self).scope@,
            r@ == evaluation_code(
                circuits.expressions@,
                old(self).scope@,
                n,
                old(self).input_location_is_static,
            ) + store_element((OUT_ARRAY_OFFSET + old(self).elements_written) as usize),
    {
        let evaluated_constraint = self.evaluate_single_node(circuits, n);
        let element_index = OUT_ARRAY_OFFSET + self.elements_written;
        let store_element = Self::store_ext_field_element(element_index);
        self.elements_written += 1;
        concat(evaluated_constraint, store_element)
    }

    /// The code for one bucket. Starts from an empty scope; the output slots
    /// continue where the bucket before left off.
    pub fn tokenize_circuits(&mut self, circuits: &Multicircuit) -> (r: Vec<Instruction>)
        requires
            compilable(circuits, old(self).input_location_is_static),
            old(self).elements_written + circuits.roots@.len() <= MAX_NUM_CONSTRAINTS,
        ensures
            final(self).elements_written == old(self).elements_written + circuits.roots@.len(),
            final(self).input_location_is_static == old(self).input_location_is_static,
            final(self).scope@ == shared_nodes(circuits.expressions@, circuits.roots@).to_set(),
            r@ == tokenized(
                circuits.expressions@,
                circuits.roots@,
                old(self).elements_written,
                old(self).input_location_is_static,
            ),
    {
        let ghost exprs = circuits.expressions@;
        let ghost roots = circuits.roots@;
        let ghost is_static = self.input_location_is_static;
        let ghost written = self.elements_written;
        self.scope = HashSet::new();
        let counts = reference_counts(circuits);
        let store_shared_nodes = self.store_all_shared_nodes(circuits, &counts);
        let ghost shared = shared_nodes(exprs, roots);
        assert(self.scope@ =~= shared.to_set());

        // base field constraints must come first
        let sorted_constraints = circuits.base_constraints_first();
        proof {
            crate::circuit::lemma_base_first(exprs, roots);
        }
        let ghost ordered = sorted_constraints@;
        let mut write_to_output: Vec<Instruction> = Vec::new();
        let mut i: usize = 0;
        while i < sorted_constraints.len()
            invariant
                compilable(circuits, self.input_location_is_static),
                exprs == circuits.expressions@,
                roots == circuits.roots@,
                ordered == sorted_constraints@,
                ordered.len() == roots.len(),
                forall|x: usize| ordered.contains(x) ==> roots.contains(x),
                i <= ordered.len(),
                written + roots.len() <= MAX_NUM_CONSTRAINTS,
                self.elements_written == written + i,
                self.input_location_is_static == is_static,
                self.scope@ == shared.to_set(),
                write_to_output@ == output_code(
                    exprs,
                    shared.to_set(),
                    ordered.take(i as int),
                    written,
                    is_static,
                ),
            decreases ordered.len() - i,
        {
            let c = sorted_constraints[i];
            proof {
                assert(ordered.contains(ordered[i as int]));
                let j = choose|j: int| 0 <= j < roots.len() && roots[j] == c;
                assert(roots[j] < exprs.len());
                assert(ordered.take(i + 1).drop_last() =~= ordered.take(i as int));
            }
            let code = self.write_evaluated_constraint_into_output_list(circuits, c);
            write_to_output = concat(write_to_output, code);
            proof {
                assert(write_to_output@ =~= output_code(
                    exprs,
                    shared.to_set(),
                    ordered.take(i + 1),
                    written,
                    is_static,
                ));
            }
            i = i + 1;
        }
        proof {
            assert(ordered.take(i as int) =~= ordered);
        }
        concat(store_shared_nodes, write_to_output)
    }

    /// Code that moves the word below the top of the stack to the word that
    /// `list_id` names.
    fn write_pointer_to_ram(list_id: IOList) -> (r: Vec<Instruction>)
        ensures
            r@ == store_pointer_code(list_id),
    {
        let r = vec![
            Instruction::Push(Operand::Address(list_id, 0)),
            Instruction::WriteMem(NumberOfWords::N1),
            Instruction::Pop(NumberOfWords::N1),
        ];
        assert(r@ =~= store_pointer_code(list_id));
        r
    }

    /// Code that moves the four row pointers from the stack to the first
    /// four words of the free page.
    pub fn write_row_pointers_to_ram(&self) -> (r: Vec<Instruction>)
        ensures
            r@ == row_pointer_code(),
    {
        let next_ext_row = Self::write_pointer_to_ram(IOList::NextExtRow);
        let next_base_row = Self::write_pointer_to_ram(IOList::NextBaseRow);
        let curr_ext_row = Self::write_pointer_to_ram(IOList::CurrExtRow);
        let curr_base_row = Self::write_pointer_to_ram(IOList::CurrBaseRow);
        concat(concat(concat(next_ext_row, next_base_row), curr_ext_row), curr_base_row)
    }

    /// Code that leaves the address of the output array on the stack.
    pub fn prepare_return_values() -> (r: Vec<Instruction>)
        ensures
            r@ == return_code(),
    {
        assert(OUT_ARRAY_OFFSET * EXTENSION_DEGREE == OUT_ARRAY_OFFSET * 3) by (nonlinear_arith)
            requires
                EXTENSION_DEGREE == 3,
        ;
        let out_array_offset_in_num_bfes = OUT_ARRAY_OFFSET as u64 * EXTENSION_DEGREE as u64;
        let r = vec![
            Instruction::Push(Operand::Address(IOList::FreeMemPage, out_array_offset_in_num_bfes)),
        ];
        assert(r@ =~= return_code());
        r
    }
}

} // verus!
