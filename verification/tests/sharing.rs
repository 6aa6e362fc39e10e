use constraint_evaluation_generator::builder::CircuitBuilder;
use constraint_evaluation_generator::circuit::BinOp;
use constraint_evaluation_generator::circuit::CircuitExpression;
use constraint_evaluation_generator::field::ExtensionElement;
use constraint_evaluation_generator::field::P;
use constraint_evaluation_generator::circuit::InputIndicator;
use constraint_evaluation_generator::circuit::Multicircuit;
use constraint_evaluation_generator::circuit::Row;
use constraint_evaluation_generator::circuit::Table;
use constraint_evaluation_generator::sharing::reference_counts;
use constraint_evaluation_generator::sharing::relevant_ref_counts;
use constraint_evaluation_generator::sharing::shared_nodes_in_order;

fn main_input(column: usize) -> InputIndicator {
    InputIndicator { row: Row::Current, table: Table::Main, column }
}

/// The graph of `(a + b) * (a + b)` with the given number of constraints, all
/// of them that product. Returns the batch, the sum and the product.
fn square_of_a_sum(uses: usize) -> (Multicircuit, usize, usize) {
    let mut builder = CircuitBuilder::single_row();
    let a = builder.input(main_input(0));
    let b = builder.input(main_input(1));
    let sum = builder.add(a, b);
    let product = builder.mul(sum, sum);
    (builder.into_multicircuit(vec![product; uses]), sum, product)
}

#[test]
fn a_sum_used_twice_in_a_product_is_shared() {
    let (circuits, sum, product) = square_of_a_sum(1);
    assert_eq!(circuits.degree(product), 2);
    assert_eq!(circuits.degree(sum), 1);
    let counts = reference_counts(&circuits);
    assert_eq!(counts, vec![1, 1, 2, 1]);
    assert_eq!(relevant_ref_counts(&counts), vec![2]);
    assert_eq!(shared_nodes_in_order(&circuits), vec![sum]);
}

#[test]
fn a_sum_below_a_shared_product_is_shared_too_and_comes_first() {
    let (circuits, sum, product) = square_of_a_sum(2);
    let counts = reference_counts(&circuits);
    assert_eq!(counts, vec![1, 1, 2, 2]);
    assert_eq!(relevant_ref_counts(&counts), vec![2]);
    assert_eq!(shared_nodes_in_order(&circuits), vec![sum, product]);

    let (circuits, sum, product) = square_of_a_sum(3);
    let counts = reference_counts(&circuits);
    assert_eq!(counts, vec![1, 1, 2, 3]);
    assert_eq!(relevant_ref_counts(&counts), vec![3, 2]);
    assert_eq!(shared_nodes_in_order(&circuits), vec![sum, product]);
}

#[test]
fn every_operation_that_is_referred_to_twice_is_shared_once() {
    let mut builder = CircuitBuilder::single_row();
    let a = builder.input(main_input(0));
    let b = builder.input(main_input(1));
    let sum = builder.add(a, b);
    let square = builder.mul(sum, sum);
    let cube = builder.mul(square, sum);
    let unshared = builder.add(cube, a);
    let circuits = builder.into_multicircuit(vec![unshared, square, cube, cube]);
    let counts = reference_counts(&circuits);
    assert_eq!(counts[sum], 3);
    assert_eq!(counts[square], 2);
    assert_eq!(counts[cube], 3);
    assert_eq!(counts[unshared], 1);
    let shared = shared_nodes_in_order(&circuits);
    assert_eq!(shared, vec![sum, square, cube]);
    for node in 0..circuits.num_nodes() {
        let is_operation =
            matches!(circuits.expression(node), CircuitExpression::BinaryOperation(_, _, _));
        let occurrences = shared.iter().filter(|&&shared_node| shared_node == node).count();
        assert_eq!(occurrences, usize::from(is_operation && counts[node] >= 2));
    }
}

#[test]
fn nodes_that_no_constraint_reaches_count_nothing() {
    let mut builder = CircuitBuilder::single_row();
    let a = builder.input(main_input(0));
    let b = builder.input(main_input(1));
    let unused = builder.mul(a, a);
    let _ = builder.mul(unused, unused);
    let used = builder.add(a, b);
    let circuits = builder.into_multicircuit(vec![used]);
    assert_eq!(reference_counts(&circuits), vec![1, 1, 0, 0, 1]);
    assert!(shared_nodes_in_order(&circuits).is_empty());
}

#[test]
fn relevant_counts_are_distinct_and_descending() {
    assert_eq!(relevant_ref_counts(&vec![1, 3, 2, 3, 2, 0, 7, 1]), vec![7, 3, 2]);
    assert_eq!(relevant_ref_counts(&vec![2, 2, 2]), vec![2]);
    assert!(relevant_ref_counts(&vec![0, 1, 1]).is_empty());
    assert!(relevant_ref_counts(&vec![]).is_empty());
    assert_eq!(relevant_ref_counts(&vec![usize::MAX, 5]), vec![usize::MAX, 5]);
}

#[test]
fn nodes_that_are_referred_to_more_often_are_shared_first() {
    let mut builder = CircuitBuilder::single_row();
    let a = builder.input(main_input(0));
    let b = builder.input(main_input(1));
    let c = builder.input(main_input(2));
    let ab = builder.mul(a, b);
    let bc = builder.mul(b, c);
    let twice = builder.add(ab, bc);
    // `bc` is used three times, `ab` twice, `twice` twice
    let first = builder.mul(twice, bc);
    let second = builder.add(twice, ab);
    let third = builder.mul(bc, c);
    let circuits = builder.into_multicircuit(vec![first, second, third]);
    let counts = reference_counts(&circuits);
    assert_eq!(counts[ab], 2);
    assert_eq!(counts[bc], 3);
    assert_eq!(counts[twice], 2);
    assert_eq!(relevant_ref_counts(&counts), vec![3, 2]);
    // the pass for 3 keeps `bc`; the pass for 2 keeps `twice` after `ab` below it
    assert_eq!(shared_nodes_in_order(&circuits), vec![bc, ab, twice]);
}

#[test]
fn an_empty_batch_shares_nothing() {
    let circuits = Multicircuit::empty(false);
    assert!(reference_counts(&circuits).is_empty());
    assert!(shared_nodes_in_order(&circuits).is_empty());
}

#[test]
fn constraints_are_evaluated_base_field_first() {
    let mut builder = CircuitBuilder::single_row();
    let main = builder.input(main_input(0));
    let aux = builder.input(InputIndicator { row: Row::Current, table: Table::Aux, column: 0 });
    let challenge = builder.challenge(0);
    let e0 = builder.mul(aux, aux);
    let b0 = builder.mul(main, main);
    let e1 = builder.add(main, challenge);
    let b1 = builder.add(b0, main);
    let circuits = builder.into_multicircuit(vec![e0, b0, e1, b1, e0]);
    assert_eq!(circuits.partition_constraints(), (vec![b0, b1], vec![e0, e1, e0]));
    assert_eq!(circuits.base_constraints_first(), vec![b0, b1, e0, e1, e0]);
}

fn by_hand() -> Multicircuit {
    let a = CircuitExpression::Input(main_input(0));
    let b = CircuitExpression::Challenge(1);
    let product = CircuitExpression::BinaryOperation(BinOp::Mul, 0, 1);
    let sum = CircuitExpression::BinaryOperation(BinOp::Add, 2, 0);
    Multicircuit {
        expressions: vec![a, b, product, sum],
        degrees: vec![1, 1, 2, 2],
        base_flags: vec![true, false, false, false],
        roots: vec![3, 2],
        dual_row: false,
    }
}

#[test]
fn a_batch_put_together_by_hand_can_be_well_formed() {
    assert!(by_hand().is_well_formed());
    assert!(Multicircuit::empty(true).is_well_formed());
    let (built, _, _) = square_of_a_sum(2);
    assert!(built.is_well_formed());
}

#[test]
fn a_batch_with_operands_after_their_operation_is_malformed() {
    let mut circuits = by_hand();
    circuits.expressions[2] = CircuitExpression::BinaryOperation(BinOp::Mul, 0, 3);
    assert!(!circuits.is_well_formed());
    let mut circuits = by_hand();
    circuits.expressions[2] = CircuitExpression::BinaryOperation(BinOp::Mul, 2, 1);
    assert!(!circuits.is_well_formed());
}

#[test]
fn a_batch_with_wrong_caches_is_malformed() {
    let mut circuits = by_hand();
    circuits.degrees[3] = 3;
    assert!(!circuits.is_well_formed());
    let mut circuits = by_hand();
    circuits.base_flags[2] = true;
    assert!(!circuits.is_well_formed());
    let mut circuits = by_hand();
    circuits.degrees.pop();
    assert!(!circuits.is_well_formed());
}

#[test]
fn a_batch_with_a_constant_that_is_not_canonical_is_malformed() {
    let mut circuits = by_hand();
    circuits.expressions[1] = CircuitExpression::BConstant(P);
    circuits.degrees = vec![1, 0, 1, 1];
    circuits.base_flags = vec![true, true, true, true];
    assert!(!circuits.is_well_formed());
    circuits.expressions[1] = CircuitExpression::BConstant(P - 1);
    assert!(circuits.is_well_formed());
    circuits.expressions[1] =
        CircuitExpression::XConstant(ExtensionElement { c0: 0, c1: P, c2: 0 });
    circuits.base_flags = vec![true, false, false, false];
    assert!(!circuits.is_well_formed());
}

#[test]
fn a_batch_that_sees_a_row_it_must_not_see_is_malformed() {
    let mut circuits = by_hand();
    circuits.expressions[0] =
        CircuitExpression::Input(InputIndicator { row: Row::Next, table: Table::Main, column: 0 });
    assert!(!circuits.is_well_formed());
    circuits.dual_row = true;
    assert!(circuits.is_well_formed());
}

#[test]
fn a_batch_with_a_root_that_is_no_node_is_malformed() {
    let mut circuits = by_hand();
    circuits.roots.push(4);
    assert!(!circuits.is_well_formed());
}
