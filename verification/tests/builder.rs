use constraint_evaluation_generator::builder::CircuitBuilder;
use constraint_evaluation_generator::circuit::BinOp;
use constraint_evaluation_generator::circuit::CircuitExpression;
use constraint_evaluation_generator::circuit::InputIndicator;
use constraint_evaluation_generator::circuit::Row;
use constraint_evaluation_generator::circuit::Table;
use constraint_evaluation_generator::field::ExtensionElement;
use constraint_evaluation_generator::field::P;

fn main_input(column: usize) -> InputIndicator {
    InputIndicator { row: Row::Current, table: Table::Main, column }
}

fn aux_input(column: usize) -> InputIndicator {
    InputIndicator { row: Row::Current, table: Table::Aux, column }
}

fn x_constant(c0: u64, c1: u64, c2: u64) -> CircuitExpression {
    CircuitExpression::XConstant(ExtensionElement { c0, c1, c2 })
}

#[test]
fn identical_expressions_are_unified() {
    let mut builder = CircuitBuilder::single_row();
    let a = builder.input(main_input(0));
    let b = builder.input(main_input(1));
    let first = builder.add(a, b);
    let second = builder.add(a, b);
    assert_eq!(first, second);
    assert_eq!(builder.num_nodes(), 3);
    assert_eq!(builder.expression(first), CircuitExpression::BinaryOperation(BinOp::Add, a, b));

    // the operands' order and the operator are part of the expression
    let swapped = builder.add(b, a);
    let product = builder.mul(a, b);
    assert_ne!(first, swapped);
    assert_ne!(first, product);
    assert_eq!(builder.num_nodes(), 5);
}

#[test]
fn leaves_are_unified() {
    let mut builder = CircuitBuilder::dual_row();
    let a = builder.input(main_input(3));
    let b = builder.input(InputIndicator { row: Row::Next, table: Table::Main, column: 3 });
    let c = builder.challenge(3);
    assert_eq!(builder.input(main_input(3)), a);
    assert_eq!(builder.challenge(3), c);
    assert_ne!(a, b);
    assert_eq!(builder.num_nodes(), 3);
}

#[test]
fn constants_are_canonical() {
    let mut builder = CircuitBuilder::single_row();
    let zero = builder.b_constant(0);
    let also_zero = builder.b_constant(P);
    assert_eq!(zero, also_zero);
    let large = builder.b_constant(u64::MAX);
    assert_eq!(builder.expression(large), CircuitExpression::BConstant(4294967294));
    let x = builder.x_constant(P + 1, P - 1, u64::MAX);
    assert_eq!(builder.expression(x), x_constant(1, P - 1, 4294967294));
    // a constant of the extension field is not a constant of the base field
    let x_zero = builder.x_constant(0, 0, 0);
    assert_ne!(zero, x_zero);
}

#[test]
fn base_field_constants_are_folded() {
    let mut builder = CircuitBuilder::single_row();
    let minus_one = builder.b_constant(P - 1);
    let two = builder.b_constant(2);
    let sum = builder.add(minus_one, two);
    assert_eq!(builder.expression(sum), CircuitExpression::BConstant(1));
    let product = builder.mul(minus_one, minus_one);
    assert_eq!(builder.expression(product), CircuitExpression::BConstant(1));
    assert_eq!(product, sum);
    let two_to_the_32 = builder.b_constant(1 << 32);
    let two_to_the_64 = builder.mul(two_to_the_32, two_to_the_32);
    assert_eq!(builder.expression(two_to_the_64), CircuitExpression::BConstant((1 << 32) - 1));
    let product = builder.mul(two, minus_one);
    assert_eq!(builder.expression(product), CircuitExpression::BConstant(P - 2));
    assert_eq!(builder.degree(product), 0);
    assert!(builder.evaluates_to_base_element(product));
}

#[test]
fn extension_field_constants_are_folded() {
    let mut builder = CircuitBuilder::single_row();
    let x = builder.x_constant(0, 1, 0);
    let x_squared = builder.mul(x, x);
    assert_eq!(builder.expression(x_squared), x_constant(0, 0, 1));
    // x^3 = x - 1
    let x_cubed = builder.mul(x_squared, x);
    assert_eq!(builder.expression(x_cubed), x_constant(P - 1, 1, 0));
    // x^4 = x^2 - x
    let x_to_the_4th = builder.mul(x_squared, x_squared);
    assert_eq!(builder.expression(x_to_the_4th), x_constant(0, P - 1, 1));

    let a = builder.x_constant(P - 1, 5, 7);
    let b = builder.x_constant(1, P - 5, 1);
    let sum = builder.add(a, b);
    assert_eq!(builder.expression(sum), x_constant(0, 0, 8));

    // (13 + 2x + 3x^2)(19 + 5x^2) = 247 + 38x + 122x^2 + 10x^3 + 15x^4
    //                             = 237 + 33x + 137x^2
    let a = builder.x_constant(13, 2, 3);
    let b = builder.x_constant(19, 0, 5);
    let product = builder.mul(a, b);
    assert_eq!(builder.expression(product), x_constant(237, 33, 137));
    assert!(!builder.evaluates_to_base_element(product));
    assert_eq!(builder.degree(product), 0);
}

#[test]
fn mixed_constants_are_folded_in_the_extension_field() {
    let mut builder = CircuitBuilder::single_row();
    let three = builder.b_constant(3);
    let x = builder.x_constant(1, 2, 3);
    let product = builder.mul(three, x);
    assert_eq!(builder.expression(product), x_constant(3, 6, 9));
    let sum = builder.add(x, three);
    assert_eq!(builder.expression(sum), x_constant(4, 2, 3));
}

#[test]
fn only_constants_are_folded() {
    let mut builder = CircuitBuilder::single_row();
    let a = builder.input(main_input(0));
    let zero = builder.b_constant(0);
    let one = builder.b_constant(1);
    let sum = builder.add(a, zero);
    assert_eq!(builder.expression(sum), CircuitExpression::BinaryOperation(BinOp::Add, a, zero));
    let product = builder.mul(one, a);
    assert_eq!(builder.expression(product), CircuitExpression::BinaryOperation(BinOp::Mul, one, a));
}

#[test]
fn degrees_add_up_in_products_and_take_the_maximum_in_sums() {
    let mut builder = CircuitBuilder::single_row();
    let a = builder.input(main_input(0));
    let b = builder.input(aux_input(1));
    let c = builder.challenge(0);
    let k = builder.b_constant(7);
    assert_eq!(builder.degree(a), 1);
    assert_eq!(builder.degree(c), 1);
    assert_eq!(builder.degree(k), 0);
    let ab = builder.mul(a, b);
    assert_eq!(builder.degree(ab), 2);
    let abc = builder.mul(ab, c);
    assert_eq!(builder.degree(abc), 3);
    let sum = builder.add(abc, a);
    assert_eq!(builder.degree(sum), 3);
    let scaled = builder.mul(k, sum);
    assert_eq!(builder.degree(scaled), 3);
    let square = builder.mul(sum, sum);
    assert_eq!(builder.degree(square), 6);
}

#[test]
fn the_field_of_a_node_follows_from_its_leaves() {
    let mut builder = CircuitBuilder::single_row();
    let main = builder.input(main_input(0));
    let aux = builder.input(aux_input(0));
    let challenge = builder.challenge(0);
    let b = builder.b_constant(2);
    assert!(builder.evaluates_to_base_element(main));
    assert!(!builder.evaluates_to_base_element(aux));
    assert!(!builder.evaluates_to_base_element(challenge));
    let base = builder.mul(main, b);
    assert!(builder.evaluates_to_base_element(base));
    let mixed = builder.add(base, aux);
    assert!(!builder.evaluates_to_base_element(mixed));
    let with_challenge = builder.mul(main, challenge);
    assert!(!builder.evaluates_to_base_element(with_challenge));
}

#[test]
fn subtraction_adds_the_negated_operand() {
    let mut builder = CircuitBuilder::single_row();
    let a = builder.input(main_input(0));
    let b = builder.input(main_input(1));
    let difference = builder.sub(a, b);
    let CircuitExpression::BinaryOperation(BinOp::Add, lhs, negated) =
        builder.expression(difference)
    else {
        panic!("a difference is a sum");
    };
    assert_eq!(lhs, a);
    let CircuitExpression::BinaryOperation(BinOp::Mul, minus_one, rhs) =
        builder.expression(negated)
    else {
        panic!("a negation is a product");
    };
    assert_eq!(rhs, b);
    assert_eq!(builder.expression(minus_one), CircuitExpression::BConstant(P - 1));
    assert_eq!(builder.neg(b), negated);

    // the difference of two constants is a constant
    let five = builder.b_constant(5);
    let seven = builder.b_constant(7);
    let minus_two = builder.sub(five, seven);
    assert_eq!(builder.expression(minus_two), CircuitExpression::BConstant(P - 2));
}

#[test]
fn products_whose_degree_leaves_the_machine_word_cannot_be_made() {
    let mut builder = CircuitBuilder::single_row();
    let mut node = builder.input(main_input(0));
    for _ in 0..63 {
        assert!(builder.check_can_combine(BinOp::Mul, node, node));
        node = builder.mul(node, node);
    }
    assert_eq!(builder.degree(node), 1 << 63);
    assert!(!builder.check_can_combine(BinOp::Mul, node, node));
    assert!(builder.check_can_combine(BinOp::Add, node, node));
    assert!(!builder.check_can_combine(BinOp::Add, node, builder.num_nodes()));
}

#[test]
fn a_builder_hands_its_graph_over() {
    let mut builder = CircuitBuilder::dual_row();
    let a = builder.input(InputIndicator { row: Row::Next, table: Table::Aux, column: 2 });
    let b = builder.challenge(1);
    let c = builder.mul(a, b);
    let circuits = builder.into_multicircuit(vec![c, a, c]);
    assert_eq!(circuits.num_nodes(), 3);
    assert_eq!(circuits.num_constraints(), 3);
    assert_eq!(circuits.root(0), c);
    assert_eq!(circuits.root(1), a);
    assert_eq!(circuits.expression(c), CircuitExpression::BinaryOperation(BinOp::Mul, a, b));
    assert_eq!(circuits.degree(c), 2);
    assert_eq!(circuits.multicircuit_degree(), 2);
    assert!(!circuits.evaluates_to_base_element(a));
    assert!(circuits.dual_row);
}
