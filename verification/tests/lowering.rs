use constraint_evaluation_generator::builder::CircuitBuilder;
use constraint_evaluation_generator::circuit::BinOp;
use constraint_evaluation_generator::circuit::CircuitExpression;
use constraint_evaluation_generator::circuit::InputIndicator;
use constraint_evaluation_generator::circuit::Multicircuit;
use constraint_evaluation_generator::circuit::Row;
use constraint_evaluation_generator::circuit::Table;
use constraint_evaluation_generator::expression::Expr;
use constraint_evaluation_generator::field::P;
use constraint_evaluation_generator::lowering::DegreeLoweringInfo;

const TARGET_DEGREE: u64 = 4;

fn info() -> DegreeLoweringInfo {
    DegreeLoweringInfo { target_degree: TARGET_DEGREE, num_main_cols: 10, num_aux_cols: 20 }
}

fn main_input(column: usize) -> InputIndicator {
    InputIndicator { row: Row::Current, table: Table::Main, column }
}

/// The product of the main table columns 0 up to `degree`, as one constraint.
fn product_of_inputs(degree: usize, dual_row: bool) -> Multicircuit {
    let mut builder =
        if dual_row { CircuitBuilder::dual_row() } else { CircuitBuilder::single_row() };
    let mut product = builder.input(main_input(0));
    for column in 1..degree {
        let input = builder.input(main_input(column));
        product = builder.mul(product, input);
    }
    builder.into_multicircuit(vec![product])
}

fn mul(lhs: Expr, rhs: Expr) -> Expr {
    Expr::BinaryOperation(BinOp::Mul, Box::new(lhs), Box::new(rhs))
}

#[test]
fn a_degree_one_above_the_target_takes_one_substitution() {
    let mut circuits = product_of_inputs(5, false);
    let num_nodes = circuits.num_nodes();
    let root = circuits.root(0);
    assert_eq!(circuits.multicircuit_degree(), 5);
    assert_eq!(circuits.excess_degree(TARGET_DEGREE), Some(1));

    let (main, aux) = circuits.lower_to_degree(info());
    assert_eq!(main.len(), 1);
    assert_eq!(aux.len(), 0);
    assert_eq!(circuits.num_nodes(), num_nodes + 4);
    assert_eq!(circuits.num_constraints(), 1);
    assert_eq!(circuits.root(0), root);
    assert_eq!(circuits.multicircuit_degree(), 2);

    // one fresh column, one added constraint of the target degree
    let rule = &main[0];
    assert_eq!(rule.column, main_input(10));
    assert_eq!(rule.constraint, num_nodes + 3);
    assert_eq!(circuits.degree(rule.constraint), TARGET_DEGREE);
    let inputs: Vec<Expr> = (0..4).map(|column| Expr::Input(main_input(column))).collect();
    let [i0, i1, i2, i3] = <[Expr; 4]>::try_from(inputs).unwrap();
    assert_eq!(rule.fill, mul(mul(mul(i0, i1), i2), i3));
}

#[test]
fn a_substitution_rule_is_a_difference() {
    let mut circuits = product_of_inputs(5, false);
    let (main, _) = circuits.lower_to_degree(info());
    let rule = main[0].constraint;
    let CircuitExpression::BinaryOperation(BinOp::Add, column, negated) = circuits.expression(rule)
    else {
        panic!("a rule is a sum");
    };
    assert_eq!(circuits.expression(column), CircuitExpression::Input(main_input(10)));
    let CircuitExpression::BinaryOperation(BinOp::Mul, minus_one, replaced) =
        circuits.expression(negated)
    else {
        panic!("the right-hand side of a rule is negated");
    };
    assert_eq!(circuits.expression(minus_one), CircuitExpression::BConstant(P - 1));
    assert_eq!(circuits.degree(replaced), TARGET_DEGREE);
    // the root now multiplies the fresh column with the last input
    let CircuitExpression::BinaryOperation(BinOp::Mul, lhs, _) =
        circuits.expression(circuits.root(0))
    else {
        panic!("the root is still a product");
    };
    assert_eq!(lhs, column);
}

#[test]
fn a_degree_of_twice_the_target_takes_a_chain_of_substitutions() {
    let mut circuits = product_of_inputs(8, false);
    assert_eq!(circuits.multicircuit_degree(), 8);
    assert_eq!(circuits.excess_degree(TARGET_DEGREE), Some(1 + 2 + 3 + 4));
    let (main, aux) = circuits.lower_to_degree(info());
    assert_eq!(main.len(), 2);
    assert_eq!(aux.len(), 0);
    assert_eq!(main[0].column, main_input(10));
    assert_eq!(main[1].column, main_input(11));
    assert!(circuits.multicircuit_degree() <= TARGET_DEGREE);
    assert_eq!(circuits.multicircuit_degree(), 2);
    for rule in &main {
        assert_eq!(circuits.degree(rule.constraint), TARGET_DEGREE);
    }
    // the second rule builds on the column of the first
    let first_column = Expr::Input(main_input(10));
    let inputs: Vec<Expr> = (4..7).map(|column| Expr::Input(main_input(column))).collect();
    let [i4, i5, i6] = <[Expr; 3]>::try_from(inputs).unwrap();
    assert_eq!(main[1].fill, mul(mul(mul(first_column, i4), i5), i6));
}

#[test]
fn constraints_at_the_target_are_left_alone() {
    let mut circuits = product_of_inputs(4, false);
    let before = product_of_inputs(4, false);
    assert_eq!(circuits.excess_degree(TARGET_DEGREE), Some(0));
    let (main, aux) = circuits.lower_to_degree(info());
    assert!(main.is_empty());
    assert!(aux.is_empty());
    assert_eq!(circuits, before);

    let mut empty = Multicircuit::empty(true);
    let (main, aux) = empty.lower_to_degree(info());
    assert!(main.is_empty() && aux.is_empty());
    assert_eq!(empty, Multicircuit::empty(true));
}

#[test]
fn fresh_columns_of_transition_constraints_stand_in_the_next_row() {
    let mut circuits = product_of_inputs(5, true);
    let (main, _) = circuits.lower_to_degree(info());
    assert_eq!(main[0].column, InputIndicator { row: Row::Next, table: Table::Main, column: 10 });
}

#[test]
fn expressions_over_the_extension_field_get_auxiliary_columns() {
    let mut builder = CircuitBuilder::single_row();
    let main = builder.input(main_input(0));
    let challenge = builder.challenge(0);
    let mut product = builder.mul(main, challenge);
    for _ in 0..3 {
        product = builder.mul(product, main);
    }
    // a second constraint whose large factor is over the base field
    let mut power = builder.mul(main, main);
    for _ in 0..2 {
        power = builder.mul(power, main);
    }
    let second = builder.mul(power, challenge);
    let mut circuits = builder.into_multicircuit(vec![product, second]);
    assert_eq!(circuits.multicircuit_degree(), 5);
    let (main_rules, aux_rules) = circuits.lower_to_degree(info());
    assert_eq!(aux_rules.len(), 1);
    assert_eq!(main_rules.len(), 1);
    assert_eq!(
        aux_rules[0].column,
        InputIndicator { row: Row::Current, table: Table::Aux, column: 20 }
    );
    assert_eq!(main_rules[0].column, main_input(10));
    assert!(!circuits.evaluates_to_base_element(aux_rules[0].constraint));
    assert!(circuits.evaluates_to_base_element(main_rules[0].constraint));
    assert!(circuits.multicircuit_degree() <= TARGET_DEGREE);
}

#[test]
fn a_replaced_node_is_replaced_wherever_it_is_used() {
    let mut builder = CircuitBuilder::single_row();
    let a = builder.input(main_input(0));
    let b = builder.input(main_input(1));
    let square = builder.mul(a, a);
    let fourth = builder.mul(square, square);
    let fifth = builder.mul(fourth, b);
    let other = builder.add(fourth, b);
    let mut circuits = builder.into_multicircuit(vec![fifth, other]);
    assert_eq!(circuits.degree(other), 4);
    let (main, _) = circuits.lower_to_degree(info());
    assert_eq!(main.len(), 1);
    assert_eq!(circuits.expression(fourth), CircuitExpression::Input(main_input(10)));
    assert_eq!(circuits.degree(fifth), 2);
    assert_eq!(circuits.degree(other), 1);
}

#[test]
fn the_search_starts_at_the_first_constraint_above_the_target() {
    let mut builder = CircuitBuilder::single_row();
    let a = builder.input(main_input(0));
    let b = builder.input(main_input(1));
    let low = builder.mul(a, b);
    let a2 = builder.mul(a, a);
    let a4 = builder.mul(a2, a2);
    let a5 = builder.mul(a4, a);
    let b2 = builder.mul(b, b);
    let b4 = builder.mul(b2, b2);
    let b8 = builder.mul(b4, b4);
    let circuits = builder.into_multicircuit(vec![low, a5, b8]);
    assert_eq!(circuits.first_constraint_above(TARGET_DEGREE), Some(1));
    assert_eq!(circuits.first_constraint_above(5), Some(2));
    assert_eq!(circuits.first_constraint_above(8), None);
    assert_eq!(circuits.lowest_node_above(a5, TARGET_DEGREE), a5);
    assert_eq!(circuits.lowest_node_above(b8, TARGET_DEGREE), b8);
    assert_eq!(circuits.lowest_node_above(b8, 3), b4);
}

#[test]
fn an_excess_beyond_the_machine_word_is_reported() {
    let mut builder = CircuitBuilder::single_row();
    let mut first = builder.input(main_input(0));
    let mut second = builder.input(main_input(1));
    for _ in 0..63 {
        first = builder.mul(first, first);
        second = builder.mul(second, second);
    }
    let one_chain = {
        let mut builder = CircuitBuilder::single_row();
        let mut node = builder.input(main_input(0));
        for _ in 0..63 {
            node = builder.mul(node, node);
        }
        builder.into_multicircuit(vec![node])
    };
    // 8 + 16 + ... + 2^63, less the target for each of these 61 nodes
    assert_eq!(one_chain.excess_degree(TARGET_DEGREE), Some(usize::MAX - 7 - 61 * 4));
    let two_chains = builder.into_multicircuit(vec![first, second]);
    assert_eq!(two_chains.excess_degree(TARGET_DEGREE), None);
}
