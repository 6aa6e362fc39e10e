use constraint_evaluation_generator::builder::CircuitBuilder;
use constraint_evaluation_generator::circuit::CircuitExpression;
use constraint_evaluation_generator::circuit::InputIndicator;
use constraint_evaluation_generator::circuit::Multicircuit;
use constraint_evaluation_generator::circuit::Row;
use constraint_evaluation_generator::circuit::Table;
use constraint_evaluation_generator::constraints::Constraints;
use constraint_evaluation_generator::lowering::DegreeLoweringInfo;
use constraint_evaluation_generator::native::RustBackend;
use constraint_evaluation_generator::tasm::TasmBackend;

const TARGET_DEGREE: u64 = 4;

fn lowering_info() -> DegreeLoweringInfo {
    DegreeLoweringInfo { target_degree: TARGET_DEGREE, num_main_cols: 149, num_aux_cols: 49 }
}

fn indicator(row: Row, table: Table, column: usize) -> InputIndicator {
    InputIndicator { row, table, column }
}

fn to_the_4th(builder: &mut CircuitBuilder, node: usize) -> usize {
    let square = builder.mul(node, node);
    let cube = builder.mul(square, node);
    builder.mul(cube, node)
}

fn small_init_constraints() -> Multicircuit {
    let mut builder = CircuitBuilder::single_row();
    let input_0 = builder.input(indicator(Row::Current, Table::Main, 0));
    let input_1 = builder.input(indicator(Row::Current, Table::Main, 1));
    let input_2 = builder.input(indicator(Row::Current, Table::Main, 2));
    let challenge_3 = builder.challenge(3);
    let sixteen = builder.x_constant(16, 0, 0);

    let product = builder.mul(input_0, input_1);
    let first = builder.sub(product, input_2);

    let input_0_to_the_4th = to_the_4th(&mut builder, input_0);
    let difference = builder.sub(input_0_to_the_4th, challenge_3);
    let second = builder.sub(difference, sixteen);

    let input_1_to_the_4th = to_the_4th(&mut builder, input_1);
    let product = builder.mul(input_2, input_0_to_the_4th);
    let third = builder.sub(product, input_1_to_the_4th);

    builder.into_multicircuit(vec![first, second, third])
}

fn small_consistency_constraints() -> Multicircuit {
    let mut builder = CircuitBuilder::single_row();
    let main_0 = builder.input(indicator(Row::Current, Table::Main, 0));
    let aux_0 = builder.input(indicator(Row::Current, Table::Aux, 0));
    let aux_1 = builder.input(indicator(Row::Current, Table::Aux, 1));
    let one = builder.b_constant(1);

    // main_0 is a bit
    let main_0_minus_one = builder.sub(main_0, one);
    let first = builder.mul(main_0, main_0_minus_one);

    // a product over the auxiliary table that is too large as it stands
    let aux_0_to_the_4th = to_the_4th(&mut builder, aux_0);
    let product = builder.mul(aux_0_to_the_4th, aux_1);
    let second = builder.sub(product, main_0);

    builder.into_multicircuit(vec![first, second])
}

fn small_transition_constraints() -> Multicircuit {
    let mut builder = CircuitBuilder::dual_row();
    let challenge_0 = builder.challenge(0);
    let challenge_1 = builder.challenge(1);
    let forty_two = builder.x_constant(42, 0, 0);
    let curr_main: Vec<usize> =
        (0..3).map(|i| builder.input(indicator(Row::Current, Table::Main, i))).collect();
    let next_main: Vec<usize> =
        (0..3).map(|i| builder.input(indicator(Row::Next, Table::Main, i))).collect();
    let curr_aux: Vec<usize> =
        (0..2).map(|i| builder.input(indicator(Row::Current, Table::Aux, i))).collect();
    let next_aux: Vec<usize> =
        (0..4).map(|i| builder.input(indicator(Row::Next, Table::Aux, i))).collect();

    let lhs = builder.mul(curr_main[0], next_aux[1]);
    let rhs = builder.mul(next_main[1], curr_aux[0]);
    let first = builder.sub(lhs, rhs);

    let lhs = builder.mul(curr_main[1], next_aux[2]);
    let rhs = builder.mul(next_main[2], curr_aux[1]);
    let second = builder.sub(lhs, rhs);

    let product = builder.mul(curr_main[2], next_aux[0]);
    let product = builder.mul(product, next_aux[1]);
    let product = builder.mul(product, next_aux[3]);
    let third = builder.add(product, forty_two);

    let product = builder.mul(curr_main[0], challenge_0);
    let fourth = builder.sub(product, challenge_1);

    builder.into_multicircuit(vec![first, second, third, fourth])
}

fn small_terminal_constraints() -> Multicircuit {
    let mut builder = CircuitBuilder::single_row();
    let main_1 = builder.input(indicator(Row::Current, Table::Main, 1));
    let aux_2 = builder.input(indicator(Row::Current, Table::Aux, 2));
    let challenge_2 = builder.challenge(2);
    let product = builder.mul(main_1, challenge_2);
    let first = builder.sub(aux_2, product);
    builder.into_multicircuit(vec![first])
}

fn mini_constraints() -> Constraints {
    Constraints::new(
        small_init_constraints(),
        Multicircuit::empty(false),
        small_transition_constraints(),
        Multicircuit::empty(false),
    )
    .unwrap()
}

fn test_constraints() -> Constraints {
    Constraints::new(
        small_init_constraints(),
        small_consistency_constraints(),
        small_transition_constraints(),
        small_terminal_constraints(),
    )
    .unwrap()
}

/// A table with a counter, its fifth power and a running product over it.
fn counter_table() -> [Multicircuit; 4] {
    let mut builder = CircuitBuilder::single_row();
    let counter = builder.input(indicator(Row::Current, Table::Main, 3));
    let running_product = builder.input(indicator(Row::Current, Table::Aux, 4));
    let indeterminate = builder.challenge(4);
    let running_product_is_initialized = builder.sub(running_product, indeterminate);
    let init = builder.into_multicircuit(vec![counter, running_product_is_initialized]);

    let mut builder = CircuitBuilder::single_row();
    let counter = builder.input(indicator(Row::Current, Table::Main, 3));
    let fifth_power = builder.input(indicator(Row::Current, Table::Main, 4));
    let fourth_power = to_the_4th(&mut builder, counter);
    let product = builder.mul(fourth_power, counter);
    let fifth_power_is_correct = builder.sub(fifth_power, product);
    let cons = builder.into_multicircuit(vec![fifth_power_is_correct]);

    let mut builder = CircuitBuilder::dual_row();
    let counter = builder.input(indicator(Row::Current, Table::Main, 3));
    let counter_next = builder.input(indicator(Row::Next, Table::Main, 3));
    let one = builder.b_constant(1);
    let difference = builder.sub(counter_next, counter);
    let counter_increases_by_one = builder.sub(difference, one);
    let running_product = builder.input(indicator(Row::Current, Table::Aux, 4));
    let running_product_next = builder.input(indicator(Row::Next, Table::Aux, 4));
    let indeterminate = builder.challenge(4);
    let factor = builder.sub(indeterminate, counter_next);
    let product = builder.mul(running_product, factor);
    let running_product_accumulates = builder.sub(running_product_next, product);
    let tran =
        builder.into_multicircuit(vec![counter_increases_by_one, running_product_accumulates]);

    let mut builder = CircuitBuilder::single_row();
    let counter = builder.input(indicator(Row::Current, Table::Main, 3));
    let last = builder.b_constant(255);
    let counter_is_at_its_end = builder.sub(counter, last);
    let term = builder.into_multicircuit(vec![counter_is_at_its_end]);
    [init, cons, tran, term]
}

/// Appends the constraints of `other` to those of `circuits`. The graphs
/// are built anew in one builder, so that they share what they have in
/// common.
fn join(circuits: &Multicircuit, other: &Multicircuit) -> Multicircuit {
    let mut builder =
        if circuits.dual_row { CircuitBuilder::dual_row() } else { CircuitBuilder::single_row() };
    let mut roots = vec![];
    for part in [circuits, other] {
        let mut position = vec![];
        for node in 0..part.num_nodes() {
            let copy = match part.expression(node) {
                CircuitExpression::BConstant(v) => builder.b_constant(v),
                CircuitExpression::XConstant(x) => builder.x_constant(x.c0, x.c1, x.c2),
                CircuitExpression::Input(input) => builder.input(input),
                CircuitExpression::Challenge(index) => builder.challenge(index),
                CircuitExpression::BinaryOperation(op, lhs, rhs) => {
                    builder.binop(op, position[lhs], position[rhs])
                }
            };
            position.push(copy);
        }
        for i in 0..part.num_constraints() {
            roots.push(position[part.root(i)]);
        }
    }
    builder.into_multicircuit(roots)
}

/// The constraints of every table that is defined here.
fn all() -> Constraints {
    let [init, cons, tran, term] = counter_table();
    Constraints::new(
        join(&small_init_constraints(), &init),
        join(&small_consistency_constraints(), &cons),
        join(&small_transition_constraints(), &tran),
        join(&small_terminal_constraints(), &term),
    )
    .unwrap()
}

fn print_constraints(constraints: &Constraints) {
    assert!(TasmBackend::can_compile_all(constraints));
    let code = TasmBackend::constraint_evaluation_code(constraints);
    println!("{}", TasmBackend::doc_comment_static_version());
    println!("{:?}", code.static_words);
    println!("{}", TasmBackend::doc_comment_dynamic_version());
    println!("{:?}", code.dynamic_words);
    let num_arguments = code.static_instructions.iter().filter(|i| i.arg().is_some()).count();
    assert_eq!(code.static_words.len(), 1 + code.static_instructions.len() + num_arguments);
}

#[test]
fn print_mini_constraints() {
    print_constraints(&mini_constraints());
}

#[test]
fn print_test_constraints() {
    print_constraints(&test_constraints());
}

#[test]
fn test_constraints_can_be_fetched() {
    let _ = test_constraints();
}

#[test]
fn degree_lowering_tables_code_can_be_generated_for_test_constraints() {
    let mut constraints = test_constraints();
    assert!(constraints.check_can_lower(lowering_info()));
    let substitutions = constraints.lower_to_target_degree_through_substitutions(lowering_info());
    let _ = substitutions.generate_degree_lowering_table_code();
}

#[test]
fn all_constraints_can_be_fetched() {
    let _ = all();
}

#[test]
fn degree_lowering_tables_code_can_be_generated_from_all_constraints() {
    let mut constraints = all();
    assert!(constraints.check_can_lower(lowering_info()));
    let substitutions = constraints.lower_to_target_degree_through_substitutions(lowering_info());
    let _ = substitutions.generate_degree_lowering_table_code();
}

#[test]
fn constraints_and_substitutions_can_be_combined() {
    let mut constraints = test_constraints();
    assert!(constraints.check_can_lower(lowering_info()));
    let substitutions = constraints.lower_to_target_degree_through_substitutions(lowering_info());
    let _ = constraints.combine_with_substitution_induced_constraints(substitutions);
}

#[test]
fn joined_tables_share_their_common_nodes() {
    let constraints = all();
    assert!(constraints.is_well_formed());
    assert_eq!(constraints.init.num_constraints(), 3 + 2);
    assert_eq!(constraints.cons.num_constraints(), 2 + 1);
    assert_eq!(constraints.tran.num_constraints(), 4 + 2);
    assert_eq!(constraints.term.num_constraints(), 1 + 1);
    // the constant -1 is needed by both tables and held once
    let small = small_init_constraints().num_nodes();
    let [counter, _, _, _] = counter_table();
    assert_eq!(constraints.init.num_nodes(), small + counter.num_nodes() - 1);
    assert_eq!(constraints.degree(), 5);
}

#[test]
fn lowering_test_constraints_bounds_every_degree() {
    let mut constraints = test_constraints();
    assert_eq!(constraints.degree(), 5);
    let substitutions = constraints.lower_to_target_degree_through_substitutions(lowering_info());
    assert!(constraints.degree() <= TARGET_DEGREE);
    let num_rules = substitutions.main.init.len() + substitutions.aux.cons.len();
    assert_eq!(substitutions.main.init.len(), 1);
    assert_eq!(substitutions.aux.init.len(), 0);
    assert_eq!(substitutions.main.cons.len(), 0);
    assert_eq!(substitutions.aux.cons.len(), 1);
    assert_eq!(substitutions.main.tran.len() + substitutions.aux.tran.len(), 0);
    assert_eq!(substitutions.main.term.len() + substitutions.aux.term.len(), 0);

    let num_constraints_before = 3 + 2 + 4 + 1;
    let combined = constraints.combine_with_substitution_induced_constraints(substitutions);
    assert!(combined.degree() <= TARGET_DEGREE);
    let num_constraints = combined.init.num_constraints() + combined.cons.num_constraints()
        + combined.tran.num_constraints() + combined.term.num_constraints();
    assert_eq!(num_constraints, num_constraints_before + num_rules);
}

#[test]
fn fresh_columns_are_numbered_through_the_buckets() {
    let mut constraints = test_constraints();
    let info = lowering_info();
    let substitutions = constraints.lower_to_target_degree_through_substitutions(info);
    let init_rule = &substitutions.main.init[0];
    assert_eq!(init_rule.column, indicator(Row::Current, Table::Main, info.num_main_cols));
    let cons_rule = &substitutions.aux.cons[0];
    assert_eq!(cons_rule.column, indicator(Row::Current, Table::Aux, info.num_aux_cols));
    let code = substitutions.generate_degree_lowering_table_code();
    assert_eq!(code.main.init.len(), 1);
    assert_eq!(code.main.init[0].column, info.num_main_cols);
    assert_eq!(code.main.init[0].value, init_rule.fill);
    assert_eq!(code.aux.cons[0].column, info.num_aux_cols);
    assert_eq!(code.aux.cons[0].value, cons_rule.fill);
}

#[test]
fn compiling_twice_gives_the_same_artifacts() {
    let mut first = test_constraints();
    let mut second = test_constraints();
    let first_rules = first.lower_to_target_degree_through_substitutions(lowering_info());
    let second_rules = second.lower_to_target_degree_through_substitutions(lowering_info());
    assert_eq!(first_rules, second_rules);
    assert_eq!(
        first_rules.generate_degree_lowering_table_code(),
        second_rules.generate_degree_lowering_table_code()
    );
    let first = first.combine_with_substitution_induced_constraints(first_rules);
    let second = second.combine_with_substitution_induced_constraints(second_rules);
    assert_eq!(first, second);
    assert_eq!(
        TasmBackend::constraint_evaluation_code(&first),
        TasmBackend::constraint_evaluation_code(&second)
    );
    assert_eq!(
        RustBackend::constraint_evaluation_code(&first),
        RustBackend::constraint_evaluation_code(&second)
    );
}

#[test]
fn buckets_must_see_the_rows_they_are_meant_for() {
    let in_the_wrong_place = Constraints::new(
        small_transition_constraints(),
        Multicircuit::empty(false),
        Multicircuit::empty(true),
        Multicircuit::empty(false),
    );
    assert!(in_the_wrong_place.is_none());
    assert!(Constraints::new(
        Multicircuit::empty(false),
        Multicircuit::empty(false),
        Multicircuit::empty(false),
        Multicircuit::empty(false),
    )
    .is_none());
}

#[test]
fn lowering_needs_a_target_above_one() {
    let constraints = test_constraints();
    let info = DegreeLoweringInfo { target_degree: 1, num_main_cols: 0, num_aux_cols: 0 };
    assert!(!constraints.check_can_lower(info));
    let info = DegreeLoweringInfo { target_degree: 2, num_main_cols: usize::MAX, num_aux_cols: 0 };
    assert!(!constraints.check_can_lower(info));
    let info = DegreeLoweringInfo { target_degree: 2, num_main_cols: 0, num_aux_cols: 0 };
    assert!(constraints.check_can_lower(info));
}
