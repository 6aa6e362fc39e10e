use constraint_evaluation_generator::builder::CircuitBuilder;
use constraint_evaluation_generator::circuit::BinOp;
use constraint_evaluation_generator::circuit::InputIndicator;
use constraint_evaluation_generator::circuit::Multicircuit;
use constraint_evaluation_generator::circuit::Row;
use constraint_evaluation_generator::circuit::Table;
use constraint_evaluation_generator::constraints::Constraints;
use constraint_evaluation_generator::expression::Expr;
use constraint_evaluation_generator::field::ExtensionElement;
use constraint_evaluation_generator::instruction::assemble;
use constraint_evaluation_generator::instruction::IOList;
use constraint_evaluation_generator::instruction::Instruction;
use constraint_evaluation_generator::instruction::NumberOfWords;
use constraint_evaluation_generator::instruction::Operand;
use constraint_evaluation_generator::instruction::Word;
use constraint_evaluation_generator::memory_layout::DynamicTasmConstraintEvaluationMemoryLayout;
use constraint_evaluation_generator::memory_layout::RegionSizes;
use constraint_evaluation_generator::memory_layout::StaticTasmConstraintEvaluationMemoryLayout;
use constraint_evaluation_generator::native::Binding;
use constraint_evaluation_generator::native::RustBackend;
use constraint_evaluation_generator::tasm::TasmBackend;
use constraint_evaluation_generator::tasm::MAX_NUM_CONSTRAINTS;
use constraint_evaluation_generator::tasm::MAX_READ_INDEX;
use constraint_evaluation_generator::tasm::OUT_ARRAY_OFFSET;

const OUT_ARRAY_WORD_OFFSET: u64 = 4294901760;

fn main_input(column: usize) -> InputIndicator {
    InputIndicator { row: Row::Current, table: Table::Main, column }
}

fn push(list: IOList, offset: u64) -> Instruction {
    Instruction::Push(Operand::Address(list, offset))
}

fn read(list: IOList, offset: u64) -> Vec<Instruction> {
    vec![
        push(list, offset),
        Instruction::ReadMem(NumberOfWords::N3),
        Instruction::Pop(NumberOfWords::N1),
    ]
}

fn write(offset: u64) -> Vec<Instruction> {
    vec![
        push(IOList::FreeMemPage, offset),
        Instruction::WriteMem(NumberOfWords::N3),
        Instruction::Pop(NumberOfWords::N1),
    ]
}

fn read_via_pointer(list: IOList, offset: u64) -> Vec<Instruction> {
    vec![
        push(list, 0),
        Instruction::ReadMem(NumberOfWords::N1),
        Instruction::Pop(NumberOfWords::N1),
        Instruction::AddI(offset),
        Instruction::ReadMem(NumberOfWords::N3),
        Instruction::Pop(NumberOfWords::N1),
    ]
}

fn store_row_pointers() -> Vec<Instruction> {
    [IOList::NextExtRow, IOList::NextBaseRow, IOList::CurrExtRow, IOList::CurrBaseRow]
        .into_iter()
        .flat_map(|list| {
            vec![
                push(list, 0),
                Instruction::WriteMem(NumberOfWords::N1),
                Instruction::Pop(NumberOfWords::N1),
            ]
        })
        .collect()
}

/// `(a + b) * (a + b)` as the only initial constraint.
fn square_of_a_sum() -> Constraints {
    let mut builder = CircuitBuilder::single_row();
    let a = builder.input(main_input(0));
    let b = builder.input(main_input(1));
    let sum = builder.add(a, b);
    let product = builder.mul(sum, sum);
    Constraints::new(
        builder.into_multicircuit(vec![product]),
        Multicircuit::empty(false),
        Multicircuit::empty(true),
        Multicircuit::empty(false),
    )
    .unwrap()
}

#[test]
fn the_static_program_stores_the_shared_sum_and_loads_it_twice() {
    let constraints = square_of_a_sum();
    assert!(TasmBackend::can_compile_all(&constraints));
    let code = TasmBackend::constraint_evaluation_code(&constraints);
    let expected: Vec<Instruction> = [
        // the sum, node 2, is computed once and stored in slot 2
        read(IOList::CurrBaseRow, 2),
        read(IOList::CurrBaseRow, 5),
        vec![Instruction::XxAdd],
        write(6),
        // the product loads it twice
        read(IOList::FreeMemPage, 8),
        read(IOList::FreeMemPage, 8),
        vec![Instruction::XxMul],
        write(OUT_ARRAY_WORD_OFFSET),
        vec![push(IOList::FreeMemPage, OUT_ARRAY_WORD_OFFSET)],
    ]
    .concat();
    assert_eq!(code.static_instructions, expected);
}

#[test]
fn a_sum_below_a_product_that_is_used_twice_is_added_once() {
    let mut builder = CircuitBuilder::single_row();
    let a = builder.input(main_input(0));
    let b = builder.input(main_input(1));
    let sum = builder.add(a, b);
    let product = builder.mul(sum, sum);
    assert_eq!((sum, product), (2, 3));
    let circuits = builder.into_multicircuit(vec![product, product]);
    let mut backend = TasmBackend::statically_known_input_locations();
    let code = backend.tokenize_circuits(&circuits);
    let expected: Vec<Instruction> = [
        // the sum is stored in slot 2 before the product that uses it
        read(IOList::CurrBaseRow, 2),
        read(IOList::CurrBaseRow, 5),
        vec![Instruction::XxAdd],
        write(6),
        // the product loads the sum twice and is stored in slot 3
        read(IOList::FreeMemPage, 8),
        read(IOList::FreeMemPage, 8),
        vec![Instruction::XxMul],
        write(9),
        // both constraints load the product
        read(IOList::FreeMemPage, 11),
        write(OUT_ARRAY_WORD_OFFSET),
        read(IOList::FreeMemPage, 11),
        write(OUT_ARRAY_WORD_OFFSET + 3),
    ]
    .concat();
    assert_eq!(code, expected);
    let additions = code.iter().filter(|&&i| i == Instruction::XxAdd).count();
    assert_eq!(additions, 1);
    assert!(backend.scope.contains(&sum) && backend.scope.contains(&product));
    assert_eq!(backend.scope.len(), 2);

    let native = RustBackend::tokenize_circuits(&circuits);
    let bound: Vec<usize> =
        native.shared_declarations.iter().map(|declaration| declaration.node).collect();
    assert_eq!(bound, vec![sum, product]);
    assert_eq!(native.base_constraints, vec![Expr::Node(product), Expr::Node(product)]);
}

#[test]
fn the_dynamic_program_reads_rows_through_their_pointers() {
    let constraints = square_of_a_sum();
    let code = TasmBackend::constraint_evaluation_code(&constraints);
    let expected: Vec<Instruction> = [
        store_row_pointers(),
        read_via_pointer(IOList::CurrBaseRow, 2),
        read_via_pointer(IOList::CurrBaseRow, 5),
        vec![Instruction::XxAdd],
        write(6),
        read(IOList::FreeMemPage, 8),
        read(IOList::FreeMemPage, 8),
        vec![Instruction::XxMul],
        write(OUT_ARRAY_WORD_OFFSET),
        vec![push(IOList::FreeMemPage, OUT_ARRAY_WORD_OFFSET)],
    ]
    .concat();
    assert_eq!(code.dynamic_instructions, expected);
}

#[test]
fn words_are_opcodes_and_arguments_led_by_their_number() {
    let constraints = square_of_a_sum();
    let code = TasmBackend::constraint_evaluation_code(&constraints);
    let literal = Word::Literal;
    let read_word = |list, offset| {
        vec![literal(1), Word::Pointer(list, offset), literal(41), literal(3), literal(3), literal(1)]
    };
    let write_word = |offset| {
        vec![
            literal(1),
            Word::Pointer(IOList::FreeMemPage, offset),
            literal(11),
            literal(3),
            literal(3),
            literal(1),
        ]
    };
    let expected: Vec<Word> = [
        vec![literal(40)],
        read_word(IOList::CurrBaseRow, 2),
        read_word(IOList::CurrBaseRow, 5),
        vec![literal(66)],
        write_word(6),
        read_word(IOList::FreeMemPage, 8),
        read_word(IOList::FreeMemPage, 8),
        vec![literal(74)],
        write_word(OUT_ARRAY_WORD_OFFSET),
        vec![literal(1), Word::Pointer(IOList::FreeMemPage, OUT_ARRAY_WORD_OFFSET)],
    ]
    .concat();
    assert_eq!(code.static_words, expected);
    assert_eq!(code.static_words[0], literal(code.static_words.len() as u64 - 1));
    assert_eq!(code.dynamic_words[0], literal(code.dynamic_words.len() as u64 - 1));
    assert_eq!(code.dynamic_words[1..], assemble(&code.dynamic_instructions)[..]);
}

#[test]
fn instructions_assemble_to_their_opcode_and_argument() {
    let code = vec![
        Instruction::Pop(NumberOfWords::N5),
        Instruction::Push(Operand::Constant(17)),
        Instruction::ReadMem(NumberOfWords::N2),
        Instruction::WriteMem(NumberOfWords::N4),
        Instruction::AddI(9),
        Instruction::XxAdd,
        Instruction::XxMul,
        Instruction::Halt,
        Instruction::Skiz,
        Instruction::Call(3),
        Instruction::Return,
        Instruction::Recurse,
        Instruction::RecurseOrReturn,
    ];
    let words: Vec<u64> = assemble(&code)
        .into_iter()
        .map(|word| match word {
            Word::Literal(value) => value,
            Word::Pointer(_, _) => panic!("no address was pushed"),
        })
        .collect();
    assert_eq!(words, vec![3, 5, 1, 17, 41, 2, 11, 4, 49, 9, 66, 74, 0, 2, 33, 3, 16, 24, 32]);
    for instruction in code {
        assert_eq!(instruction.opcode() % 2 == 1, instruction.arg().is_some());
    }
}

#[test]
fn constants_are_pushed_highest_coefficient_first() {
    let constant = ExtensionElement { c0: 1, c1: 2, c2: 3 };
    let expected: Vec<Instruction> =
        [3, 2, 1].into_iter().map(|c| Instruction::Push(Operand::Constant(c))).collect();
    assert_eq!(TasmBackend::load_ext_field_constant(constant), expected);
}

#[test]
fn elements_are_read_from_their_last_word_and_written_from_their_first() {
    assert_eq!(TasmBackend::element_index_to_word_index_for_reading(0), 2);
    assert_eq!(TasmBackend::element_index_to_word_index_for_reading(7), 23);
    assert_eq!(TasmBackend::element_index_to_word_index_for_reading(MAX_READ_INDEX), 4294967291);
    assert_eq!(TasmBackend::load_challenge(4), read(IOList::Challenges, 14));
    assert_eq!(TasmBackend::load_evaluated_bin_op(4), read(IOList::FreeMemPage, 14));
    assert_eq!(TasmBackend::store_ext_field_element(4), write(12));
    assert_eq!(
        TasmBackend::store_ext_field_element(OUT_ARRAY_OFFSET + MAX_NUM_CONSTRAINTS - 1),
        write(4294967289)
    );
    assert_eq!(
        TasmBackend::load_ext_field_element_from_pointed_to_list(IOList::NextExtRow, 1),
        read_via_pointer(IOList::NextExtRow, 5)
    );
    assert_eq!(
        TasmBackend::prepare_return_values(),
        vec![push(IOList::FreeMemPage, OUT_ARRAY_WORD_OFFSET)]
    );
}

#[test]
fn inputs_are_loaded_from_their_row_and_table() {
    let backend = TasmBackend::statically_known_input_locations();
    assert!(backend.input_location_is_static);
    assert_eq!(backend.elements_written, 0);
    for (row, table, list) in [
        (Row::Current, Table::Main, IOList::CurrBaseRow),
        (Row::Current, Table::Aux, IOList::CurrExtRow),
        (Row::Next, Table::Main, IOList::NextBaseRow),
        (Row::Next, Table::Aux, IOList::NextExtRow),
    ] {
        let input = InputIndicator { row, table, column: 2 };
        assert_eq!(backend.load_input(input), read(list, 8));
    }
    let backend = TasmBackend::dynamically_known_input_locations();
    assert!(!backend.input_location_is_static);
    let input = InputIndicator { row: Row::Next, table: Table::Main, column: 2 };
    assert_eq!(backend.load_input(input), read_via_pointer(IOList::NextBaseRow, 8));
    assert_eq!(backend.write_row_pointers_to_ram(), store_row_pointers());
}

#[test]
fn an_empty_bucket_takes_no_code() {
    let mut backend = TasmBackend::statically_known_input_locations();
    assert!(backend.tokenize_circuits(&Multicircuit::empty(false)).is_empty());
    assert_eq!(backend.elements_written, 0);

    let constraints = Constraints::empty();
    assert!(TasmBackend::can_compile_all(&constraints));
    let code = TasmBackend::constraint_evaluation_code(&constraints);
    let epilogue = vec![push(IOList::FreeMemPage, OUT_ARRAY_WORD_OFFSET)];
    assert_eq!(code.static_instructions, epilogue);
    assert_eq!(code.dynamic_instructions, [store_row_pointers(), epilogue].concat());

    let native = RustBackend::tokenize_circuits(&Multicircuit::empty(true));
    assert!(native.shared_declarations.is_empty());
    assert!(native.base_constraints.is_empty());
    assert!(native.ext_constraints.is_empty());
    assert!(native.degrees.is_empty());
}

#[test]
fn results_continue_where_the_bucket_before_stopped() {
    let mut builder = CircuitBuilder::single_row();
    let a = builder.input(main_input(0));
    let b = builder.input(main_input(1));
    let circuits = builder.into_multicircuit(vec![a, b]);
    let mut backend = TasmBackend::statically_known_input_locations();
    let first = backend.tokenize_circuits(&circuits);
    assert_eq!(backend.elements_written, 2);
    let second = backend.tokenize_circuits(&circuits);
    assert_eq!(backend.elements_written, 4);
    let expected = |first_slot: u64| -> Vec<Instruction> {
        [
            read(IOList::CurrBaseRow, 2),
            write(OUT_ARRAY_WORD_OFFSET + 3 * first_slot),
            read(IOList::CurrBaseRow, 5),
            write(OUT_ARRAY_WORD_OFFSET + 3 * (first_slot + 1)),
        ]
        .concat()
    };
    assert_eq!(first, expected(0));
    assert_eq!(second, expected(2));
}

#[test]
fn generated_code_is_straight_line() {
    let constraints = square_of_a_sum();
    let code = TasmBackend::constraint_evaluation_code(&constraints);
    for instruction in code.static_instructions.iter().chain(&code.dynamic_instructions) {
        assert!(!matches!(
            instruction,
            Instruction::Call(_)
                | Instruction::Return
                | Instruction::Recurse
                | Instruction::RecurseOrReturn
                | Instruction::Skiz
                | Instruction::Halt
        ));
    }
}

fn one_constraint(node: impl Fn(&mut CircuitBuilder) -> usize) -> Multicircuit {
    let mut builder = CircuitBuilder::single_row();
    let root = node(&mut builder);
    builder.into_multicircuit(vec![root])
}

#[test]
fn what_cannot_be_addressed_cannot_be_compiled() {
    let far = one_constraint(|builder| builder.input(main_input(MAX_READ_INDEX)));
    assert!(TasmBackend::can_compile(&far, true));
    assert!(TasmBackend::can_compile(&far, false));

    // where the address of an input is pushed, its offset is bounded
    let farther = one_constraint(|builder| builder.input(main_input(MAX_READ_INDEX + 1)));
    assert!(!TasmBackend::can_compile(&farther, true));
    assert!(TasmBackend::can_compile(&farther, false));

    // the address of a challenge is pushed either way
    let challenge = one_constraint(|builder| builder.challenge(MAX_READ_INDEX + 1));
    assert!(!TasmBackend::can_compile(&challenge, true));
    assert!(!TasmBackend::can_compile(&challenge, false));

    // the word index must fit the machine word
    let too_far = one_constraint(|builder| builder.input(main_input(usize::MAX / 3)));
    assert!(!TasmBackend::can_compile(&too_far, false));
    assert!(TasmBackend::check_word_index_fits((usize::MAX - 2) / 3));
    assert!(!TasmBackend::check_word_index_fits((usize::MAX - 2) / 3 + 1));

    let just_enough = {
        let mut builder = CircuitBuilder::single_row();
        let a = builder.input(main_input(0));
        builder.into_multicircuit(vec![a; MAX_NUM_CONSTRAINTS])
    };
    let one_more = one_constraint(|builder| builder.input(main_input(0)));
    let fits = Constraints::new(
        just_enough,
        Multicircuit::empty(false),
        Multicircuit::empty(true),
        Multicircuit::empty(false),
    )
    .unwrap();
    assert!(TasmBackend::can_compile_all(&fits));
    let Constraints { init, cons, tran, term: _ } = fits;
    let too_many = Constraints::new(init, cons, tran, one_more).unwrap();
    assert!(!TasmBackend::can_compile_all(&too_many));
    assert!(!TasmBackend::can_compile_all_for(&too_many, false));
}

#[test]
fn the_word_index_is_a_field_element() {
    assert_eq!(
        TasmBackend::element_index_to_word_index_for_reading(MAX_READ_INDEX + 1),
        4294967294
    );
    // 3 * 6148914689804861440 + 2 is one more than the order of the field
    assert_eq!(TasmBackend::element_index_to_word_index_for_reading(6148914689804861440), 1);
    assert!(TasmBackend::check_can_be_read(6148914689804861440, true));
    let input = InputIndicator { row: Row::Next, table: Table::Aux, column: MAX_READ_INDEX + 1 };
    let backend = TasmBackend::dynamically_known_input_locations();
    assert_eq!(backend.load_input(input), read_via_pointer(IOList::NextExtRow, 4294967294));
}

fn integral_layout() -> StaticTasmConstraintEvaluationMemoryLayout {
    StaticTasmConstraintEvaluationMemoryLayout {
        free_mem_page_ptr: 1 << 40,
        curr_base_row_ptr: 0,
        curr_ext_row_ptr: 100,
        next_base_row_ptr: 200,
        next_ext_row_ptr: 300,
        challenges_ptr: 400,
    }
}

#[test]
fn a_layout_that_is_not_integral_is_refused_before_code_is_made() {
    let constraints = square_of_a_sum();
    let sizes = RegionSizes { main_row: 100, aux_row: 100, challenges: 100 };
    let code = TasmBackend::constraint_evaluation_code(&constraints);

    let layout = integral_layout();
    let program = TasmBackend::static_air_constraint_evaluation_tasm(&constraints, layout, sizes);
    assert_eq!(program, Some(code.static_instructions));
    let dynamic_layout = DynamicTasmConstraintEvaluationMemoryLayout {
        free_mem_page_ptr: layout.free_mem_page_ptr,
        challenges_ptr: layout.challenges_ptr,
    };
    let program =
        TasmBackend::dynamic_air_constraint_evaluation_tasm(&constraints, dynamic_layout, sizes);
    assert_eq!(program, Some(code.dynamic_instructions));

    // the rows overlap
    let mut overlapping = integral_layout();
    overlapping.next_base_row_ptr = 150;
    assert_eq!(
        TasmBackend::static_air_constraint_evaluation_tasm(&constraints, overlapping, sizes),
        None
    );
    // the challenges lie on the free page
    let overlapping = DynamicTasmConstraintEvaluationMemoryLayout {
        free_mem_page_ptr: 350,
        challenges_ptr: 400,
    };
    assert_eq!(
        TasmBackend::dynamic_air_constraint_evaluation_tasm(&constraints, overlapping, sizes),
        None
    );
}

#[test]
fn constraints_that_do_not_fit_the_free_page_are_refused_with_any_layout() {
    let farther = one_constraint(|builder| builder.input(main_input(MAX_READ_INDEX + 1)));
    let constraints = Constraints::new(
        farther,
        Multicircuit::empty(false),
        Multicircuit::empty(true),
        Multicircuit::empty(false),
    )
    .unwrap();
    let sizes = RegionSizes { main_row: 100, aux_row: 100, challenges: 100 };
    let layout = integral_layout();
    assert_eq!(
        TasmBackend::static_air_constraint_evaluation_tasm(&constraints, layout, sizes),
        None
    );
    let dynamic_layout = DynamicTasmConstraintEvaluationMemoryLayout {
        free_mem_page_ptr: layout.free_mem_page_ptr,
        challenges_ptr: layout.challenges_ptr,
    };
    let program =
        TasmBackend::dynamic_air_constraint_evaluation_tasm(&constraints, dynamic_layout, sizes);
    assert!(program.is_some());
}

#[test]
fn native_code_binds_the_shared_sum_and_refers_to_it() {
    let constraints = square_of_a_sum();
    let code = RustBackend::constraint_evaluation_code(&constraints);
    let a = || Box::new(Expr::Input(main_input(0)));
    let b = || Box::new(Expr::Input(main_input(1)));
    let sum = Expr::BinaryOperation(BinOp::Add, a(), b());
    assert_eq!(code.init.shared_declarations, vec![Binding { node: 2, value: sum }]);
    let product =
        Expr::BinaryOperation(BinOp::Mul, Box::new(Expr::Node(2)), Box::new(Expr::Node(2)));
    assert_eq!(code.init.base_constraints, vec![product]);
    assert!(code.init.ext_constraints.is_empty());
    assert_eq!(code.init.degrees, vec![2]);
    assert!(code.tran.degrees.is_empty());
}

#[test]
fn native_code_lists_base_field_constraints_first() {
    let mut builder = CircuitBuilder::single_row();
    let main = builder.input(main_input(0));
    let challenge = builder.challenge(1);
    let seven = builder.x_constant(7, 0, 0);
    let over_the_extension = builder.mul(main, challenge);
    let cube = builder.mul(main, main);
    let cube = builder.mul(cube, main);
    let constant = builder.add(seven, seven);
    let circuits = builder.into_multicircuit(vec![over_the_extension, cube, constant, main]);
    let code = RustBackend::tokenize_circuits(&circuits);
    assert_eq!(code.base_constraints.len(), 2);
    assert_eq!(code.ext_constraints.len(), 2);
    assert_eq!(code.degrees, vec![3, 1, 2, 0]);
    assert_eq!(code.base_constraints[1], Expr::Input(main_input(0)));
    assert_eq!(
        code.ext_constraints[1],
        Expr::XConstant(ExtensionElement { c0: 14, c1: 0, c2: 0 })
    );
    assert_eq!(
        code.ext_constraints[0],
        Expr::BinaryOperation(
            BinOp::Mul,
            Box::new(Expr::Input(main_input(0))),
            Box::new(Expr::Challenge(1))
        )
    );
}

#[test]
fn the_documentation_says_what_the_programs_expect() {
    let static_doc = TasmBackend::doc_comment_static_version();
    let dynamic_doc = TasmBackend::doc_comment_dynamic_version();
    assert!(static_doc.contains("BEFORE: _\n"));
    assert!(static_doc.contains("AFTER:  _ *evaluated_constraints"));
    assert!(static_doc.contains("StaticTasmConstraintEvaluationMemoryLayout"));
    assert!(dynamic_doc
        .contains("BEFORE: _ *current_main_row *current_aux_row *next_main_row *next_aux_row"));
    assert!(dynamic_doc.contains("DynamicTasmConstraintEvaluationMemoryLayout"));
    assert_ne!(static_doc, dynamic_doc);
}
