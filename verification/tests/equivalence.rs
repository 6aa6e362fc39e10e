use std::collections::HashMap;

use constraint_evaluation_generator::builder::CircuitBuilder;
use constraint_evaluation_generator::circuit::BinOp;
use constraint_evaluation_generator::circuit::CircuitExpression;
use constraint_evaluation_generator::circuit::InputIndicator;
use constraint_evaluation_generator::circuit::Multicircuit;
use constraint_evaluation_generator::circuit::Row;
use constraint_evaluation_generator::circuit::Table;
use constraint_evaluation_generator::constraints::ColumnFill;
use constraint_evaluation_generator::constraints::Constraints;
use constraint_evaluation_generator::expression::Expr;
use constraint_evaluation_generator::instruction::IOList;
use constraint_evaluation_generator::instruction::Instruction;
use constraint_evaluation_generator::instruction::Operand;
use constraint_evaluation_generator::lowering::DegreeLoweringInfo;
use constraint_evaluation_generator::memory_layout::DynamicTasmConstraintEvaluationMemoryLayout;
use constraint_evaluation_generator::memory_layout::MemoryRegion;
use constraint_evaluation_generator::memory_layout::RegionSizes;
use constraint_evaluation_generator::memory_layout::StaticTasmConstraintEvaluationMemoryLayout;
use constraint_evaluation_generator::native::BucketCode;
use constraint_evaluation_generator::native::RustBackend;
use constraint_evaluation_generator::tasm::TasmBackend;
use constraint_evaluation_generator::tasm::MEM_PAGE_SIZE;
use constraint_evaluation_generator::tasm::OUT_ARRAY_OFFSET;
use twenty_first::prelude::BFieldElement;
use twenty_first::prelude::XFieldElement;

const NUM_MAIN_COLUMNS: usize = 3;
const NUM_AUX_COLUMNS: usize = 4;
const NUM_CHALLENGES: usize = 4;
const ROW_WORDS: u64 = 60;

fn indicator(row: Row, table: Table, column: usize) -> InputIndicator {
    InputIndicator { row, table, column }
}

fn to_the_4th(builder: &mut CircuitBuilder, node: usize) -> usize {
    let square = builder.mul(node, node);
    let cube = builder.mul(square, node);
    builder.mul(cube, node)
}

fn initial_constraints() -> Multicircuit {
    let mut builder = CircuitBuilder::single_row();
    let input_0 = builder.input(indicator(Row::Current, Table::Main, 0));
    let input_1 = builder.input(indicator(Row::Current, Table::Main, 1));
    let input_2 = builder.input(indicator(Row::Current, Table::Main, 2));
    let challenge_3 = builder.challenge(3);
    let sixteen = builder.x_constant(16, 0, 0);
    let product = builder.mul(input_0, input_1);
    let first = builder.sub(product, input_2);
    let input_0_to_the_4th = to_the_4th(&mut builder, input_0);
    let difference = builder.sub(input_0_to_the_4th, challenge_3);
    let second = builder.sub(difference, sixteen);
    let input_1_to_the_4th = to_the_4th(&mut builder, input_1);
    let product = builder.mul(input_2, input_0_to_the_4th);
    let third = builder.sub(product, input_1_to_the_4th);
    builder.into_multicircuit(vec![first, second, third])
}

fn consistency_constraints() -> Multicircuit {
    let mut builder = CircuitBuilder::single_row();
    let main_0 = builder.input(indicator(Row::Current, Table::Main, 0));
    let aux_0 = builder.input(indicator(Row::Current, Table::Aux, 0));
    let aux_1 = builder.input(indicator(Row::Current, Table::Aux, 1));
    let one = builder.b_constant(1);
    let main_0_minus_one = builder.sub(main_0, one);
    let first = builder.mul(main_0, main_0_minus_one);
    let aux_0_to_the_4th = to_the_4th(&mut builder, aux_0);
    let product = builder.mul(aux_0_to_the_4th, aux_1);
    let second = builder.sub(product, main_0);
    let main_0_to_the_8th = {
        let fourth = to_the_4th(&mut builder, main_0);
        builder.mul(fourth, fourth)
    };
    let third = builder.add(main_0_to_the_8th, aux_0_to_the_4th);
    builder.into_multicircuit(vec![first, second, third, first])
}

fn transition_constraints() -> Multicircuit {
    let mut builder = CircuitBuilder::dual_row();
    let challenge_0 = builder.challenge(0);
    let challenge_1 = builder.challenge(1);
    let forty_two = builder.x_constant(42, 1, 0);
    let curr_main: Vec<usize> =
        (0..3).map(|i| builder.input(indicator(Row::Current, Table::Main, i))).collect();
    let next_main: Vec<usize> =
        (0..3).map(|i| builder.input(indicator(Row::Next, Table::Main, i))).collect();
    let curr_aux: Vec<usize> =
        (0..2).map(|i| builder.input(indicator(Row::Current, Table::Aux, i))).collect();
    let next_aux: Vec<usize> =
        (0..4).map(|i| builder.input(indicator(Row::Next, Table::Aux, i))).collect();
    let lhs = builder.mul(curr_main[0], next_aux[1]);
    let rhs = builder.mul(next_main[1], curr_aux[0]);
    let first = builder.sub(lhs, rhs);
    let lhs = builder.mul(curr_main[1], next_aux[2]);
    let rhs = builder.mul(next_main[2], curr_aux[1]);
    let second = builder.sub(lhs, rhs);
    let product = builder.mul(curr_main[2], next_aux[0]);
    let product = builder.mul(product, next_aux[1]);
    let product = builder.mul(product, next_aux[3]);
    let third = builder.add(product, forty_two);
    let product = builder.mul(curr_main[0], challenge_0);
    let fourth = builder.sub(product, challenge_1);
    let fifth = {
        let square = builder.mul(third, third);
        builder.mul(square, first)
    };
    builder.into_multicircuit(vec![first, second, third, fourth, fifth])
}

fn terminal_constraints() -> Multicircuit {
    let mut builder = CircuitBuilder::single_row();
    let main_1 = builder.input(indicator(Row::Current, Table::Main, 1));
    let aux_2 = builder.input(indicator(Row::Current, Table::Aux, 2));
    let challenge_2 = builder.challenge(2);
    let product = builder.mul(main_1, challenge_2);
    let first = builder.sub(aux_2, product);
    builder.into_multicircuit(vec![first])
}

fn constraints() -> Constraints {
    Constraints::new(
        initial_constraints(),
        consistency_constraints(),
        transition_constraints(),
        terminal_constraints(),
    )
    .unwrap()
}

/// Values for all inputs and challenges.
struct Assignment {
    inputs: HashMap<InputIndicator, XFieldElement>,
    challenges: Vec<XFieldElement>,
}

/// A generator of numbers that look random and are the same in every run.
struct Numbers(u64);

impl Numbers {
    fn next(&mut self) -> u64 {
        self.0 = self.0.wrapping_mul(6364136223846793005).wrapping_add(1442695040888963407);
        self.0 ^ (self.0 >> 29)
    }

    fn base_element(&mut self) -> XFieldElement {
        XFieldElement::new_const(BFieldElement::new(self.next()))
    }

    fn extension_element(&mut self) -> XFieldElement {
        XFieldElement::new([self.next(), self.next(), self.next()].map(BFieldElement::new))
    }
}

fn assignment(seed: u64) -> Assignment {
    let mut numbers = Numbers(seed);
    let mut inputs = HashMap::new();
    for row in [Row::Current, Row::Next] {
        for column in 0..NUM_MAIN_COLUMNS {
            inputs.insert(indicator(row, Table::Main, column), numbers.base_element());
        }
        for column in 0..NUM_AUX_COLUMNS {
            inputs.insert(indicator(row, Table::Aux, column), numbers.extension_element());
        }
    }
    let challenges = (0..NUM_CHALLENGES).map(|_| numbers.extension_element()).collect();
    Assignment { inputs, challenges }
}

fn apply(op: BinOp, lhs: XFieldElement, rhs: XFieldElement) -> XFieldElement {
    match op {
        BinOp::Add => lhs + rhs,
        BinOp::Mul => lhs * rhs,
    }
}

fn constant(c0: u64, c1: u64, c2: u64) -> XFieldElement {
    XFieldElement::new([c0, c1, c2].map(BFieldElement::new))
}

/// The value of a node, computed from the graph.
fn value_of(circuits: &Multicircuit, node: usize, env: &Assignment) -> XFieldElement {
    match circuits.expression(node) {
        CircuitExpression::BConstant(v) => constant(v, 0, 0),
        CircuitExpression::XConstant(x) => constant(x.c0, x.c1, x.c2),
        CircuitExpression::Input(input) => env.inputs[&input],
        CircuitExpression::Challenge(index) => env.challenges[index],
        CircuitExpression::BinaryOperation(op, lhs, rhs) => {
            apply(op, value_of(circuits, lhs, env), value_of(circuits, rhs, env))
        }
    }
}

fn values_of(circuits: &Multicircuit, env: &Assignment) -> Vec<XFieldElement> {
    let roots = circuits.base_constraints_first();
    roots.into_iter().map(|root| value_of(circuits, root, env)).collect()
}

/// The value of an expression of the native backend.
fn eval(expr: &Expr, env: &Assignment, bindings: &HashMap<usize, XFieldElement>) -> XFieldElement {
    match expr {
        Expr::BConstant(v) => constant(*v, 0, 0),
        Expr::XConstant(x) => constant(x.c0, x.c1, x.c2),
        Expr::Input(input) => env.inputs[input],
        Expr::Challenge(index) => env.challenges[*index],
        Expr::Node(node) => bindings[node],
        Expr::BinaryOperation(op, lhs, rhs) => {
            apply(*op, eval(lhs, env, bindings), eval(rhs, env, bindings))
        }
    }
}

fn run_native(code: &BucketCode, env: &Assignment) -> Vec<XFieldElement> {
    let mut bindings = HashMap::new();
    for declaration in &code.shared_declarations {
        let value = eval(&declaration.value, env, &bindings);
        let previous = bindings.insert(declaration.node, value);
        assert!(previous.is_none(), "node {} is bound twice", declaration.node);
    }
    let constraints = code.base_constraints.iter().chain(&code.ext_constraints);
    constraints.map(|expr| eval(expr, env, &bindings)).collect()
}

/// Gives the fresh columns the values of their fill expressions.
fn fill(env: &mut Assignment, fills: &[ColumnFill], row: Row, table: Table) {
    for rule in fills {
        let value = eval(&rule.value, env, &HashMap::new());
        let previous = env.inputs.insert(indicator(row, table, rule.column), value);
        assert!(previous.is_none(), "column {} is not fresh", rule.column);
    }
}

/// The stack machine, as far as generated code uses it.
struct Machine {
    stack: Vec<BFieldElement>,
    ram: HashMap<u64, u64>,
    pointers: HashMap<IOList, u64>,
}

impl Machine {
    fn pop(&mut self) -> BFieldElement {
        self.stack.pop().expect("the stack must not run empty")
    }

    fn pop_element(&mut self) -> XFieldElement {
        let c0 = self.pop();
        let c1 = self.pop();
        let c2 = self.pop();
        XFieldElement::new([c0, c1, c2])
    }

    fn push_element(&mut self, element: XFieldElement) {
        let [c0, c1, c2] = element.coefficients;
        self.stack.extend([c2, c1, c0]);
    }

    fn step(&mut self, instruction: Instruction) {
        match instruction {
            Instruction::Push(Operand::Constant(c)) => self.stack.push(BFieldElement::new(c)),
            Instruction::Push(Operand::Address(list, offset)) => {
                let address = BFieldElement::new(self.pointers[&list] + offset);
                self.stack.push(address);
            }
            Instruction::Pop(n) => {
                for _ in 0..n.num_words() {
                    self.pop();
                }
            }
            Instruction::ReadMem(n) => {
                let mut pointer = self.pop();
                for _ in 0..n.num_words() {
                    let word = self.ram.get(&pointer.value()).copied().unwrap_or(0);
                    self.stack.push(BFieldElement::new(word));
                    pointer -= BFieldElement::new(1);
                }
                self.stack.push(pointer);
            }
            Instruction::WriteMem(n) => {
                let mut pointer = self.pop();
                for _ in 0..n.num_words() {
                    let word = self.pop();
                    self.ram.insert(pointer.value(), word.value());
                    pointer += BFieldElement::new(1);
                }
                self.stack.push(pointer);
            }
            Instruction::AddI(c) => {
                let top = self.pop();
                self.stack.push(top + BFieldElement::new(c));
            }
            Instruction::XxAdd => {
                let lhs = self.pop_element();
                let rhs = self.pop_element();
                self.push_element(lhs + rhs);
            }
            Instruction::XxMul => {
                let lhs = self.pop_element();
                let rhs = self.pop_element();
                self.push_element(lhs * rhs);
            }
            other => panic!("generated code must not hold {other:?}"),
        }
    }

    fn run(&mut self, code: &[Instruction]) {
        for &instruction in code {
            self.step(instruction);
        }
    }

    fn element_at(&self, address: u64) -> XFieldElement {
        let word = |offset| BFieldElement::new(self.ram[&(address + offset)]);
        XFieldElement::new([word(0), word(1), word(2)])
    }
}

fn static_layout() -> StaticTasmConstraintEvaluationMemoryLayout {
    StaticTasmConstraintEvaluationMemoryLayout {
        free_mem_page_ptr: 1 << 40,
        curr_base_row_ptr: 1000,
        curr_ext_row_ptr: 2000,
        next_base_row_ptr: 3000,
        next_ext_row_ptr: 4000,
        challenges_ptr: 5000,
    }
}

fn region_sizes() -> RegionSizes {
    RegionSizes { main_row: ROW_WORDS, aux_row: ROW_WORDS, challenges: ROW_WORDS }
}

/// Memory that holds the rows and the challenges where the layout says.
fn memory(env: &Assignment, layout: &StaticTasmConstraintEvaluationMemoryLayout) -> HashMap<u64, u64> {
    let mut ram = HashMap::new();
    let mut store = |start: u64, index: usize, element: XFieldElement| {
        assert!(3 * index as u64 + 2 < ROW_WORDS);
        for (offset, coefficient) in element.coefficients.into_iter().enumerate() {
            ram.insert(start + 3 * index as u64 + offset as u64, coefficient.value());
        }
    };
    for (input, &value) in &env.inputs {
        let start = match (input.row, input.table) {
            (Row::Current, Table::Main) => layout.curr_base_row_ptr,
            (Row::Current, Table::Aux) => layout.curr_ext_row_ptr,
            (Row::Next, Table::Main) => layout.next_base_row_ptr,
            (Row::Next, Table::Aux) => layout.next_ext_row_ptr,
        };
        store(start, input.column, value);
    }
    for (index, &challenge) in env.challenges.iter().enumerate() {
        store(layout.challenges_ptr, index, challenge);
    }
    ram
}

fn all_pointers(pointer: impl Fn(IOList) -> u64) -> HashMap<IOList, u64> {
    [
        IOList::FreeMemPage,
        IOList::CurrBaseRow,
        IOList::CurrExtRow,
        IOList::NextBaseRow,
        IOList::NextExtRow,
        IOList::Challenges,
    ]
    .into_iter()
    .map(|list| (list, pointer(list)))
    .collect()
}

fn off_the_page(ram: &HashMap<u64, u64>, page: MemoryRegion) -> HashMap<u64, u64> {
    ram.iter().filter(|(&address, _)| !page.contains_address(address)).map(|(&a, &w)| (a, w)).collect()
}

fn read_results(machine: &mut Machine, num_results: usize) -> Vec<XFieldElement> {
    let out_array = machine.pop().value();
    (0..num_results).map(|i| machine.element_at(out_array + 3 * i as u64)).collect()
}

/// Lowers the constraints and gives the fresh columns of `env` their values.
fn lowered(env: &mut Assignment) -> Constraints {
    let mut constraints = constraints();
    let info = DegreeLoweringInfo {
        target_degree: 4,
        num_main_cols: NUM_MAIN_COLUMNS,
        num_aux_cols: NUM_AUX_COLUMNS,
    };
    assert!(constraints.check_can_lower(info));
    let before: Vec<XFieldElement> = [
        values_of(&constraints.init, env),
        values_of(&constraints.cons, env),
        values_of(&constraints.tran, env),
        values_of(&constraints.term, env),
    ]
    .concat();
    assert_eq!(before.len(), 13);

    let rules = constraints.lower_to_target_degree_through_substitutions(info);
    let code = rules.generate_degree_lowering_table_code();
    // fresh columns are filled bucket by bucket, in the order of their rules
    fill(env, &code.main.init, Row::Current, Table::Main);
    fill(env, &code.aux.init, Row::Current, Table::Aux);
    fill(env, &code.main.cons, Row::Current, Table::Main);
    fill(env, &code.aux.cons, Row::Current, Table::Aux);
    fill(env, &code.main.tran, Row::Next, Table::Main);
    fill(env, &code.aux.tran, Row::Next, Table::Aux);
    fill(env, &code.main.term, Row::Current, Table::Main);
    fill(env, &code.aux.term, Row::Current, Table::Aux);
    assert!(rules.main.init.len() + rules.aux.cons.len() + rules.aux.tran.len() >= 3);

    // lowering changes no constraint's value
    let after: Vec<XFieldElement> = [
        values_of(&constraints.init, env),
        values_of(&constraints.cons, env),
        values_of(&constraints.tran, env),
        values_of(&constraints.term, env),
    ]
    .concat();
    assert_eq!(before, after);

    // under the fill rules, every rule's constraint is zero
    let zero = constant(0, 0, 0);
    for (circuits, main, aux) in [
        (&constraints.init, &rules.main.init, &rules.aux.init),
        (&constraints.cons, &rules.main.cons, &rules.aux.cons),
        (&constraints.tran, &rules.main.tran, &rules.aux.tran),
        (&constraints.term, &rules.main.term, &rules.aux.term),
    ] {
        for rule in main.iter().chain(aux) {
            assert_eq!(value_of(circuits, rule.constraint, env), zero);
            assert!(circuits.degree(rule.constraint) <= 4);
        }
    }
    let combined = constraints.combine_with_substitution_induced_constraints(rules);
    assert!(combined.degree() <= 4);
    combined
}

#[test]
fn lowering_preserves_the_value_of_every_constraint() {
    for seed in 0..5 {
        let mut env = assignment(seed);
        let _ = lowered(&mut env);
    }
}

#[test]
fn both_backends_compute_the_constraints() {
    for seed in 0..5 {
        let mut env = assignment(seed);
        let constraints = lowered(&mut env);
        let expected: Vec<XFieldElement> = [
            values_of(&constraints.init, &env),
            values_of(&constraints.cons, &env),
            values_of(&constraints.tran, &env),
            values_of(&constraints.term, &env),
        ]
        .concat();

        let native = RustBackend::constraint_evaluation_code(&constraints);
        let native_results: Vec<XFieldElement> = [
            run_native(&native.init, &env),
            run_native(&native.cons, &env),
            run_native(&native.tran, &env),
            run_native(&native.term, &env),
        ]
        .concat();
        assert_eq!(native_results, expected);

        assert!(TasmBackend::can_compile_all(&constraints));
        let tasm = TasmBackend::constraint_evaluation_code(&constraints);
        let layout = static_layout();
        assert!(layout.is_integral(region_sizes()));
        let ram = memory(&env, &layout);
        let page = MemoryRegion::new(layout.free_mem_page_ptr, MEM_PAGE_SIZE);

        // rows at addresses known when the code is assembled
        let mut machine =
            Machine { stack: vec![], ram: ram.clone(), pointers: all_pointers(|l| layout.pointer(l)) };
        machine.run(&tasm.static_instructions);
        assert_eq!(machine.stack.len(), 1);
        assert_eq!(
            machine.stack[0].value(),
            layout.free_mem_page_ptr + 3 * OUT_ARRAY_OFFSET as u64
        );
        assert_eq!(read_results(&mut machine, expected.len()), native_results);
        assert_eq!(off_the_page(&machine.ram, page), ram);

        // rows at addresses that arrive on the stack
        let dynamic_layout = DynamicTasmConstraintEvaluationMemoryLayout {
            free_mem_page_ptr: layout.free_mem_page_ptr,
            challenges_ptr: layout.challenges_ptr,
        };
        assert!(dynamic_layout.is_integral(region_sizes()));
        let row_pointers = [
            layout.curr_base_row_ptr,
            layout.curr_ext_row_ptr,
            layout.next_base_row_ptr,
            layout.next_ext_row_ptr,
        ];
        let mut machine = Machine {
            stack: row_pointers.map(BFieldElement::new).to_vec(),
            ram: ram.clone(),
            pointers: all_pointers(|l| dynamic_layout.pointer(l)),
        };
        machine.run(&tasm.dynamic_instructions);
        assert_eq!(machine.stack.len(), 1);
        assert_eq!(
            machine.stack[0].value(),
            layout.free_mem_page_ptr + 4 + 3 * OUT_ARRAY_OFFSET as u64
        );
        assert_eq!(read_results(&mut machine, expected.len()), native_results);
        assert_eq!(off_the_page(&machine.ram, page), ram);
    }
}

#[test]
fn shared_nodes_are_computed_once() {
    let mut env = assignment(7);
    let constraints = lowered(&mut env);
    let native = RustBackend::constraint_evaluation_code(&constraints);
    let tasm = TasmBackend::constraint_evaluation_code(&constraints);
    for (circuits, code) in [
        (&constraints.init, &native.init),
        (&constraints.cons, &native.cons),
        (&constraints.tran, &native.tran),
        (&constraints.term, &native.term),
    ] {
        let counts = constraint_evaluation_generator::sharing::reference_counts(circuits);
        let mut bound = std::collections::HashSet::new();
        for declaration in &code.shared_declarations {
            assert!(bound.insert(declaration.node));
            assert!(counts[declaration.node] >= 2);
            assert!(matches!(
                circuits.expression(declaration.node),
                CircuitExpression::BinaryOperation(_, _, _)
            ));
        }
    }
    // the assembly stores as many nodes as the native code binds
    let num_bound = native.init.shared_declarations.len()
        + native.cons.shared_declarations.len()
        + native.tran.shared_declarations.len()
        + native.term.shared_declarations.len();
    let num_constraints = constraints.init.num_constraints()
        + constraints.cons.num_constraints()
        + constraints.tran.num_constraints()
        + constraints.term.num_constraints();
    let num_writes = tasm
        .static_instructions
        .iter()
        .filter(|instruction| matches!(instruction, Instruction::WriteMem(_)))
        .count();
    assert!(num_bound > 0);
    assert_eq!(num_writes, num_bound + num_constraints);

    // every operation that a constraint reaches is carried out exactly once
    let mut num_operations = 0;
    for circuits in [&constraints.init, &constraints.cons, &constraints.tran, &constraints.term] {
        let counts = constraint_evaluation_generator::sharing::reference_counts(circuits);
        for node in 0..circuits.num_nodes() {
            let is_operation =
                matches!(circuits.expression(node), CircuitExpression::BinaryOperation(_, _, _));
            if is_operation && counts[node] > 0 {
                num_operations += 1;
            }
        }
    }
    for code in [&tasm.static_instructions, &tasm.dynamic_instructions] {
        let carried_out = code
            .iter()
            .filter(|instruction| matches!(instruction, Instruction::XxAdd | Instruction::XxMul))
            .count();
        assert_eq!(carried_out, num_operations);
    }
    for (circuits, code) in [
        (&constraints.init, &native.init),
        (&constraints.cons, &native.cons),
        (&constraints.tran, &native.tran),
        (&constraints.term, &native.term),
    ] {
        let counts = constraint_evaluation_generator::sharing::reference_counts(circuits);
        let num_shared = (0..circuits.num_nodes())
            .filter(|&node| {
                counts[node] >= 2
                    && matches!(
                        circuits.expression(node),
                        CircuitExpression::BinaryOperation(_, _, _)
                    )
            })
            .count();
        assert_eq!(code.shared_declarations.len(), num_shared);
    }
}
