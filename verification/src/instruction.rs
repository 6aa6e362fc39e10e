//! The part of the stack machine's vocabulary that the assembly backend
//! speaks, and the part that it must never use.

use vstd::prelude::*;

verus! {

/// How many words an instruction moves.
#[derive(Clone, Copy, Debug, PartialEq, Eq, Structural, Hash)]
pub enum NumberOfWords {
    N1,
    N2,
    N3,
    N4,
    N5,
}

/// The memory regions that generated code refers to by name. What address a
/// name stands for is decided where the code is assembled.
#[derive(Clone, Copy, Debug, PartialEq, Eq, Structural, Hash)]
pub enum IOList {
    FreeMemPage,
    CurrBaseRow,
    CurrExtRow,
    NextBaseRow,
    NextExtRow,
    Challenges,
}

/// The operand of a `push`: a field element, or an address given as a named
/// region plus an offset in words.
#[derive(Clone, Copy, Debug, PartialEq, Eq, Structural, Hash)]
pub enum Operand {
    Constant(u64),
    Address(IOList, u64),
}

/// An instruction of the stack machine.
#[derive(Clone, Copy, Debug, PartialEq, Eq, Structural, Hash)]
pub enum Instruction {
    Pop(NumberOfWords),
    Push(Operand),
    ReadMem(NumberOfWords),
    WriteMem(NumberOfWords),
    AddI(u64),
    XxAdd,
    XxMul,
    Halt,
    Skiz,
    Call(u64),
    Return,
    Recurse,
    RecurseOrReturn,
}

/// One word of assembled code: a number, or an address that is resolved
/// when the named region's start is known.
#[derive(Clone, Copy, Debug, PartialEq, Eq, Structural, Hash)]
pub enum Word {
    Literal(u64),
    Pointer(IOList, u64),
}

impl NumberOfWords {
    /// The number that the name stands for.
    pub open spec fn spec_num_words(self) -> u64 {
        match self {
            NumberOfWords::N1 => 1,
            NumberOfWords::N2 => 2,
            NumberOfWords::N3 => 3,
            NumberOfWords::N4 => 4,
            NumberOfWords::N5 => 5,
        }
    }

    /// The number that the name stands for.
    #[verifier::when_used_as_spec(spec_num_words)]
    pub fn num_words(self) -> (r: u64)
        ensures
            r == self.spec_num_words(),
    {
        match self {
            NumberOfWords::N1 => 1,
            NumberOfWords::N2 => 2,
            NumberOfWords::N3 => 3,
            NumberOfWords::N4 => 4,
            NumberOfWords::N5 => 5,
        }
    }
}

impl Instruction {
    /// The instructions that change the flow of control or stop the machine.
    pub open spec fn is_control_flow(self) -> bool {
        match self {
            Instruction::Halt => true,
            Instruction::Skiz => true,
            Instruction::Call(_) => true,
            Instruction::Return => true,
            Instruction::Recurse => true,
            Instruction::RecurseOrReturn => true,
            _ => false,
        }
    }

    /// The number by which the machine knows the instruction.
    pub open spec fn spec_opcode(self) -> u64 {
        match self {
            Instruction::Pop(_) => 3,
            Instruction::Push(_) => 1,
            Instruction::ReadMem(_) => 41,
            Instruction::WriteMem(_) => 11,
            Instruction::AddI(_) => 49,
            Instruction::XxAdd => 66,
            Instruction::XxMul => 74,
            Instruction::Halt => 0,
            Instruction::Skiz => 2,
            Instruction::Call(_) => 33,
            Instruction::Return => 16,
            Instruction::Recurse => 24,
            Instruction::RecurseOrReturn => 32,
        }
    }

    /// The argument word, for the instructions that take an argument.
    pub open spec fn spec_arg(self) -> Option<Word> {
        match self {
            Instruction::Pop(n) => Some(Word::Literal(n.spec_num_words())),
            Instruction::Push(Operand::Constant(c)) => Some(Word::Literal(c)),
            Instruction::Push(Operand::Address(list, offset)) => Some(Word::Pointer(list, offset)),
            Instruction::ReadMem(n) => Some(Word::Literal(n.spec_num_words())),
            Instruction::WriteMem(n) => Some(Word::Literal(n.spec_num_words())),
            Instruction::AddI(c) => Some(Word::Literal(c)),
            Instruction::Call(target) => Some(Word::Literal(target)),
            _ => None,
        }
    }

    /// The words that the instruction assembles to: its opcode, then its
    /// argument if it takes one.
    pub open spec fn spec_words(self) -> Seq<Word> {
        match self.spec_arg() {
            Some(arg) => seq![Word::Literal(self.spec_opcode()), arg],
            None => seq![Word::Literal(self.spec_opcode())],
        }
    }

    /// The number by which the machine knows the instruction. Its lowest bit
    /// says whether an argument follows.
    #[verifier::when_used_as_spec(spec_opcode)]
    pub fn opcode(self) -> (r: u64)
        ensures
            r == self.spec_opcode(),
            (r % 2 == 1) == self.spec_arg().is_some(),
    {
        match self {
            Instruction::Pop(_) => 3,
            Instruction::Push(_) => 1,
            Instruction::ReadMem(_) => 41,
            Instruction::WriteMem(_) => 11,
            Instruction::AddI(_) => 49,
            Instruction::XxAdd => 66,
            Instruction::XxMul => 74,
            Instruction::Halt => 0,
            Instruction::Skiz => 2,
            Instruction::Call(_) => 33,
            Instruction::Return => 16,
            Instruction::Recurse => 24,
            Instruction::RecurseOrReturn => 32,
        }
    }

    /// The argument word, for the instructions that take an argument.
    #[verifier::when_used_as_spec(spec_arg)]
    pub fn arg(self) -> (r: Option<Word>)
        ensures
            r == self.spec_arg(),
    {
        match self {
            Instruction::Pop(n) => Some(Word::Literal(n.num_words())),
            Instruction::Push(Operand::Constant(c)) => Some(Word::Literal(c)),
            Instruction::Push(Operand::Address(list, offset)) => Some(Word::Pointer(list, offset)),
            Instruction::ReadMem(n) => Some(Word::Literal(n.num_words())),
            Instruction::WriteMem(n) => Some(Word::Literal(n.num_words())),
            Instruction::AddI(c) => Some(Word::Literal(c)),
            Instruction::Call(target) => Some(Word::Literal(target)),
            _ => None,
        }
    }
}

/// The words that a sequence of instructions assembles to.
pub open spec fn assembled(code: Seq<Instruction>) -> Seq<Word>
    decreases code.len(),
{
    if code.len() == 0 {
        Seq::<Word>::empty()
    } else {
        assembled(code.drop_last()) + code.last().spec_words()
    }
}

/// The number of words that the name with this number stands for.
pub open spec fn number_of_words(n: u64) -> Option<NumberOfWords> {
    if n == 1 {
        Some(NumberOfWords::N1)
    } else if n == 2 {
        Some(NumberOfWords::N2)
    } else if n == 3 {
        Some(NumberOfWords::N3)
    } else if n == 4 {
        Some(NumberOfWords::N4)
    } else if n == 5 {
        Some(NumberOfWords::N5)
    } else {
        None
    }
}

/// The instruction with the given opcode and argument word, if there is
/// one.
pub open spec fn instruction_of(opcode: u64, arg: Option<Word>) -> Option<Instruction> {
    match arg {
        None => {
            if opcode == 66 {
                Some(Instruction::XxAdd)
            } else if opcode == 74 {
                Some(Instruction::XxMul)
            } else if opcode == 0 {
                Some(Instruction::Halt)
            } else if opcode == 2 {
                Some(Instruction::Skiz)
            } else if opcode == 16 {
                Some(Instruction::Return)
            } else if opcode == 24 {
                Some(Instruction::Recurse)
            } else if opcode == 32 {
                Some(Instruction::RecurseOrReturn)
            } else {
                None
            }
        },
        Some(Word::Pointer(list, offset)) => {
            if opcode == 1 {
                Some(Instruction::Push(Operand::Address(list, offset)))
            } else {
                None
            }
        },
        Some(Word::Literal(value)) => {
            if opcode == 1 {
                Some(Instruction::Push(Operand::Constant(value)))
            } else if opcode == 49 {
                Some(Instruction::AddI(value))
            } else if opcode == 33 {
                Some(Instruction::Call(value))
            } else {
                match number_of_words(value) {
                    Some(n) => {
                        if opcode == 3 {
                            Some(Instruction::Pop(n))
                        } else if opcode == 41 {
                            Some(Instruction::ReadMem(n))
                        } else if opcode == 11 {
                            Some(Instruction::WriteMem(n))
                        } else {
                            None
                        }
                    },
                    None => None,
                }
            }
        },
    }
}

/// The instructions that the words stand for, if the words are the words of
/// instructions: each instruction is an opcode, followed by an argument if
/// the opcode is odd.
pub open spec fn disassembled(words: Seq<Word>) -> Option<Seq<Instruction>>
    decreases words.len(),
{
    if words.len() == 0 {
        Some(Seq::<Instruction>::empty())
    } else {
        match words[0] {
            Word::Pointer(_, _) => None,
            Word::Literal(opcode) => {
                let takes_argument = opcode % 2 == 1;
                if takes_argument && words.len() < 2 {
                    None
                } else {
                    let arg = if takes_argument {
                        Some(words[1])
                    } else {
                        None
                    };
                    let rest = if takes_argument {
                        words.skip(2)
                    } else {
                        words.skip(1)
                    };
                    match (instruction_of(opcode, arg), disassembled(rest)) {
                        (Some(first), Some(others)) => Some(seq![first] + others),
                        _ => None,
                    }
                }
            },
        }
    }
}

/// The words of an instruction followed by others are the instruction's
/// words followed by the words of the others.
pub proof fn lemma_assembled_first(first: Instruction, others: Seq<Instruction>)
    ensures
        assembled(seq![first] + others) == first.spec_words() + assembled(others),
    decreases others.len(),
{
    let code = seq![first] + others;
    if others.len() == 0 {
        assert(code.drop_last() =~= Seq::<Instruction>::empty());
        assert(code.last() == first);
        assert(assembled(code.drop_last()) =~= Seq::<Word>::empty());
        assert(assembled(code) =~= first.spec_words() + assembled(others));
    } else {
        assert(code.drop_last() =~= seq![first] + others.drop_last());
        assert(code.last() == others.last());
        lemma_assembled_first(first, others.drop_last());
        assert(assembled(code) =~= first.spec_words() + assembled(others));
    }
}

/// An instruction is the instruction of its opcode and its argument.
pub proof fn lemma_instruction_of(i: Instruction)
    ensures
        instruction_of(i.spec_opcode(), i.spec_arg()) == Some(i),
        (i.spec_opcode() % 2 == 1) == i.spec_arg().is_some(),
{
}

/// Assembling loses nothing: the words of a sequence of instructions stand
/// for those instructions and no others.
pub proof fn lemma_disassembled_assembled(code: Seq<Instruction>)
    ensures
        disassembled(assembled(code)) == Some(code),
    decreases code.len(),
{
    if code.len() == 0 {
        assert(assembled(code) =~= Seq::<Word>::empty());
    } else {
        let first = code[0];
        let others = code.drop_first();
        assert(code =~= seq![first] + others);
        lemma_assembled_first(first, others);
        lemma_instruction_of(first);
        lemma_disassembled_assembled(others);
        let words = assembled(code);
        let own = first.spec_words();
        assert(words == own + assembled(others));
        assert(words[0] == Word::Literal(first.spec_opcode()));
        if first.spec_arg().is_some() {
            assert(words[1] == first.spec_arg().unwrap());
            assert(words.skip(2) =~= assembled(others));
        } else {
            assert(words.skip(1) =~= assembled(others));
        }
    }
}

/// No instruction of `code` changes the flow of control or halts.
pub open spec fn straight_line(code: Seq<Instruction>) -> bool {
    forall|i: int| 0 <= i < code.len() ==> !(#[trigger] code[i]).is_control_flow()
}

/// Assembles instructions into words.
pub fn assemble(code: &Vec<Instruction>) -> (words: Vec<Word>)
    ensures
        words@ == assembled(code@),
{
    let mut words: Vec<Word> = Vec::new();
    let mut i: usize = 0;
    while i < code.len()
        invariant
            i <= code@.len(),
            words@ == assembled(code@.take(i as int)),
        decreases code@.len() - i,
    {
        let instruction = code[i];
        proof {
            assert(code@.take(i + 1).drop_last() == code@.take(i as int));
        }
        words.push(Word::Literal(instruction.opcode()));
        match instruction.arg() {
            Some(arg) => {
                words.push(arg);
            },
            None => {},
        }
        proof {
            assert(words@ =~= assembled(code@.take(i as int)) + instruction.spec_words());
        }
        i = i + 1;
    }
    proof {
        assert(code@.take(i as int) == code@);
    }
    words
}

} // verus!
