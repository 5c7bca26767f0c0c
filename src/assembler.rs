use vstd::prelude::*;

use crate::instruction::{
    base_of, entries, entry_of, lemma_mnemonic_text, Arg, Entry, Instruction, Label, Operand,
    Program,
};
use crate::machine::{in_word_range, words};
use crate::text::{decimal, int_text};

verus! {

/// `i` is the first position of `es` that carries the label `name`.
pub open spec fn is_first_label(es: Seq<Entry>, name: Seq<char>, i: int) -> bool {
    &&& 0 <= i < es.len()
    &&& es[i].label == Option::Some(name)
    &&& forall|j: int| 0 <= j < i ==> (#[trigger] es[j]).label != Option::Some(name)
}

/// The position of the first entry labelled `name`, if there is one.
pub open spec fn label_position(es: Seq<Entry>, name: Seq<char>) -> Option<int> {
    if exists|i: int| is_first_label(es, name, i) {
        Option::Some(choose|i: int| is_first_label(es, name, i))
    } else {
        Option::None
    }
}

/// The value of an operand in a program: a literal stands for itself, a label
/// for the position of the first entry that carries it.
pub open spec fn resolve(a: Arg, es: Seq<Entry>) -> Result<int, Seq<char>> {
    match a {
        Arg::Num(v) => Ok(v),
        Arg::Name(name) => match label_position(es, name) {
            Option::Some(i) => Ok(i),
            Option::None => Err("Invalid label... "@ + name),
        },
    }
}

/// The memory word of one entry: DAT stores its operand's value, an instruction
/// with an address adds it to its base, the others are their base alone.
pub open spec fn encode(e: Entry, es: Seq<Entry>) -> Result<int, Seq<char>> {
    match e.arg {
        Option::None => Ok(base_of(e.mnemonic)),
        Option::Some(a) => match resolve(a, es) {
            Err(msg) => Err(msg),
            Ok(v) => if e.mnemonic == "DAT"@ {
                if in_word_range(v) {
                    Ok(v)
                } else {
                    Err("Invalid value... "@ + decimal(v))
                }
            } else if 0 <= v < 100 {
                Ok(base_of(e.mnemonic) + v)
            } else {
                Err("Invalid address... "@ + decimal(v))
            },
        },
    }
}

/// The error of the first of the first `n` entries that cannot be encoded.
pub open spec fn first_error(es: Seq<Entry>, n: nat) -> Option<Seq<char>>
    decreases n,
{
    if n == 0 {
        Option::None
    } else {
        match first_error(es, (n - 1) as nat) {
            Option::Some(msg) => Option::Some(msg),
            Option::None => match encode(es[n - 1], es) {
                Err(msg) => Option::Some(msg),
                Ok(_) => Option::None,
            },
        }
    }
}

/// The memory image: entry `i` encoded in word `i`, zero past the program.
pub open spec fn image(es: Seq<Entry>) -> Seq<int> {
    Seq::new(100, |i: int| if i < es.len() { encode(es[i], es)->Ok_0 } else { 0 })
}

/// What assembling a program gives: an error for a program that does not fit
/// in memory, else its image, or the first entry's error.
pub open spec fn assembly(es: Seq<Entry>) -> Result<Seq<int>, Seq<char>> {
    if es.len() > 100 {
        Err("Program does not fit in memory"@)
    } else {
        match first_error(es, es.len()) {
            Option::Some(msg) => Err(msg),
            Option::None => Ok(image(es)),
        }
    }
}

proof fn lemma_first_label_unique(es: Seq<Entry>, name: Seq<char>, i: int)
    requires
        is_first_label(es, name, i),
    ensures
        label_position(es, name) == Option::Some(i),
{
    let k = choose|k: int| is_first_label(es, name, k);
    if k < i {
        assert(es[k].label != Option::Some(name));
    } else if k > i {
        assert(es[i].label != Option::Some(name));
    }
}

impl Operand {
    /// Resolves the operand against `program`: a literal is its own value, a
    /// label is the position of the first instruction that carries it.
    pub fn get_value(&self, program: &Program) -> (r: Result<i16, String>)
        requires
            program.len() <= 100,
        ensures
            match r {
                Ok(v) => resolve(self@, entries(program@)) == Ok::<int, Seq<char>>(v as int),
                Err(e) => resolve(self@, entries(program@)) == Err::<int, Seq<char>>(e@),
            },
    {
        match self {
            Operand::Value(val) => Ok(*val),
            Operand::Label(lbl) => {
                let ghost es = entries(program@);
                let ghost name = lbl@;
                let mut pos: usize = 0;
                while pos < program.len()
                    invariant
                        pos <= program.len() <= 100,
                        es == entries(program@),
                        name == lbl@,
                        self@ == Arg::Name(name),
                        forall|j: int| 0 <= j < pos ==> (#[trigger] es[j]).label != Option::Some(name),
                    decreases program.len() - pos,
                {
                    let hit = match &program[pos].0 {
                        Label::LBL(s) => s.eq(lbl),
                        Label::Unlabeled => false,
                    };
                    assert(es[pos as int] == entry_of(program@[pos as int]));
                    if hit {
                        assert(es.len() == program.len());
                        assert(is_first_label(es, name, pos as int));
                        proof {
                            lemma_first_label_unique(es, name, pos as int);
                            assert(resolve(self@, es) == Ok::<int, Seq<char>>(pos as int));
                        }
                        return Ok(pos as i16);
                    }
                    pos = pos + 1;
                }
                let mut e = String::from_str("Invalid label... ");
                e.append(lbl.as_str());
                Err(e)
            },
        }
    }
}

/// Encodes the instruction at one position of `program` into its memory word.
fn encode_instruction(instruction: &Instruction, program: &Program) -> (r: Result<i16, String>)
    requires
        program.len() <= 100,
    ensures
        match r {
            Ok(w) => encode(entry_of((Label::Unlabeled, *instruction)), entries(program@))
                == Ok::<int, Seq<char>>(w as int) && in_word_range(w as int),
            Err(e) => encode(entry_of((Label::Unlabeled, *instruction)), entries(program@))
                == Err::<int, Seq<char>>(e@),
        },
{
    proof {
        lemma_mnemonic_text();
    }
    match instruction {
        Instruction::DAT(operand) => match operand.get_value(program) {
            Ok(v) => if -999 <= v && v <= 999 {
                Ok(v)
            } else {
                let mut e = String::from_str("Invalid value... ");
                let n = int_text(v);
                e.append(n.as_str());
                Err(e)
            },
            Err(e) => Err(e),
        },
        Instruction::INP | Instruction::OUT | Instruction::OTC | Instruction::HLT => Ok(
            instruction.get_base(),
        ),
        Instruction::LDA(operand)
        | Instruction::STA(operand)
        | Instruction::ADD(operand)
        | Instruction::SUB(operand)
        | Instruction::BRZ(operand)
        | Instruction::BRP(operand)
        | Instruction::BRA(operand) => match operand.get_value(program) {
            Ok(v) => if 0 <= v && v < 100 {
                Ok(instruction.get_base() + v)
            } else {
                let mut e = String::from_str("Invalid address... ");
                let n = int_text(v);
                e.append(n.as_str());
                Err(e)
            },
            Err(e) => Err(e),
        },
    }
}

/// Assembles a program into a memory image: word `i` encodes instruction `i`,
/// the words past the program are zero, and every word lies in [-999, 999].
/// Fails on a program longer than memory, and stops at the first operand that
/// does not resolve, or resolves to an address outside memory or a DAT value
/// outside [-999, 999].
pub fn assemble(program: Program) -> (r: Result<[i16; 100], String>)
    ensures
        match r {
            Ok(ram) => assembly(entries(program@)) == Ok::<Seq<int>, Seq<char>>(words(ram))
                && forall|i: int| 0 <= i < 100 ==> in_word_range(#[trigger] ram[i] as int),
            Err(e) => assembly(entries(program@)) == Err::<Seq<int>, Seq<char>>(e@),
        },
{
    let ghost es = entries(program@);
    if program.len() > 100 {
        return Err(String::from_str("Program does not fit in memory"));
    }
    let mut ram: [i16; 100] = [0; 100];
    let mut i: usize = 0;
    while i < program.len()
        invariant
            i <= program.len() <= 100,
            es == entries(program@),
            first_error(es, i as nat) is None,
            forall|j: int| 0 <= j < i ==> #[trigger] words(ram)[j] == image(es)[j],
            forall|j: int| i <= j < 100 ==> #[trigger] words(ram)[j] == 0,
            forall|j: int| 0 <= j < 100 ==> in_word_range(#[trigger] ram[j] as int),
        decreases program.len() - i,
    {
        let w = encode_instruction(&program[i].1, &program);
        assert(entry_of((Label::Unlabeled, program@[i as int].1)).mnemonic == es[i as int].mnemonic);
        assert(entry_of((Label::Unlabeled, program@[i as int].1)).arg == es[i as int].arg);
        match w {
            Ok(w) => {
                let ghost before = words(ram);
                ram[i] = w;
                assert(words(ram) =~= before.update(i as int, w as int));
                assert(first_error(es, (i + 1) as nat) is None);
                i = i + 1;
            },
            Err(e) => {
                assert(first_error(es, (i + 1) as nat) == Option::Some(e@));
                proof {
                    lemma_first_error_sticks(es, (i + 1) as nat, es.len());
                }
                return Err(e);
            },
        }
    }
    assert(words(ram) =~= image(es));
    Ok(ram)
}

proof fn lemma_first_error_sticks(es: Seq<Entry>, n: nat, m: nat)
    requires
        n <= m,
        first_error(es, n) is Some,
    ensures
        first_error(es, m) == first_error(es, n),
    decreases m - n,
{
    if n < m {
        lemma_first_error_sticks(es, n, (m - 1) as nat);
    }
}

proof fn lemma_first_error_clear(es: Seq<Entry>, n: nat)
    requires
        n <= es.len(),
        forall|j: int| 0 <= j < n ==> (#[trigger] encode(es[j], es)) is Ok,
    ensures
        first_error(es, n) is None,
    decreases n,
{
    if n > 0 {
        lemma_first_error_clear(es, (n - 1) as nat);
        assert(encode(es[n - 1], es) is Ok);
    }
}

/// Assembling is deterministic: two programs whose labels and instructions
/// read the same assemble to the same memory image, or fail with the same error.
pub proof fn lemma_assemble_deterministic(p: Seq<(Label, Instruction)>, q: Seq<(Label, Instruction)>)
    requires
        entries(p) == entries(q),
    ensures
        assembly(entries(p)) == assembly(entries(q)),
{
}

/// Label resolution is positional: a label resolves to the position of the
/// instruction that carries it (the first one, where several carry it).
pub proof fn lemma_label_positional(es: Seq<Entry>, i: int)
    requires
        0 <= i < es.len() <= 100,
        es[i].label is Some,
        forall|j: int| 0 <= j < i ==> (#[trigger] es[j]).label != es[i].label,
    ensures
        resolve(Arg::Name(es[i].label->0), es) == Ok::<int, Seq<char>>(i),
{
    lemma_first_label_unique(es, es[i].label->0, i);
}

/// An operand that names a label no instruction carries makes assembly fail;
/// when every earlier instruction encodes, the error names that label.
pub proof fn lemma_undefined_label(es: Seq<Entry>, k: int, name: Seq<char>)
    requires
        0 <= k < es.len(),
        es[k].arg == Option::Some(Arg::Name(name)),
        forall|j: int| 0 <= j < es.len() ==> (#[trigger] es[j]).label != Option::Some(name),
    ensures
        assembly(es) is Err,
        es.len() <= 100 && (forall|j: int| 0 <= j < k ==> (#[trigger] encode(es[j], es)) is Ok)
            ==> assembly(es)
            == Err::<Seq<int>, Seq<char>>("Invalid label... "@ + name),
{
    assert(!exists|i: int| is_first_label(es, name, i));
    assert(encode(es[k], es) == Err::<int, Seq<char>>("Invalid label... "@ + name));
    assert(first_error(es, (k + 1) as nat) is Some);
    lemma_first_error_sticks(es, (k + 1) as nat, es.len());
    if forall|j: int| 0 <= j < k ==> (#[trigger] encode(es[j], es)) is Ok {
        lemma_first_error_clear(es, k as nat);
    }
}

proof fn lemma_first_error_none(es: Seq<Entry>, n: nat, j: int)
    requires
        n <= es.len(),
        first_error(es, n) is None,
        0 <= j < n,
    ensures
        encode(es[j], es) is Ok,
    decreases n,
{
    if j < n - 1 {
        lemma_first_error_none(es, (n - 1) as nat, j);
    }
}

/// In an assembled image, an operand that names a label contributes the
/// position of the first instruction carrying that label: the word is that
/// position for DAT, and the instruction's base plus that position otherwise.
pub proof fn lemma_label_in_image(es: Seq<Entry>, k: int, i: int)
    requires
        assembly(es) is Ok,
        0 <= k < es.len(),
        0 <= i < es.len(),
        es[i].label is Some,
        forall|j: int| 0 <= j < i ==> (#[trigger] es[j]).label != es[i].label,
        es[k].arg == Option::Some(Arg::Name(es[i].label->0)),
    ensures
        assembly(es)->Ok_0[k] == if es[k].mnemonic == "DAT"@ {
            i
        } else {
            base_of(es[k].mnemonic) + i
        },
{
    lemma_first_label_unique(es, es[i].label->0, i);
    lemma_first_error_none(es, es.len(), k);
}

} // verus!
