use vstd::prelude::*;

use crate::text::{int_literal, parse_i16, same_text, upper_of, uppercase};

verus! {

/// The operand of an instruction: a number, or the name of a label.
#[derive(Debug)]
pub enum Operand {
    Value(i16),
    Label(String),
}

/// The label attached to an instruction, if any.
#[derive(Debug)]
pub enum Label {
    LBL(String),
    Unlabeled,
}

/// One of the twelve instructions, with its operand where it takes one.
#[derive(Debug)]
pub enum Instruction {
    LDA(Operand),
    STA(Operand),
    ADD(Operand),
    SUB(Operand),
    INP,
    OUT,
    OTC,
    HLT,
    BRZ(Operand),
    BRP(Operand),
    BRA(Operand),
    DAT(Operand),
}

/// An ordered sequence of labelled instructions; an instruction's position is
/// its address.
pub type Program = Vec<(Label, Instruction)>;

/// An operand as a mathematical value.
pub ghost enum Arg {
    Num(int),
    Name(Seq<char>),
}

/// A labelled instruction as mathematical values: the label's name, the
/// instruction's upper-case mnemonic, and its operand.
pub ghost struct Entry {
    pub label: Option<Seq<char>>,
    pub mnemonic: Seq<char>,
    pub arg: Option<Arg>,
}

impl View for Operand {
    type V = Arg;

    open spec fn view(&self) -> Arg {
        match self {
            Operand::Value(v) => Arg::Num(*v as int),
            Operand::Label(s) => Arg::Name(s@),
        }
    }
}

impl View for Label {
    type V = Option<Seq<char>>;

    open spec fn view(&self) -> Option<Seq<char>> {
        match self {
            Label::LBL(s) => Option::Some(s@),
            Label::Unlabeled => Option::None,
        }
    }
}

impl PartialEq for Label {
    fn eq(&self, other: &Label) -> (r: bool) {
        match self {
            Label::LBL(a) => match other {
                Label::LBL(b) => a.eq(b),
                Label::Unlabeled => false,
            },
            Label::Unlabeled => match other {
                Label::LBL(_) => false,
                Label::Unlabeled => true,
            },
        }
    }
}

impl vstd::std_specs::cmp::PartialEqSpecImpl for Label {
    open spec fn obeys_eq_spec() -> bool {
        true
    }

    open spec fn eq_spec(&self, other: &Label) -> bool {
        self@ == other@
    }
}

/// The twelve mnemonics.
pub open spec fn is_mnemonic(m: Seq<char>) -> bool {
    ||| m == "LDA"@
    ||| m == "STA"@
    ||| m == "ADD"@
    ||| m == "SUB"@
    ||| m == "INP"@
    ||| m == "OUT"@
    ||| m == "OTC"@
    ||| m == "HLT"@
    ||| m == "BRZ"@
    ||| m == "BRP"@
    ||| m == "BRA"@
    ||| m == "DAT"@
}

/// The mnemonics whose instruction cannot do without an operand.
pub open spec fn needs_operand(m: Seq<char>) -> bool {
    ||| m == "LDA"@
    ||| m == "STA"@
    ||| m == "ADD"@
    ||| m == "SUB"@
    ||| m == "BRZ"@
    ||| m == "BRP"@
    ||| m == "BRA"@
}

/// The constant that an instruction adds to its resolved operand.
pub open spec fn base_of(m: Seq<char>) -> int {
    if m == "LDA"@ {
        500
    } else if m == "STA"@ {
        300
    } else if m == "ADD"@ {
        100
    } else if m == "SUB"@ {
        200
    } else if m == "INP"@ {
        901
    } else if m == "OUT"@ {
        902
    } else if m == "OTC"@ {
        922
    } else if m == "BRZ"@ {
        700
    } else if m == "BRP"@ {
        800
    } else if m == "BRA"@ {
        600
    } else {
        0
    }
}

/// The operand that the instruction named `m` keeps of `operand`: its own for
/// one that needs it, the given one or zero for DAT, none for the others.
pub open spec fn kept_operand(m: Seq<char>, operand: Option<Operand>) -> Option<Operand> {
    if needs_operand(m) {
        operand
    } else if m == "DAT"@ {
        match operand {
            Option::Some(o) => Option::Some(o),
            Option::None => Option::Some(Operand::Value(0)),
        }
    } else {
        Option::None
    }
}

/// The result of building an instruction from the exact mnemonic `m`: nothing
/// for an unknown mnemonic, an error for a missing operand, else the instruction.
pub open spec fn built(m: Seq<char>, operand: Option<Operand>, r: Result<Option<Instruction>, String>) -> bool {
    match r {
        Ok(Option::None) => !is_mnemonic(m),
        Ok(Option::Some(i)) => is_mnemonic(m) && !(needs_operand(m) && operand is None)
            && i.mnemonic() == m && i.operand() == kept_operand(m, operand),
        Err(e) => is_mnemonic(m) && needs_operand(m) && operand is None
            && e@ == m + " requires an operand"@,
    }
}

/// What the text of the twelve mnemonics is.
pub proof fn lemma_mnemonic_text()
    ensures
        "LDA"@ == seq!['L', 'D', 'A'],
        "STA"@ == seq!['S', 'T', 'A'],
        "ADD"@ == seq!['A', 'D', 'D'],
        "SUB"@ == seq!['S', 'U', 'B'],
        "INP"@ == seq!['I', 'N', 'P'],
        "OUT"@ == seq!['O', 'U', 'T'],
        "OTC"@ == seq!['O', 'T', 'C'],
        "HLT"@ == seq!['H', 'L', 'T'],
        "BRZ"@ == seq!['B', 'R', 'Z'],
        "BRP"@ == seq!['B', 'R', 'P'],
        "BRA"@ == seq!['B', 'R', 'A'],
        "DAT"@ == seq!['D', 'A', 'T'],
{
    reveal_strlit("LDA");
    reveal_strlit("STA");
    reveal_strlit("ADD");
    reveal_strlit("SUB");
    reveal_strlit("INP");
    reveal_strlit("OUT");
    reveal_strlit("OTC");
    reveal_strlit("HLT");
    reveal_strlit("BRZ");
    reveal_strlit("BRP");
    reveal_strlit("BRA");
    reveal_strlit("DAT");
    assert("LDA"@ =~= seq!['L', 'D', 'A']);
    assert("STA"@ =~= seq!['S', 'T', 'A']);
    assert("ADD"@ =~= seq!['A', 'D', 'D']);
    assert("SUB"@ =~= seq!['S', 'U', 'B']);
    assert("INP"@ =~= seq!['I', 'N', 'P']);
    assert("OUT"@ =~= seq!['O', 'U', 'T']);
    assert("OTC"@ =~= seq!['O', 'T', 'C']);
    assert("HLT"@ =~= seq!['H', 'L', 'T']);
    assert("BRZ"@ =~= seq!['B', 'R', 'Z']);
    assert("BRP"@ =~= seq!['B', 'R', 'P']);
    assert("BRA"@ =~= seq!['B', 'R', 'A']);
    assert("DAT"@ =~= seq!['D', 'A', 'T']);
}

/// The operand that a token stands for: a number where it reads as one, else a
/// label name.
pub open spec fn token_arg(t: Seq<char>) -> Arg {
    match int_literal(t) {
        Option::Some(v) => Arg::Num(v as int),
        Option::None => Arg::Name(t),
    }
}

impl Operand {
    /// Reads a token as an operand: a literal when it parses as an `i16`,
    /// a label reference otherwise.
    pub fn from_token(s: &str) -> (r: Operand)
        ensures
            r@ == token_arg(s@),
    {
        match parse_i16(s) {
            Some(v) => Operand::Value(v),
            None => Operand::Label(String::from_str(s)),
        }
    }
}

impl std::str::FromStr for Operand {
    type Err = String;

    fn from_str(s: &str) -> Result<Operand, String> {
        Ok(Operand::from_token(s))
    }
}

impl Instruction {
    /// The instruction's mnemonic in upper case.
    pub open spec fn mnemonic(&self) -> Seq<char> {
        match self {
            Instruction::LDA(_) => "LDA"@,
            Instruction::STA(_) => "STA"@,
            Instruction::ADD(_) => "ADD"@,
            Instruction::SUB(_) => "SUB"@,
            Instruction::INP => "INP"@,
            Instruction::OUT => "OUT"@,
            Instruction::OTC => "OTC"@,
            Instruction::HLT => "HLT"@,
            Instruction::BRZ(_) => "BRZ"@,
            Instruction::BRP(_) => "BRP"@,
            Instruction::BRA(_) => "BRA"@,
            Instruction::DAT(_) => "DAT"@,
        }
    }

    /// The instruction's operand, if it carries one.
    pub open spec fn operand(&self) -> Option<Operand> {
        match self {
            Instruction::LDA(o) => Option::Some(*o),
            Instruction::STA(o) => Option::Some(*o),
            Instruction::ADD(o) => Option::Some(*o),
            Instruction::SUB(o) => Option::Some(*o),
            Instruction::BRZ(o) => Option::Some(*o),
            Instruction::BRP(o) => Option::Some(*o),
            Instruction::BRA(o) => Option::Some(*o),
            Instruction::DAT(o) => Option::Some(*o),
            _ => Option::None,
        }
    }

    /// Builds an instruction from its exact upper-case mnemonic.
    pub fn from_mnemonic(m: &str, operand: Option<Operand>) -> (r: Result<Option<Instruction>, String>)
        ensures
            built(m@, operand, r),
    {
        proof {
            lemma_mnemonic_text();
        }
        let with_operand = |operand: Option<Operand>| -> (r: Result<Operand, String>)
            ensures
                match r {
                    Ok(o) => operand == Option::Some(o),
                    Err(e) => operand is None && e@ == m@ + " requires an operand"@,
                },
        {
            match operand {
                Some(o) => Ok(o),
                None => {
                    let mut e = String::from_str(m);
                    e.append(" requires an operand");
                    Err(e)
                },
            }
        };
        if same_text(m, "LDA") {
            match with_operand(operand) {
                Ok(o) => Ok(Some(Instruction::LDA(o))),
                Err(e) => Err(e),
            }
        } else if same_text(m, "STA") {
            match with_operand(operand) {
                Ok(o) => Ok(Some(Instruction::STA(o))),
                Err(e) => Err(e),
            }
        } else if same_text(m, "ADD") {
            match with_operand(operand) {
                Ok(o) => Ok(Some(Instruction::ADD(o))),
                Err(e) => Err(e),
            }
        } else if same_text(m, "SUB") {
            match with_operand(operand) {
                Ok(o) => Ok(Some(Instruction::SUB(o))),
                Err(e) => Err(e),
            }
        } else if same_text(m, "INP") {
            Ok(Some(Instruction::INP))
        } else if same_text(m, "OUT") {
            Ok(Some(Instruction::OUT))
        } else if same_text(m, "OTC") {
            Ok(Some(Instruction::OTC))
        } else if same_text(m, "HLT") {
            Ok(Some(Instruction::HLT))
        } else if same_text(m, "BRZ") {
            match with_operand(operand) {
                Ok(o) => Ok(Some(Instruction::BRZ(o))),
                Err(e) => Err(e),
            }
        } else if same_text(m, "BRP") {
            match with_operand(operand) {
                Ok(o) => Ok(Some(Instruction::BRP(o))),
                Err(e) => Err(e),
            }
        } else if same_text(m, "BRA") {
            match with_operand(operand) {
                Ok(o) => Ok(Some(Instruction::BRA(o))),
                Err(e) => Err(e),
            }
        } else if same_text(m, "DAT") {
            match operand {
                Some(o) => Ok(Some(Instruction::DAT(o))),
                None => Ok(Some(Instruction::DAT(Operand::Value(0)))),
            }
        } else {
            Ok(None)
        }
    }

    /// Builds an instruction from a mnemonic in any case: `None` when no
    /// instruction has that mnemonic, an error when a needed operand is missing.
    pub fn from_string(opcode: &str, operand: Option<Operand>) -> (r: Result<Option<Instruction>, String>)
        ensures
            built(upper_of(opcode@), operand, r),
    {
        let upper = uppercase(opcode);
        Instruction::from_mnemonic(upper.as_str(), operand)
    }

    /// The constant that the instruction adds to its resolved operand.
    pub fn get_base(&self) -> (r: i16)
        ensures
            r as int == base_of(self.mnemonic()),
    {
        proof {
            lemma_mnemonic_text();
        }
        match self {
            Instruction::LDA(_) => 500,
            Instruction::STA(_) => 300,
            Instruction::ADD(_) => 100,
            Instruction::SUB(_) => 200,
            Instruction::INP => 901,
            Instruction::OUT => 902,
            Instruction::OTC => 922,
            Instruction::HLT => 0,
            Instruction::BRZ(_) => 700,
            Instruction::BRP(_) => 800,
            Instruction::BRA(_) => 600,
            Instruction::DAT(_) => 0,
        }
    }
}

/// The mathematical form of a labelled instruction.
pub open spec fn entry_of(e: (Label, Instruction)) -> Entry {
    Entry {
        label: e.0@,
        mnemonic: e.1.mnemonic(),
        arg: match e.1.operand() {
            Option::Some(o) => Option::Some(o@),
            Option::None => Option::None,
        },
    }
}

/// The mathematical form of a program.
pub open spec fn entries(p: Seq<(Label, Instruction)>) -> Seq<Entry> {
    p.map_values(|e: (Label, Instruction)| entry_of(e))
}

} // verus!
