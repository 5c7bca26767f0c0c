use vstd::prelude::*;

use crate::instruction::{
    entries, entry_of, is_mnemonic, needs_operand, token_arg, Arg, Entry, Instruction, Label,
    Operand, Program,
};
use crate::text::upper_of;

verus! {

/// The lines of a text.
pub uninterp spec fn lines_of(s: Seq<char>) -> Seq<Seq<char>>;

/// The whitespace-separated words of a text.
pub uninterp spec fn words_of(s: Seq<char>) -> Seq<Seq<char>>;

/// The texts of a sequence of strings.
pub open spec fn texts(v: Seq<String>) -> Seq<Seq<char>> {
    v.map_values(|s: String| s@)
}

/// Relies on `str::lines`: the result depends on the text alone.
#[verifier::external_body]
fn split_lines(code: &str) -> (r: Vec<String>)
    ensures
        texts(r@) == lines_of(code@),
{
    code.lines().map(|l| l.to_string()).collect()
}

/// Relies on `str::split_whitespace`: the result depends on the text alone.
#[verifier::external_body]
fn split_words(line: &str) -> (r: Vec<String>)
    ensures
        texts(r@) == words_of(line@),
{
    line.split_whitespace().map(|w| w.to_string()).collect()
}

/// A token that opens a comment.
pub open spec fn is_comment(t: Seq<char>) -> bool {
    t.len() >= 2 && t[0] == '/' && t[1] == '/'
}

/// The operand kept by the instruction with upper-case mnemonic `u`.
pub open spec fn kept_arg(u: Seq<char>, a: Option<Arg>) -> Option<Arg> {
    if needs_operand(u) {
        a
    } else if u == "DAT"@ {
        match a {
            Option::Some(x) => Option::Some(x),
            Option::None => Option::Some(Arg::Num(0)),
        }
    } else {
        Option::None
    }
}

/// Building an instruction from the mnemonic token `m`, in any case, with operand
/// `a`: nothing for an unknown mnemonic, an error for a missing operand, else the
/// upper-case mnemonic and the operand kept.
pub open spec fn build(m: Seq<char>, a: Option<Arg>) -> Result<Option<(Seq<char>, Option<Arg>)>, Seq<char>> {
    let u = upper_of(m);
    if !is_mnemonic(u) {
        Ok(Option::None)
    } else if needs_operand(u) && a is None {
        Err(u + " requires an operand"@)
    } else {
        Ok(Option::Some((u, kept_arg(u, a))))
    }
}

/// `build` for an instruction that must exist: an unknown mnemonic is an error.
pub open spec fn build_known(m: Seq<char>, a: Option<Arg>, label: Option<Seq<char>>) -> Result<Option<Entry>, Seq<char>> {
    match build(m, a) {
        Err(e) => Err(e),
        Ok(Option::None) => Err("Invalid opcode... "@ + m),
        Ok(Option::Some((u, k))) => Ok(Option::Some(Entry { label, mnemonic: u, arg: k })),
    }
}

/// How the line `l`, split into the tokens `t`, reads: no instruction for a blank
/// or comment line; one token is a bare instruction; two are a mnemonic and its
/// operand when the first token builds an instruction, else a label and a bare
/// instruction; three are a label, a mnemonic and an operand; more are an error.
pub open spec fn read_line(l: Seq<char>, t: Seq<Seq<char>>) -> Result<Option<Entry>, Seq<char>> {
    if t.len() == 0 || is_comment(t[0]) {
        Ok(Option::None)
    } else if t.len() == 1 {
        build_known(t[0], Option::None, Option::None)
    } else if t.len() == 2 {
        match build(t[0], Option::Some(token_arg(t[1]))) {
            Err(e) => Err(e),
            Ok(Option::Some((u, k))) => Ok(Option::Some(Entry { label: Option::None, mnemonic: u, arg: k })),
            Ok(Option::None) => build_known(t[1], Option::None, Option::Some(t[0])),
        }
    } else if t.len() == 3 {
        build_known(t[1], Option::Some(token_arg(t[2])), Option::Some(t[0]))
    } else {
        Err("Error while reading line: "@ + l)
    }
}

/// How a sequence of lines reads: the entries of its lines in order, or the
/// error of the first line that does not read.
pub open spec fn read_lines(ls: Seq<Seq<char>>) -> Result<Seq<Entry>, Seq<char>>
    decreases ls.len(),
{
    if ls.len() == 0 {
        Ok(Seq::empty())
    } else {
        match read_lines(ls.drop_last()) {
            Err(e) => Err(e),
            Ok(es) => match read_line(ls.last(), words_of(ls.last())) {
                Err(e) => Err(e),
                Ok(Option::None) => Ok(es),
                Ok(Option::Some(x)) => Ok(es.push(x)),
            },
        }
    }
}

/// An executable line result agrees with the model's.
pub open spec fn line_read(r: Result<Option<(Label, Instruction)>, String>, m: Result<Option<Entry>, Seq<char>>) -> bool {
    match r {
        Ok(Option::None) => m == Ok::<Option<Entry>, Seq<char>>(Option::None),
        Ok(Option::Some(e)) => m == Ok::<Option<Entry>, Seq<char>>(Option::Some(entry_of(e))),
        Err(e) => m == Err::<Option<Entry>, Seq<char>>(e@),
    }
}

fn opens_comment(t: &str) -> (r: bool)
    ensures
        r == is_comment(t@),
{
    let n = t.unicode_len();
    n >= 2 && t.get_char(0) == '/' && t.get_char(1) == '/'
}

fn invalid_opcode(token: &String) -> (r: String)
    ensures
        r@ == "Invalid opcode... "@ + token@,
{
    let mut e = String::from_str("Invalid opcode... ");
    e.append(token.as_str());
    e
}

/// Reads one source line, already split into `tokens`, as an optionally
/// labelled instruction; `None` for a blank or comment line.
pub fn parse_line(line: &str, tokens: &Vec<String>) -> (r: Result<Option<(Label, Instruction)>, String>)
    ensures
        line_read(r, read_line(line@, texts(tokens@))),
{
    let ghost t = texts(tokens@);
    let n = tokens.len();
    if n == 0 {
        return Ok(None);
    }
    assert(t[0] == tokens@[0]@);
    if opens_comment(tokens[0].as_str()) {
        return Ok(None);
    }
    if n == 1 {
        match Instruction::from_string(tokens[0].as_str(), None) {
            Err(e) => Err(e),
            Ok(None) => Err(invalid_opcode(&tokens[0])),
            Ok(Some(i)) => Ok(Some((Label::Unlabeled, i))),
        }
    } else if n == 2 {
        assert(t[1] == tokens@[1]@);
        let operand = Operand::from_token(tokens[1].as_str());
        match Instruction::from_string(tokens[0].as_str(), Some(operand)) {
            Err(e) => Err(e),
            Ok(Some(i)) => Ok(Some((Label::Unlabeled, i))),
            Ok(None) => match Instruction::from_string(tokens[1].as_str(), None) {
                Err(e) => Err(e),
                Ok(None) => Err(invalid_opcode(&tokens[1])),
                Ok(Some(i)) => Ok(Some((Label::LBL(tokens[0].clone()), i))),
            },
        }
    } else if n == 3 {
        assert(t[1] == tokens@[1]@);
        assert(t[2] == tokens@[2]@);
        let operand = Operand::from_token(tokens[2].as_str());
        match Instruction::from_string(tokens[1].as_str(), Some(operand)) {
            Err(e) => Err(e),
            Ok(None) => Err(invalid_opcode(&tokens[1])),
            Ok(Some(i)) => Ok(Some((Label::LBL(tokens[0].clone()), i))),
        }
    } else {
        let mut e = String::from_str("Error while reading line: ");
        e.append(line);
        Err(e)
    }
}

proof fn lemma_read_error_sticks(ls: Seq<Seq<char>>, n: nat, m: nat)
    requires
        n <= m <= ls.len(),
        read_lines(ls.take(n as int)) is Err,
    ensures
        read_lines(ls.take(m as int)) == read_lines(ls.take(n as int)),
    decreases m - n,
{
    if n < m {
        lemma_read_error_sticks(ls, n, (m - 1) as nat);
        assert(ls.take(m as int).drop_last() =~= ls.take(m - 1));
    }
}

/// Splits the source text into lines and each line into tokens, and reads
/// the program they spell; stops at the first line that does not read.
pub fn parse(code: &str) -> (r: Result<Program, String>)
    ensures
        match r {
            Ok(p) => read_lines(lines_of(code@)) == Ok::<Seq<Entry>, Seq<char>>(entries(p@)),
            Err(e) => read_lines(lines_of(code@)) == Err::<Seq<Entry>, Seq<char>>(e@),
        },
{
    let lines = split_lines(code);
    let ghost ls = lines_of(code@);
    let mut program: Program = Vec::new();
    let mut i: usize = 0;
    assert(ls.take(0) =~= Seq::<Seq<char>>::empty());
    assert(entries(program@) =~= Seq::<Entry>::empty());
    while i < lines.len()
        invariant
            i <= lines.len(),
            ls == texts(lines@),
            ls == lines_of(code@),
            read_lines(ls.take(i as int)) == Ok::<Seq<Entry>, Seq<char>>(entries(program@)),
        decreases lines.len() - i,
    {
        let tokens = split_words(lines[i].as_str());
        let res = parse_line(lines[i].as_str(), &tokens);
        assert(ls[i as int] == lines@[i as int]@);
        assert(ls.take(i + 1).drop_last() =~= ls.take(i as int));
        assert(ls.take(i + 1).last() == ls[i as int]);
        match res {
            Err(e) => {
                assert(read_lines(ls.take(i + 1)) == Err::<Seq<Entry>, Seq<char>>(e@));
                proof {
                    lemma_read_error_sticks(ls, (i + 1) as nat, ls.len());
                    assert(ls.take(ls.len() as int) =~= ls);
                }
                return Err(e);
            },
            Ok(None) => {},
            Ok(Some(entry)) => {
                let ghost before = program@;
                let ghost x = entry_of(entry);
                program.push(entry);
                assert(entries(program@) =~= entries(before).push(x));
            },
        }
        i = i + 1;
    }
    assert(ls.take(i as int) =~= ls);
    Ok(program)
}

} // verus!
