use vstd::prelude::*;

use crate::text::{decimal, int_text};

verus! {

/// A value that the accumulator and each memory word can hold.
pub open spec fn in_word_range(v: int) -> bool {
    -999 <= v <= 999
}

/// Brings the result of an addition or a subtraction back into the
/// accumulator's range: one past 999 lands on -999, one past -999 lands on 999.
pub open spec fn wrapped(v: int) -> int {
    if v > 999 {
        -999 + (v - 999) - 1
    } else if v < -999 {
        999 - (-999 - v) + 1
    } else {
        v
    }
}

/// What an OUT or OTC instruction hands to the I/O boundary.
#[derive(Debug, Clone, Copy, PartialEq, Eq, Structural)]
pub enum Output {
    Char(char),
    Int(i16),
}

/// The I/O boundary that the engine reads its input from and writes its output to.
/// Its model is the record of what has passed through it.
pub trait LMCIO {
    /// The values handed out by `get_input` so far, oldest first.
    spec fn inputs_given(&self) -> Seq<int>;

    /// The values received by `print_output` so far, oldest first.
    spec fn outputs_taken(&self) -> Seq<Output>;

    fn get_input(&mut self) -> (r: i16)
        ensures
            final(self).inputs_given() == old(self).inputs_given().push(r as int),
            final(self).outputs_taken() == old(self).outputs_taken(),
    ;

    fn print_output(&mut self, val: Output)
        ensures
            final(self).outputs_taken() == old(self).outputs_taken().push(val),
            final(self).inputs_given() == old(self).inputs_given(),
    ;
}

/// An I/O boundary that hands out a fixed script of inputs in order (0 once the
/// script is used up) and records every output it receives.
#[derive(Debug)]
pub struct ScriptedIO {
    /// The values to hand out, first to last.
    pub script: Vec<i16>,
    /// The values handed out so far.
    pub given: Vec<i16>,
    /// The outputs received so far.
    pub outputs: Vec<Output>,
}

impl ScriptedIO {
    /// A boundary that will hand out `script` and has seen nothing yet.
    pub fn new(script: Vec<i16>) -> (r: ScriptedIO)
        ensures
            r.script@ == script@,
            r.given@.len() == 0,
            r.outputs@.len() == 0,
    {
        ScriptedIO { script, given: Vec::new(), outputs: Vec::new() }
    }
}

impl LMCIO for ScriptedIO {
    open spec fn inputs_given(&self) -> Seq<int> {
        self.given@.map_values(|v: i16| v as int)
    }

    open spec fn outputs_taken(&self) -> Seq<Output> {
        self.outputs@
    }

    fn get_input(&mut self) -> (r: i16) {
        let k = self.given.len();
        let r: i16 = if k < self.script.len() {
            self.script[k]
        } else {
            0
        };
        let ghost before = self.given@;
        self.given.push(r);
        assert(self.given@.map_values(|v: i16| v as int) =~= before.map_values(|v: i16| v as int).push(r as int));
        r
    }

    fn print_output(&mut self, val: Output) {
        self.outputs.push(val);
    }
}

/// The registers and the memory of the machine.
#[derive(Debug)]
pub struct ExecutionState {
    pub pc: i16,
    pub cir: i16,
    pub mar: i16,
    pub mdr: i16,
    pub acc: i16,
    pub ram: [i16; 100],
}

/// The machine as mathematical values.
pub ghost struct Machine {
    pub pc: int,
    pub cir: int,
    pub mar: int,
    pub mdr: int,
    pub acc: int,
    pub ram: Seq<int>,
}

/// Why a cycle stops the run.
pub ghost enum Fault {
    /// The program counter does not name a memory word.
    BadAddress(int),
    /// An INP instruction was given a value outside [-999, 999].
    InputOutOfRange,
    /// The fetched word decodes to no instruction.
    BadInstruction(int),
}

/// The message that reports a fault.
pub open spec fn fault_text(f: Fault) -> Seq<char> {
    match f {
        Fault::BadAddress(a) => "Invalid address: "@ + decimal(a),
        Fault::InputOutOfRange => "Number out of range"@,
        Fault::BadInstruction(w) => "Invalid instruction: "@ + decimal(w),
    }
}

/// The memory words as integers.
pub open spec fn words(ram: [i16; 100]) -> Seq<int> {
    ram@.map_values(|w: i16| w as int)
}

impl View for ExecutionState {
    type V = Machine;

    open spec fn view(&self) -> Machine {
        Machine {
            pc: self.pc as int,
            cir: self.cir as int,
            mar: self.mar as int,
            mdr: self.mdr as int,
            acc: self.acc as int,
            ram: words(self.ram),
        }
    }
}

/// The accumulator and every memory word lie in [-999, 999].
pub open spec fn well_formed(m: Machine) -> bool {
    &&& m.ram.len() == 100
    &&& in_word_range(m.acc)
    &&& forall|i: int| 0 <= i < 100 ==> in_word_range(#[trigger] m.ram[i])
}

/// The machine at the start of a run: every register zero.
pub open spec fn initial(ram: Seq<int>) -> Machine {
    Machine { pc: 0, cir: 0, mar: 0, mdr: 0, acc: 0, ram }
}

/// The run is over: an HLT set the sentinel, or the program counter left memory.
pub open spec fn halted(m: Machine) -> bool {
    m.pc == -1 || m.pc > 99
}

/// The next cycle executes an INP instruction.
pub open spec fn reads_input(m: Machine) -> bool {
    0 <= m.pc < 100 && m.ram[m.pc] == 901
}

/// The character whose code is the low eight bits of `v`.
pub open spec fn low_byte_char(v: int) -> char {
    (v % 256) as char
}

/// One fetch-decode-execute cycle; `input` is the value an INP instruction reads.
pub open spec fn cycle(m: Machine, input: int) -> (Machine, Result<Option<Output>, Fault>) {
    if !(0 <= m.pc < 100) {
        (m, Err(Fault::BadAddress(m.pc)))
    } else {
        let w = m.ram[m.pc];
        let f = Machine { pc: m.pc + 1, cir: w, mar: m.pc, mdr: w, ..m };
        if w == 0 {
            (Machine { pc: -1, ..f }, Ok(None))
        } else if w == 901 {
            if in_word_range(input) {
                (Machine { acc: input, ..f }, Ok(None))
            } else {
                (f, Err(Fault::InputOutOfRange))
            }
        } else if w == 902 {
            (f, Ok(Some(Output::Int(m.acc as i16))))
        } else if w == 922 {
            (f, Ok(Some(Output::Char(low_byte_char(m.acc)))))
        } else if 100 <= w <= 199 {
            let a = w - 100;
            (Machine { mar: a, acc: wrapped(m.acc + m.ram[a]), ..f }, Ok(None))
        } else if 200 <= w <= 299 {
            let a = w - 200;
            (Machine { mar: a, acc: wrapped(m.acc - m.ram[a]), ..f }, Ok(None))
        } else if 300 <= w <= 399 {
            let a = w - 300;
            (Machine { mar: a, ram: m.ram.update(a, m.acc), ..f }, Ok(None))
        } else if 500 <= w <= 599 {
            let a = w - 500;
            (Machine { mar: a, acc: m.ram[a], ..f }, Ok(None))
        } else if 600 <= w <= 699 {
            let a = w - 600;
            (Machine { mar: a, pc: a, ..f }, Ok(None))
        } else if 700 <= w <= 799 {
            let a = w - 700;
            (Machine { mar: a, pc: if m.acc == 0 { a } else { f.pc }, ..f }, Ok(None))
        } else if 800 <= w <= 899 {
            let a = w - 800;
            (Machine { mar: a, pc: if m.acc > 0 { a } else { f.pc }, ..f }, Ok(None))
        } else {
            (f, Err(Fault::BadInstruction(w)))
        }
    }
}

/// An executable result agrees with a result of the model.
pub open spec fn reports<T>(r: Result<T, String>, o: Result<T, Fault>) -> bool {
    match (r, o) {
        (Ok(a), Ok(b)) => a == b,
        (Err(e), Err(f)) => e@ == fault_text(f),
        _ => false,
    }
}

/// A step from `pre` to `post` that read `input` (if it read at all) and returned `r`.
pub open spec fn step_taken(pre: Machine, post: Machine, input: int, r: Result<(), String>) -> bool {
    &&& cycle(pre, input).0 == post
    &&& match (r, cycle(pre, input).1) {
        (Ok(_), Ok(_)) => true,
        (Err(e), Err(f)) => e@ == fault_text(f),
        _ => false,
    }
}


/// What one cycle from `pre` with `input` does to the I/O boundary's record: it
/// hands out `input` if the cycle is an INP (the input is 0 otherwise), and
/// receives what the cycle emits.
pub open spec fn io_step(
    pre: Machine,
    input: int,
    ins0: Seq<int>,
    ins1: Seq<int>,
    outs0: Seq<Output>,
    outs1: Seq<Output>,
) -> bool {
    &&& ins1 == (if reads_input(pre) {
        ins0.push(input)
    } else {
        ins0
    })
    &&& !reads_input(pre) ==> input == 0
    &&& outs1 == match cycle(pre, input).1 {
        Ok(Option::Some(o)) => outs0.push(o),
        _ => outs0,
    }
}

/// The machine after `n` cycles from `m`, cycle `k` reading `inputs[k]` where it reads.
pub open spec fn after(m: Machine, inputs: Seq<int>, n: nat) -> Machine
    decreases n,
{
    if n == 0 {
        m
    } else {
        cycle(after(m, inputs, (n - 1) as nat), inputs[n - 1]).0
    }
}

/// The first `n` cycles from `m` each start on a machine that has not halted and
/// end without a fault.
pub open spec fn runs_clean(m: Machine, inputs: Seq<int>, n: nat) -> bool {
    &&& inputs.len() >= n
    &&& forall|k: nat|
        k < n ==> !halted(#[trigger] after(m, inputs, k)) && cycle(after(m, inputs, k), inputs[k as int]).1
            is Ok
}

/// The values read by INP instructions in the first `n` cycles from `m`.
pub open spec fn read_values(m: Machine, inputs: Seq<int>, n: nat) -> Seq<int>
    decreases n,
{
    if n == 0 {
        Seq::empty()
    } else {
        let p = (n - 1) as nat;
        if reads_input(after(m, inputs, p)) {
            read_values(m, inputs, p).push(inputs[p as int])
        } else {
            read_values(m, inputs, p)
        }
    }
}

/// What OUT and OTC instructions emit in the first `n` cycles from `m`.
pub open spec fn emitted(m: Machine, inputs: Seq<int>, n: nat) -> Seq<Output>
    decreases n,
{
    if n == 0 {
        Seq::empty()
    } else {
        let p = (n - 1) as nat;
        match cycle(after(m, inputs, p), inputs[p as int]).1 {
            Ok(Option::Some(o)) => emitted(m, inputs, p).push(o),
            _ => emitted(m, inputs, p),
        }
    }
}

/// The first `n` cycles from `m` passed exactly their own I/O through a
/// boundary whose record went from (`ins0`, `outs0`) to (`ins1`, `outs1`); a
/// cycle that reads nothing is given 0.
pub open spec fn io_of(
    m: Machine,
    inputs: Seq<int>,
    n: nat,
    ins0: Seq<int>,
    ins1: Seq<int>,
    outs0: Seq<Output>,
    outs1: Seq<Output>,
) -> bool {
    &&& ins1 == ins0 + read_values(m, inputs, n)
    &&& outs1 == outs0 + emitted(m, inputs, n)
    &&& forall|k: nat| k < n && !reads_input(#[trigger] after(m, inputs, k)) ==> inputs[k as int] == 0
}

/// A run from `m` that halts at the end of cycle `n`, and not before.
pub open spec fn halts_after(m: Machine, inputs: Seq<int>, n: nat) -> bool {
    &&& n > 0
    &&& runs_clean(m, inputs, n)
    &&& forall|k: nat| 0 < k < n ==> !halted(#[trigger] after(m, inputs, k))
    &&& halted(after(m, inputs, n))
}

/// A run from `m` whose cycle `n` (counted from 0) ends in fault `f`.
pub open spec fn faults_at(m: Machine, inputs: Seq<int>, n: nat, f: Fault) -> bool {
    &&& runs_clean(m, inputs, n)
    &&& inputs.len() > n
    &&& !halted(after(m, inputs, n))
    &&& cycle(after(m, inputs, n), inputs[n as int]).1 == Err::<Option<Output>, Fault>(f)
}

/// A run from `m` that goes through `n` cycles and has not halted.
pub open spec fn still_running(m: Machine, inputs: Seq<int>, n: nat) -> bool {
    &&& runs_clean(m, inputs, n)
    &&& !halted(after(m, inputs, n))
}

/// Cycles from `m` do not depend on inputs past the ones they read.
pub proof fn lemma_after_prefix(m: Machine, inputs: Seq<int>, x: int, n: nat)
    requires
        n <= inputs.len(),
    ensures
        after(m, inputs.push(x), n) == after(m, inputs, n),
        read_values(m, inputs.push(x), n) == read_values(m, inputs, n),
        emitted(m, inputs.push(x), n) == emitted(m, inputs, n),
    decreases n,
{
    if n > 0 {
        lemma_after_prefix(m, inputs, x, (n - 1) as nat);
        assert(inputs.push(x)[n - 1] == inputs[n - 1]);
    }
}

/// A cycle keeps the accumulator and the memory words in range.
pub proof fn lemma_cycle_well_formed(m: Machine, input: int)
    requires
        well_formed(m),
    ensures
        well_formed(cycle(m, input).0),
{
    if 0 <= m.pc < 100 {
        let w = m.ram[m.pc];
        if 100 <= w <= 199 {
            assert(in_word_range(m.ram[w - 100]));
        } else if 200 <= w <= 299 {
            assert(in_word_range(m.ram[w - 200]));
        } else if 500 <= w <= 599 {
            assert(in_word_range(m.ram[w - 500]));
        }
    }
}

/// Every state reached by cycles from a well-formed machine is well formed.
pub proof fn lemma_after_well_formed(m: Machine, inputs: Seq<int>, n: nat)
    requires
        well_formed(m),
    ensures
        well_formed(after(m, inputs, n)),
    decreases n,
{
    if n > 0 {
        lemma_after_well_formed(m, inputs, (n - 1) as nat);
        lemma_cycle_well_formed(after(m, inputs, (n - 1) as nat), inputs[n - 1]);
    }
}

/// A word that is an instruction which neither halts nor branches, and which
/// writes memory, if at all, at or before its own position `pos`.
pub open spec fn straight_line(w: int, pos: int) -> bool {
    ||| 100 <= w <= 299
    ||| 500 <= w <= 599
    ||| w == 901
    ||| w == 902
    ||| w == 922
    ||| (300 <= w <= 399 && w - 300 <= pos)
}

proof fn lemma_straight_prefix(ram: Seq<int>, inputs: Seq<int>, k: nat)
    requires
        well_formed(initial(ram)),
        forall|i: int| 0 <= i < 100 ==> straight_line(#[trigger] ram[i], i),
        inputs.len() >= 100,
        forall|i: int| 0 <= i < 100 ==> in_word_range(#[trigger] inputs[i]),
        k <= 100,
    ensures
        after(initial(ram), inputs, k).pc == k,
        well_formed(after(initial(ram), inputs, k)),
        forall|j: int| k <= j < 100 ==> #[trigger] after(initial(ram), inputs, k).ram[j] == ram[j],
        runs_clean(initial(ram), inputs, k),
    decreases k,
{
    let m = initial(ram);
    lemma_after_well_formed(m, inputs, k);
    if k > 0 {
        let p = (k - 1) as nat;
        lemma_straight_prefix(ram, inputs, p);
        let s = after(m, inputs, p);
        assert(s.ram[p as int] == ram[p as int]);
        assert(straight_line(ram[p as int], p as int));
        assert(in_word_range(inputs[p as int]));
        assert(after(m, inputs, k) == cycle(s, inputs[p as int]).0);
        assert forall|q: nat| q < k implies !halted(#[trigger] after(m, inputs, q)) && cycle(after(m, inputs, q), inputs[q as int]).1 is Ok by {
            if q == p {
            } else {
                assert(q < p);
            }
        }
    }
}

/// A memory filled with instructions that neither halt nor branch, and that
/// write only at or behind themselves, falls off the end of memory after
/// exactly 100 cycles and without a fault, given inputs that INP accepts;
/// cycle `k` runs word `k`, so each word runs once, in order.
pub proof fn lemma_falls_off_end(ram: Seq<int>, inputs: Seq<int>)
    requires
        ram.len() == 100,
        forall|i: int| 0 <= i < 100 ==> in_word_range(#[trigger] ram[i]),
        forall|i: int| 0 <= i < 100 ==> straight_line(#[trigger] ram[i], i),
        inputs.len() >= 100,
        forall|i: int| 0 <= i < 100 ==> in_word_range(#[trigger] inputs[i]),
    ensures
        halts_after(initial(ram), inputs, 100),
        after(initial(ram), inputs, 100).pc == 100,
        forall|k: nat| k < 100 ==> {
            let s = #[trigger] after(initial(ram), inputs, k);
            s.pc == k && s.ram[k as int] == ram[k as int]
        },
{
    lemma_straight_prefix(ram, inputs, 100);
    assert forall|k: nat| k < 100 implies {
        let s = #[trigger] after(initial(ram), inputs, k);
        s.pc == k && s.ram[k as int] == ram[k as int]
    } by {
        lemma_straight_prefix(ram, inputs, k);
    }
}

/// A memory whose first word is HLT halts after exactly one cycle, reads and
/// emits nothing, and leaves the program counter at the halt sentinel.
pub proof fn lemma_halt_first(ram: Seq<int>, input: int)
    requires
        ram.len() == 100,
        ram[0] == 0,
    ensures
        halts_after(initial(ram), seq![input], 1),
        cycle(initial(ram), input).1 == Ok::<Option<Output>, Fault>(None),
        after(initial(ram), seq![input], 1).pc == -1,
        emitted(initial(ram), seq![input], 1) == Seq::<Output>::empty(),
        read_values(initial(ram), seq![input], 1) == Seq::<int>::empty(),
{
    let m = initial(ram);
    assert(after(m, seq![input], 0) == m);
    assert(after(m, seq![input], 1) == cycle(m, input).0);
    assert(emitted(m, seq![input], 0) == Seq::<Output>::empty());
    assert(read_values(m, seq![input], 0) == Seq::<int>::empty());
}

impl ExecutionState {
    /// The invariant that every engine operation relies on and keeps.
    pub open spec fn wf(&self) -> bool {
        well_formed(self@)
    }

    /// Tells whether the run is over.
    pub fn is_halted(&self) -> (r: bool)
        ensures
            r == halted(self@),
    {
        self.pc == -1 || self.pc > 99
    }

    /// Tells whether the next cycle executes an INP instruction.
    pub fn reads_input(&self) -> (r: bool)
        requires
            self.wf(),
        ensures
            r == reads_input(self@),
    {
        0 <= self.pc && self.pc < 100 && self.ram[self.pc as usize] == 901
    }

    /// Runs one cycle, with `input` as the value that an INP instruction reads,
    /// and returns what an OUT or OTC instruction emits.
    pub fn execute(&mut self, input: i16) -> (r: Result<Option<Output>, String>)
        requires
            old(self).wf(),
        ensures
            final(self).wf(),
            final(self)@ == cycle(old(self)@, input as int).0,
            reports(r, cycle(old(self)@, input as int).1),
    {
        let ghost pre = self@;
        if self.pc < 0 || self.pc > 99 {
            let mut e = String::from_str("Invalid address: ");
            let n = int_text(self.pc);
            e.append(n.as_str());
            return Err(e);
        }
        self.mar = self.pc;
        self.pc = self.pc + 1;
        self.mdr = self.ram[self.mar as usize];
        self.cir = self.mdr;
        let cir = self.cir;
        assert(cir as int == pre.ram[pre.pc]);
        if cir == 0 {
            self.pc = -1;
            Ok(None)
        } else if cir == 901 {
            if -999 <= input && input <= 999 {
                self.acc = input;
                Ok(None)
            } else {
                Err(String::from_str("Number out of range"))
            }
        } else if cir == 902 {
            Ok(Some(Output::Int(self.acc)))
        } else if cir == 922 {
            let low: u16 = ((self.acc + 1024) as u16) % 256;
            assert(low as int == pre.acc % 256) by {
                assert((pre.acc + 1024) % 256 == pre.acc % 256);
            }
            let c = (low as u8) as char;
            Ok(Some(Output::Char(c)))
        } else if 100 <= cir && cir <= 199 {
            self.mar = cir - 100;
            assert(in_word_range(pre.ram[cir - 100]));
            let sum: i16 = self.acc + self.ram[self.mar as usize];
            self.acc = if sum > 999 {
                let diff = sum - 999;
                -999 + diff - 1
            } else if sum < -999 {
                let diff = -999 - sum;
                999 - diff + 1
            } else {
                sum
            };
            Ok(None)
        } else if 200 <= cir && cir <= 299 {
            self.mar = cir - 200;
            assert(in_word_range(pre.ram[cir - 200]));
            let dif: i16 = self.acc - self.ram[self.mar as usize];
            self.acc = if dif < -999 {
                let diff = -999 - dif;
                999 - diff + 1
            } else if dif > 999 {
                let diff = dif - 999;
                -999 + diff - 1
            } else {
                dif
            };
            Ok(None)
        } else if 300 <= cir && cir <= 399 {
            self.mar = cir - 300;
            self.ram[self.mar as usize] = self.acc;
            assert(self@.ram =~= pre.ram.update(cir - 300, pre.acc));
            Ok(None)
        } else if 500 <= cir && cir <= 599 {
            self.mar = cir - 500;
            self.acc = self.ram[self.mar as usize];
            Ok(None)
        } else if 600 <= cir && cir <= 699 {
            self.mar = cir - 600;
            self.pc = self.mar;
            Ok(None)
        } else if 700 <= cir && cir <= 799 {
            self.mar = cir - 700;
            if self.acc == 0 {
                self.pc = self.mar;
            }
            Ok(None)
        } else if 800 <= cir && cir <= 899 {
            self.mar = cir - 800;
            if self.acc > 0 {
                self.pc = self.mar;
            }
            Ok(None)
        } else {
            let mut e = String::from_str("Invalid instruction: ");
            let n = int_text(cir);
            e.append(n.as_str());
            Err(e)
        }
    }

    /// Runs one cycle: asks the I/O boundary for a value when the instruction is
    /// INP, and hands it what OUT or OTC emits; nothing else passes through it.
    pub fn step<T: LMCIO>(&mut self, io_handler: &mut T) -> (r: Result<(), String>)
        requires
            old(self).wf(),
        ensures
            final(self).wf(),
            exists|input: int|
                step_taken(old(self)@, final(self)@, input, r) && io_step(
                    old(self)@,
                    input,
                    old(io_handler).inputs_given(),
                    final(io_handler).inputs_given(),
                    old(io_handler).outputs_taken(),
                    final(io_handler).outputs_taken(),
                ),
    {
        let ghost pre = self@;
        let ghost ins0 = io_handler.inputs_given();
        let ghost outs0 = io_handler.outputs_taken();
        let input: i16 = if self.reads_input() {
            io_handler.get_input()
        } else {
            0
        };
        let res = self.execute(input);
        let r = match res {
            Ok(Some(out)) => {
                io_handler.print_output(out);
                Ok(())
            },
            Ok(None) => Ok(()),
            Err(e) => Err(e),
        };
        assert(step_taken(pre, self@, input as int, r));
        assert(io_step(
            pre,
            input as int,
            ins0,
            io_handler.inputs_given(),
            outs0,
            io_handler.outputs_taken(),
        ));
        r
    }
}

/// Runs `program` from the initial state until it halts, faults, or has gone
/// through `max_cycles` cycles. Returns the number of cycles after which it
/// halted, or `None` if it was still running. The I/O boundary sees exactly the
/// inputs read and the outputs emitted by the cycles run, the faulting one
/// included.
pub fn run<T: LMCIO>(program: [i16; 100], io_handler: &mut T, max_cycles: u64) -> (r: Result<Option<u64>, String>)
    requires
        forall|i: int| 0 <= i < 100 ==> in_word_range(#[trigger] program[i] as int),
    ensures
        match r {
            Ok(Some(n)) => n <= max_cycles && exists|inputs: Seq<int>|
                halts_after(initial(words(program)), inputs, n as nat) && io_of(
                    initial(words(program)),
                    inputs,
                    n as nat,
                    old(io_handler).inputs_given(),
                    final(io_handler).inputs_given(),
                    old(io_handler).outputs_taken(),
                    final(io_handler).outputs_taken(),
                ),
            Ok(None) => exists|inputs: Seq<int>|
                still_running(initial(words(program)), inputs, max_cycles as nat) && io_of(
                    initial(words(program)),
                    inputs,
                    max_cycles as nat,
                    old(io_handler).inputs_given(),
                    final(io_handler).inputs_given(),
                    old(io_handler).outputs_taken(),
                    final(io_handler).outputs_taken(),
                ),
            Err(e) => exists|inputs: Seq<int>, n: nat, f: Fault|
                n < max_cycles && faults_at(initial(words(program)), inputs, n, f) && e@ == fault_text(f)
                    && io_of(
                    initial(words(program)),
                    inputs,
                    n + 1,
                    old(io_handler).inputs_given(),
                    final(io_handler).inputs_given(),
                    old(io_handler).outputs_taken(),
                    final(io_handler).outputs_taken(),
                ),
        },
{
    let ghost ins0 = io_handler.inputs_given();
    let ghost outs0 = io_handler.outputs_taken();
    let mut state = ExecutionState { pc: 0, cir: 0, mar: 0, mdr: 0, acc: 0, ram: program };
    let ghost start = state@;
    let ghost mut inputs: Seq<int> = Seq::empty();
    let mut count: u64 = 0;
    assert(start == initial(words(program)));
    assert(well_formed(start)) by {
        assert forall|i: int| 0 <= i < 100 implies in_word_range(#[trigger] start.ram[i]) by {
            assert(in_word_range(program[i] as int));
        }
    }
    assert(ins0 + read_values(start, inputs, 0) =~= ins0);
    assert(outs0 + emitted(start, inputs, 0) =~= outs0);
    while count < max_cycles
        invariant
            state.wf(),
            well_formed(start),
            start == initial(words(program)),
            count <= max_cycles,
            inputs.len() == count,
            state@ == after(start, inputs, count as nat),
            runs_clean(start, inputs, count as nat),
            !halted(state@),
            ins0 == old(io_handler).inputs_given(),
            outs0 == old(io_handler).outputs_taken(),
            io_of(start, inputs, count as nat, ins0, io_handler.inputs_given(), outs0, io_handler.outputs_taken()),
        decreases max_cycles - count,
    {
        let ghost pre = state@;
        let ghost ins_before = io_handler.inputs_given();
        let ghost outs_before = io_handler.outputs_taken();
        let res = state.step(io_handler);
        let ghost inp: int = choose|inp: int|
            step_taken(pre, state@, inp, res) && io_step(
                pre,
                inp,
                ins_before,
                io_handler.inputs_given(),
                outs_before,
                io_handler.outputs_taken(),
            );
        let ghost old_inputs = inputs;
        proof {
            inputs = inputs.push(inp);
            lemma_after_prefix(start, old_inputs, inp, count as nat);
            assert(after(start, inputs, (count + 1) as nat) == state@);
            assert forall|k: nat| k < count implies after(start, inputs, k) == after(start, old_inputs, k) by {
                lemma_after_prefix(start, old_inputs, inp, k);
            }
            assert(io_of(start, inputs, (count + 1) as nat, ins0, io_handler.inputs_given(), outs0, io_handler.outputs_taken())) by {
                let n1 = (count + 1) as nat;
                assert(read_values(start, inputs, n1) == if reads_input(pre) {
                    read_values(start, old_inputs, count as nat).push(inp)
                } else {
                    read_values(start, old_inputs, count as nat)
                });
                assert(ins0 + read_values(start, inputs, n1) =~= io_handler.inputs_given());
                assert(outs0 + emitted(start, inputs, n1) =~= io_handler.outputs_taken());
                assert forall|k: nat| k < n1 && !reads_input(#[trigger] after(start, inputs, k)) implies inputs[k as int] == 0 by {
                    if k < count {
                        assert(inputs[k as int] == old_inputs[k as int]);
                    }
                }
            }
        }
        match res {
            Err(e) => {
                assert(faults_at(start, inputs, count as nat, choose|f: Fault| cycle(pre, inp).1 == Err::<Option<Output>, Fault>(f)));
                return Err(e);
            },
            Ok(()) => {},
        }
        count = count + 1;
        assert(runs_clean(start, inputs, count as nat)) by {
            assert forall|k: nat| k < count implies !halted(#[trigger] after(start, inputs, k)) && cycle(after(start, inputs, k), inputs[k as int]).1 is Ok by {
                if k + 1 < count {
                    assert(inputs[k as int] == old_inputs[k as int]);
                }
            }
        }
        if state.is_halted() {
            assert(halts_after(start, inputs, count as nat));
            return Ok(Some(count));
        }
    }
    assert(still_running(start, inputs, max_cycles as nat));
    assert(count == max_cycles);
    assert(io_of(start, inputs, max_cycles as nat, ins0, io_handler.inputs_given(), outs0, io_handler.outputs_taken()));
    Ok(None)
}

} // verus!
