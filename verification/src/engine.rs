//! The execution engine: a fetch-execute loop over a fixed-size tape
//! of wrapping byte cells, driven by the precomputed jump table. The
//! semantics is pinned by a step function over configurations; the
//! executable machine is proved to follow it step for step. Because a
//! program may loop forever, the machine advances by bounded budgets:
//! each call to `run` executes up to the given number of steps and
//! says whether the run has halted, so a caller may go on for as long
//! as it pleases.

use crate::jumps::build_failure;
use crate::jumps::calculate_jumps;
use crate::jumps::is_match;
use crate::jumps::lemma_match_unique_close;
use crate::jumps::lemma_match_unique_open;
use crate::jumps::match_close;
use crate::jumps::match_open;
use crate::jumps::well_formed;
use crate::jumps::Jumps;
use crate::jumps::JumpsError;
use crate::sanitize::is_instr;
use vstd::prelude::*;

verus! {

/// Number of cells on the tape.
pub const TAPE_LEN: usize = 30000;

/// A machine configuration: the instruction pointer, the data pointer,
/// the tape contents and the output emitted so far.
pub struct Config {
    pub pc: nat,
    pub ptr: nat,
    pub tape: Seq<u8>,
    pub out: Seq<u8>,
}

/// The starting configuration: both pointers at zero, an all-zero
/// tape, nothing written yet.
pub open spec fn init_config() -> Config {
    Config {
        pc: 0,
        ptr: 0,
        tape: Seq::new(TAPE_LEN as nat, |i: int| 0u8),
        out: Seq::empty(),
    }
}

/// The run is over as soon as either pointer leaves its range; this is
/// the normal, silent termination signal, not an error.
pub open spec fn halted(s: Seq<char>, c: Config) -> bool {
    c.pc >= s.len() || c.ptr >= TAPE_LEN
}

/// Cell increment, modulo 256.
pub open spec fn inc_byte(v: u8) -> u8 {
    ((v + 1) % 256) as u8
}

/// Cell decrement, modulo 256.
pub open spec fn dec_byte(v: u8) -> u8 {
    ((v + 255) % 256) as u8
}

/// Data-pointer decrement with the wraparound of the pointer's own
/// unsigned width: below zero it wraps to the maximum value, far
/// outside the tape, so the following bounds check ends the run.
pub open spec fn ptr_dec(p: nat) -> nat {
    if p == 0 {
        usize::MAX as nat
    } else {
        (p - 1) as nat
    }
}

/// One step of the machine. A halted configuration stays as it is;
/// otherwise the instruction under the instruction pointer fires, and
/// the instruction pointer advances by one except when a jump
/// reassigned it.
pub open spec fn step(s: Seq<char>, c: Config) -> Config {
    if halted(s, c) {
        c
    } else {
        let ch = s[c.pc as int];
        if ch == '+' {
            Config { pc: c.pc + 1, tape: c.tape.update(c.ptr as int, inc_byte(c.tape[c.ptr as int])), ..c }
        } else if ch == '-' {
            Config { pc: c.pc + 1, tape: c.tape.update(c.ptr as int, dec_byte(c.tape[c.ptr as int])), ..c }
        } else if ch == '<' {
            Config { pc: c.pc + 1, ptr: ptr_dec(c.ptr), ..c }
        } else if ch == '>' {
            Config { pc: c.pc + 1, ptr: c.ptr + 1, ..c }
        } else if ch == '.' {
            Config { pc: c.pc + 1, out: c.out.push(c.tape[c.ptr as int]), ..c }
        } else if ch == '[' {
            if c.tape[c.ptr as int] == 0 {
                Config { pc: match_close(s, c.pc as int) as nat, ..c }
            } else {
                Config { pc: c.pc + 1, ..c }
            }
        } else if ch == ']' {
            if c.tape[c.ptr as int] != 0 {
                Config { pc: match_open(s, c.pc as int) as nat, ..c }
            } else {
                Config { pc: c.pc + 1, ..c }
            }
        } else {
            Config { pc: c.pc + 1, ..c }
        }
    }
}

/// The configuration after `n` steps from the start.
pub open spec fn steps(s: Seq<char>, n: nat) -> Config
    decreases n,
{
    if n == 0 {
        init_config()
    } else {
        step(s, steps(s, (n - 1) as nat))
    }
}

/// A halted configuration is a fixed point of the step function: once
/// a pointer has left its range nothing further executes.
pub proof fn lemma_halted_stable(s: Seq<char>, c: Config)
    requires
        halted(s, c),
    ensures
        step(s, c) == c,
{
}

/// A run that has halted stays halted, unchanged, ever after.
pub proof fn lemma_halted_stays(s: Seq<char>, n1: nat, n2: nat)
    requires
        n1 <= n2,
        halted(s, steps(s, n1)),
    ensures
        steps(s, n2) == steps(s, n1),
    decreases n2 - n1,
{
    if n2 > n1 {
        lemma_halted_stays(s, n1, (n2 - 1) as nat);
    }
}

/// The halting configuration of a run is unique: any two step counts
/// at which the machine is halted give the very same configuration.
pub proof fn lemma_halt_unique(s: Seq<char>, n1: nat, n2: nat)
    requires
        halted(s, steps(s, n1)),
        halted(s, steps(s, n2)),
    ensures
        steps(s, n1) == steps(s, n2),
{
    if n1 <= n2 {
        lemma_halted_stays(s, n1, n2);
    } else {
        lemma_halted_stays(s, n2, n1);
    }
}

/// Law: decrementing the data pointer at the tape's lower bound halts
/// the run silently: the next configuration is halted, and neither the
/// output nor the tape changes from that point on.
pub proof fn lemma_underflow_halts(s: Seq<char>, c: Config)
    requires
        !halted(s, c),
        s[c.pc as int] == '<',
        c.ptr == 0,
    ensures
        halted(s, step(s, c)),
        step(s, c).out == c.out,
        step(s, c).tape == c.tape,
{
    assert(step(s, c).ptr == usize::MAX as nat);
}

/// The output stream is append-only: a step never rewrites what was
/// already emitted, so the output at an earlier point of the trace is
/// a prefix of the output at every later one.
pub proof fn lemma_output_monotone(s: Seq<char>, n1: nat, n2: nat)
    requires
        n1 <= n2,
    ensures
        steps(s, n1).out.is_prefix_of(steps(s, n2).out),
    decreases n2 - n1,
{
    if n2 > n1 {
        lemma_output_monotone(s, n1, (n2 - 1) as nat);
        let c = steps(s, (n2 - 1) as nat);
        assert(steps(s, n2).out == step(s, c).out);
    }
}

/// `n` increments applied to a cell.
pub open spec fn inc_n(v: u8, n: nat) -> u8
    decreases n,
{
    if n == 0 {
        v
    } else {
        inc_byte(inc_n(v, (n - 1) as nat))
    }
}

/// Repeated increments land on the sum modulo 256.
pub proof fn lemma_inc_mod(v: u8, n: nat)
    ensures
        inc_n(v, n) == ((v + n) % 256) as u8,
    decreases n,
{
    if n == 0 {
    } else {
        lemma_inc_mod(v, (n - 1) as nat);
    }
}

/// Law: cell arithmetic is modulo 256 for every run of increments and
/// decrements: 256 consecutive increments return any cell to its
/// value, and one decrement of a zero cell yields 255.
pub proof fn lemma_cell_wraps(v: u8)
    ensures
        inc_n(v, 256) == v,
        dec_byte(0u8) == 255u8,
{
    lemma_inc_mod(v, 256);
}

/// The execution engine: a program with its jump table, a tape, the
/// two pointers and the output gathered so far.
pub struct Machine {
    program: Vec<char>,
    jumps: Jumps,
    tape: Vec<u8>,
    output: Vec<u8>,
    pc: usize,
    ptr: usize,
    steps_taken: Ghost<nat>,
}

impl Machine {
    /// The instruction sequence the machine was loaded with.
    pub closed spec fn prog(&self) -> Seq<char> {
        self.program@
    }

    /// The machine's current configuration.
    pub closed spec fn config(&self) -> Config {
        Config { pc: self.pc as nat, ptr: self.ptr as nat, tape: self.tape@, out: self.output@ }
    }

    /// How many steps of the semantics the machine has taken.
    pub closed spec fn trace_len(&self) -> nat {
        self.steps_taken@
    }

    /// The machine's invariant: the program is made of recognized
    /// instructions, its brackets are well formed, the jump table is
    /// exactly their matching, the tape has its fixed length, and the
    /// current configuration is the one the step semantics reaches
    /// from the start in `trace_len()` steps.
    pub closed spec fn wf(&self) -> bool {
        &&& forall|t: int| 0 <= t < self.prog().len() ==> is_instr(#[trigger] self.prog()[t])
        &&& well_formed(self.prog())
        &&& self.jumps.table_for(self.prog())
        &&& self.tape@.len() == TAPE_LEN as int
        &&& self.config() == steps(self.prog(), self.trace_len())
    }

    /// Load a program: build its jump table and set up the starting
    /// configuration. A malformed program fails here, before anything
    /// executes.
    pub fn new(program: &str) -> (r: Result<Machine, JumpsError>)
        requires
            forall|k: int| 0 <= k < program@.len() ==> is_instr(#[trigger] program@[k]),
        ensures
            (r is Ok) <==> well_formed(program@),
            match r {
                Ok(m) => {
                    &&& m.wf()
                    &&& m.prog() == program@
                    &&& m.trace_len() == 0
                    &&& m.config() == init_config()
                },
                Err(e) => build_failure(program@, e),
            },
    {
        let jumps = match calculate_jumps(program) {
            Ok(j) => j,
            Err(e) => {
                return Err(e);
            },
        };
        let n = program.unicode_len();
        let mut prog: Vec<char> = Vec::new();
        let mut i: usize = 0;
        while i < n
            invariant
                i <= n,
                n == program@.len(),
                prog@ =~= program@.take(i as int),
            decreases n - i,
        {
            let c = program.get_char(i);
            prog.push(c);
            i = i + 1;
        }
        let mut tape: Vec<u8> = Vec::new();
        let mut k: usize = 0;
        while k < TAPE_LEN
            invariant
                k <= TAPE_LEN,
                tape@.len() == k as int,
                forall|t: int| 0 <= t < k ==> tape@[t] == 0u8,
            decreases TAPE_LEN - k,
        {
            tape.push(0u8);
            k = k + 1;
        }
        let m = Machine {
            program: prog,
            jumps,
            tape,
            output: Vec::new(),
            pc: 0,
            ptr: 0,
            steps_taken: Ghost(0),
        };
        proof {
            assert(m.prog() =~= program@);
            assert(m.config().tape =~= init_config().tape);
            assert(m.config().out =~= init_config().out);
            assert(m.config() == init_config());
        }
        Ok(m)
    }

    /// Whether the run is over: one of the two pointers has left its
    /// range.
    pub fn is_halted(&self) -> (b: bool)
        ensures
            b == halted(self.prog(), self.config()),
    {
        self.pc >= self.program.len() || self.ptr >= TAPE_LEN
    }

    /// The output emitted so far, one byte per executed output
    /// instruction, in program order.
    pub fn output(&self) -> (o: &Vec<u8>)
        ensures
            o@ == self.config().out,
    {
        &self.output
    }

    /// The tape contents.
    pub fn tape(&self) -> (t: &Vec<u8>)
        ensures
            t@ == self.config().tape,
    {
        &self.tape
    }

    /// The instruction pointer.
    pub fn pc(&self) -> (p: usize)
        ensures
            p as nat == self.config().pc,
    {
        self.pc
    }

    /// The data pointer.
    pub fn ptr(&self) -> (p: usize)
        ensures
            p as nat == self.config().ptr,
    {
        self.ptr
    }

    /// Execute up to `budget` steps of the fetch-execute loop and say
    /// whether the run has halted. The machine follows the step
    /// semantics exactly: it ends at a configuration further along the
    /// same trace, and only a halt stops it short of the full budget.
    pub fn run(&mut self, budget: u64) -> (done: bool)
        requires
            old(self).wf(),
        ensures
            final(self).wf(),
            final(self).prog() == old(self).prog(),
            final(self).config() == steps(final(self).prog(), final(self).trace_len()),
            old(self).trace_len() <= final(self).trace_len(),
            done == halted(final(self).prog(), final(self).config()),
            !done ==> final(self).trace_len() == old(self).trace_len() + budget,
    {
        let ghost s = self.prog();
        let mut used: u64 = 0;
        while used < budget
            invariant
                self.wf(),
                self.prog() == s,
                s == old(self).prog(),
                used <= budget,
                self.trace_len() == old(self).trace_len() + used,
            decreases budget - used,
        {
            if self.pc >= self.program.len() || self.ptr >= TAPE_LEN {
                return true;
            }
            let ghost c0 = self.config();
            let instr = self.program[self.pc];
            if instr == '+' {
                let p = self.ptr;
                let v = self.tape[p];
                self.tape[p] = v.wrapping_add(1);
                proof {
                    assert(inc_byte(v) == v.wrapping_add(1));
                }
                self.pc = self.pc + 1;
            } else if instr == '-' {
                let p = self.ptr;
                let v = self.tape[p];
                self.tape[p] = v.wrapping_sub(1);
                proof {
                    assert(dec_byte(v) == v.wrapping_sub(1));
                }
                self.pc = self.pc + 1;
            } else if instr == '<' {
                self.ptr = self.ptr.wrapping_sub(1);
                self.pc = self.pc + 1;
            } else if instr == '>' {
                self.ptr = self.ptr + 1;
                self.pc = self.pc + 1;
            } else if instr == '.' {
                let p = self.ptr;
                let v = self.tape[p];
                self.output.push(v);
                self.pc = self.pc + 1;
            } else if instr == '[' {
                let p = self.ptr;
                let v = self.tape[p];
                if v == 0 {
                    let target = self.jumps.right(self.pc).unwrap();
                    proof {
                        assert(is_match(s, self.pc as int, self.jumps.fwd()[self.pc] as int));
                        lemma_match_unique_close(
                            s,
                            self.pc as int,
                            match_close(s, self.pc as int),
                            self.jumps.fwd()[self.pc] as int,
                        );
                    }
                    self.pc = target;
                } else {
                    self.pc = self.pc + 1;
                }
            } else if instr == ']' {
                let p = self.ptr;
                let v = self.tape[p];
                if v != 0 {
                    let target = self.jumps.left(self.pc).unwrap();
                    proof {
                        assert(is_match(s, self.jumps.bwd()[self.pc] as int, self.pc as int));
                        lemma_match_unique_open(
                            s,
                            match_open(s, self.pc as int),
                            self.jumps.bwd()[self.pc] as int,
                            self.pc as int,
                        );
                    }
                    self.pc = target;
                } else {
                    self.pc = self.pc + 1;
                }
            } else {
                proof {
                    assert(is_instr(s[self.pc as int]));
                    assert(false);
                }
            }
            proof {
                self.steps_taken@ = self.steps_taken@ + 1;
                assert(steps(s, self.trace_len()) == step(s, c0));
                assert(step(s, c0) =~= self.config());
            }
            used = used + 1;
        }
        self.is_halted()
    }
}

} // verus!
