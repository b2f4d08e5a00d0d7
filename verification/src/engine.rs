use vstd::prelude::*;

verus! {

use crate::tape::max_pos;
use crate::tape::Tape;
use crate::tape::TapeElem;

/// A failure of program execution.
#[derive(Clone, Copy, Debug, PartialEq, Eq, Structural)]
pub enum BfError {
    /// A tape pointer was asked to move below zero, or past the maximum
    /// position the backing store can allocate for.
    PointerOutOfRange,
    /// A `]` was executed with no open `[` outstanding.
    UnmatchedClose,
    /// A `[` found no matching `]` before the end of the tape.
    UnmatchedOpen,
    /// A symbol outside the instruction alphabet reached the dispatch loop.
    InvalidSymbol,
    /// The engine gave up after `STEP_LIMIT` dispatch steps. This is a
    /// machine limit, like the maximum tape position: a program still running
    /// after that many steps would otherwise run forever.
    StepLimit,
}

impl BfError {
    /// The human-readable description of each failure.
    pub open spec fn message_spec(&self) -> Seq<char> {
        match self {
            BfError::PointerOutOfRange => "Attempted to move tape head out of range."@,
            BfError::UnmatchedClose => "Encountered ] without matching ["@,
            BfError::UnmatchedOpen => "Reached end of tape before finding matching ]"@,
            BfError::InvalidSymbol => "Invalid program symbol."@,
            BfError::StepLimit => "Execution step limit exceeded."@,
        }
    }

    /// A human-readable description of the failure.
    pub fn message(&self) -> (s: &'static str)
        ensures
            s@ == self.message_spec(),
    {
        match self {
            BfError::PointerOutOfRange => "Attempted to move tape head out of range.",
            BfError::UnmatchedClose => "Encountered ] without matching [",
            BfError::UnmatchedOpen => "Reached end of tape before finding matching ]",
            BfError::InvalidSymbol => "Invalid program symbol.",
            BfError::StepLimit => "Execution step limit exceeded.",
        }
    }
}

/// How many dispatch steps the engine will take before giving up.
pub const STEP_LIMIT: usize = usize::MAX;

/// The eight instruction symbols.
pub open spec fn is_bf_symbol(c: char) -> bool {
    c == '<' || c == '>' || c == '+' || c == '-' || c == '.' || c == ',' || c == '[' || c == ']'
}

/// The instruction characters of `s`, in their original relative order, with
/// whitespace, comments and every other character removed.
pub open spec fn bf_filter(s: Seq<char>) -> Seq<char>
    decreases s.len(),
{
    if s.len() == 0 {
        Seq::empty()
    } else if is_bf_symbol(s.last()) {
        bf_filter(s.drop_last()).push(s.last())
    } else {
        bf_filter(s.drop_last())
    }
}

/// Filtering never lengthens a sequence.
pub proof fn lemma_bf_filter_len(s: Seq<char>)
    ensures
        bf_filter(s).len() <= s.len(),
    decreases s.len(),
{
    if s.len() > 0 {
        lemma_bf_filter_len(s.drop_last());
    }
}

/// Build a program tape from raw text: every character outside the
/// instruction alphabet is dropped, the rest keep their relative order, and
/// the pointer is rewound to the start. Bracket balance is not checked here;
/// imbalance is detected during execution.
pub fn load_program(text: &Vec<char>) -> (t: Tape<char>)
    requires
        text@.len() <= max_pos(),
    ensures
        t.wf(),
        t.pos_spec() == 0,
        forall|i: int| 0 <= i < bf_filter(text@).len() ==> t.cell(i) == bf_filter(text@)[i],
        forall|i: int| i >= bf_filter(text@).len() ==> t.cell(i) == '\0',
        bf_filter(text@).len() <= text@.len(),
{
    proof {
        lemma_bf_filter_len(text@);
    }
    let mut kept: Vec<char> = Vec::new();
    let mut k: usize = 0;
    while k < text.len()
        invariant
            k <= text@.len(),
            kept@ == bf_filter(text@.subrange(0, k as int)),
            kept@.len() <= k,
        decreases text@.len() - k,
    {
        let c = text[k];
        if c == '<' || c == '>' || c == '+' || c == '-' || c == '.' || c == ',' || c == '['
            || c == ']' {
            kept.push(c);
        }
        proof {
            let pre = text@.subrange(0, k as int);
            let cur = text@.subrange(0, k + 1);
            assert(cur.drop_last() =~= pre);
            assert(cur.last() == text@[k as int]);
            lemma_bf_filter_len(cur);
        }
        k = k + 1;
    }
    proof {
        assert(text@.subrange(0, text@.len() as int) =~= text@);
    }
    Tape::from_elems(&kept)
}

/// The symbol at position `i` of a loaded program: beyond the loaded cells
/// the tape reads blank, which decodes as the end-of-tape sentinel.
pub open spec fn sym_at(prog: Seq<char>, i: int) -> char {
    if 0 <= i < prog.len() {
        prog[i]
    } else {
        '\0'
    }
}

/// What memory cell `i` holds: the value last stored there, or 0 if it was
/// never written.
pub open spec fn mem_read(mem: Map<int, u8>, i: int) -> u8 {
    if mem.dom().contains(i) {
        mem[i]
    } else {
        0u8
    }
}

/// Byte increment, wrapping 255 to 0.
pub open spec fn inc_wrap(b: u8) -> u8 {
    if b == 255 {
        0u8
    } else {
        (b + 1) as u8
    }
}

/// Byte decrement, wrapping 0 to 255.
pub open spec fn dec_wrap(b: u8) -> u8 {
    if b == 0 {
        255u8
    } else {
        (b - 1) as u8
    }
}

/// The position just past the `]` that matches an already-consumed `[`,
/// scanning forward from `pc` with `depth` inner `[` still open; `None` when
/// the end-of-tape sentinel comes first.
pub open spec fn find_close(prog: Seq<char>, pc: int, depth: nat) -> Option<int>
    decreases prog.len() - pc,
{
    let c = sym_at(prog, pc);
    if c == '\0' {
        None
    } else if c == ']' {
        if depth == 0 {
            Some(pc + 1)
        } else {
            find_close(prog, pc + 1, (depth - 1) as nat)
        }
    } else if c == '[' {
        find_close(prog, pc + 1, depth + 1)
    } else {
        find_close(prog, pc + 1, depth)
    }
}

/// Two programs whose symbols agree at every position match brackets alike.
pub proof fn lemma_find_close_same(p1: Seq<char>, p2: Seq<char>, pc: int, depth: nat)
    requires
        forall|i: int| sym_at(p1, i) == sym_at(p2, i),
    ensures
        find_close(p1, pc, depth) == find_close(p2, pc, depth),
    decreases p1.len() - pc,
{
    let c = sym_at(p1, pc);
    assert(sym_at(p2, pc) == c);
    if c != '\0' {
        if c == ']' {
            if depth != 0 {
                lemma_find_close_same(p1, p2, pc + 1, (depth - 1) as nat);
            }
        } else if c == '[' {
            lemma_find_close_same(p1, p2, pc + 1, depth + 1);
        } else {
            lemma_find_close_same(p1, p2, pc + 1, depth);
        }
    }
}

/// The full state of an executing program, as mathematical values.
#[verifier::ext_equal]
pub struct Machine {
    /// Position of the next symbol to fetch on the program tape.
    pub pc: int,
    /// Every memory cell written so far; unwritten cells read as 0.
    pub mem: Map<int, u8>,
    /// The memory pointer.
    pub mp: int,
    /// The bracket stack: the position just past each open `[`, innermost last.
    pub stack: Seq<int>,
    /// The input bytes not yet consumed.
    pub inp: Seq<u8>,
    /// The output bytes emitted so far.
    pub out: Seq<u8>,
}

/// The machine state a program starts in: fresh zeroed memory, memory pointer
/// at 0, empty bracket stack, the whole input still pending, no output.
pub open spec fn init_machine(pc: int, inp: Seq<u8>) -> Machine {
    Machine { pc, mem: Map::empty(), mp: 0, stack: Seq::empty(), inp, out: Seq::empty() }
}

/// What a dispatch step yields: a next state, successful termination with the
/// output, or a failure.
#[verifier::ext_equal]
pub enum SpecOutcome {
    Running(Machine),
    Done(Seq<u8>),
    Fail(BfError),
}

/// One instruction dispatch of the abstract machine: fetch the symbol at
/// `pc`, advance past it, and act. The pointers live in the finite address
/// space of the concrete tapes, so moving one past `max_pos()` fails, exactly
/// as the concrete tape's allocation would.
pub open spec fn spec_step(prog: Seq<char>, m: Machine) -> SpecOutcome {
    let c = sym_at(prog, m.pc);
    let pc1 = m.pc + 1;
    if c == '>' {
        if m.mp >= max_pos() {
            SpecOutcome::Fail(BfError::PointerOutOfRange)
        } else {
            SpecOutcome::Running(Machine { pc: pc1, mp: m.mp + 1, ..m })
        }
    } else if c == '<' {
        if m.mp <= 0 {
            SpecOutcome::Fail(BfError::PointerOutOfRange)
        } else {
            SpecOutcome::Running(Machine { pc: pc1, mp: m.mp - 1, ..m })
        }
    } else if c == '+' {
        SpecOutcome::Running(
            Machine { pc: pc1, mem: m.mem.insert(m.mp, inc_wrap(mem_read(m.mem, m.mp))), ..m },
        )
    } else if c == '-' {
        SpecOutcome::Running(
            Machine { pc: pc1, mem: m.mem.insert(m.mp, dec_wrap(mem_read(m.mem, m.mp))), ..m },
        )
    } else if c == '.' {
        SpecOutcome::Running(Machine { pc: pc1, out: m.out.push(mem_read(m.mem, m.mp)), ..m })
    } else if c == ',' {
        if m.inp.len() > 0 {
            SpecOutcome::Running(
                Machine { pc: pc1, mem: m.mem.insert(m.mp, m.inp[0]), inp: m.inp.skip(1), ..m },
            )
        } else {
            SpecOutcome::Running(Machine { pc: pc1, mem: m.mem.insert(m.mp, 0u8), ..m })
        }
    } else if c == '[' {
        if mem_read(m.mem, m.mp) != 0 {
            SpecOutcome::Running(Machine { pc: pc1, stack: m.stack.push(pc1), ..m })
        } else {
            match find_close(prog, pc1, 0) {
                Some(q) => SpecOutcome::Running(Machine { pc: q, ..m }),
                None => SpecOutcome::Fail(BfError::UnmatchedOpen),
            }
        }
    } else if c == ']' {
        if m.stack.len() == 0 {
            SpecOutcome::Fail(BfError::UnmatchedClose)
        } else if mem_read(m.mem, m.mp) == 0 {
            SpecOutcome::Running(Machine { pc: pc1, stack: m.stack.drop_last(), ..m })
        } else {
            SpecOutcome::Running(Machine { pc: m.stack.last(), ..m })
        }
    } else if c == '\0' {
        SpecOutcome::Done(m.out)
    } else {
        SpecOutcome::Fail(BfError::InvalidSymbol)
    }
}

/// The outcome after at most `n` dispatch steps from `m`: still `Running` if
/// no termination or failure came first.
pub open spec fn run_n(prog: Seq<char>, m: Machine, n: nat) -> SpecOutcome
    decreases n,
{
    if n == 0 {
        SpecOutcome::Running(m)
    } else {
        match spec_step(prog, m) {
            SpecOutcome::Running(m2) => run_n(prog, m2, (n - 1) as nat),
            o => o,
        }
    }
}

/// Running `n + 1` steps is running `n` steps and then one more.
pub proof fn lemma_run_n_snoc(prog: Seq<char>, m: Machine, n: nat)
    ensures
        run_n(prog, m, n + 1) == (match run_n(prog, m, n) {
            SpecOutcome::Running(m2) => spec_step(prog, m2),
            o => o,
        }),
    decreases n,
{
    if n == 0 {
        assert(run_n(prog, m, 0) == SpecOutcome::Running(m));
        match spec_step(prog, m) {
            SpecOutcome::Running(m2) => {
                assert(run_n(prog, m2, 0) == SpecOutcome::Running(m2));
                assert(run_n(prog, m, 1) == SpecOutcome::Running(m2));
            },
            o => {
                assert(run_n(prog, m, 1) == o);
            },
        }
    } else {
        match spec_step(prog, m) {
            SpecOutcome::Running(m2) => {
                lemma_run_n_snoc(prog, m2, (n - 1) as nat);
                assert((n - 1) as nat + 1 == n);
                assert(run_n(prog, m, n + 1) == run_n(prog, m2, n));
                assert(run_n(prog, m, n) == run_n(prog, m2, (n - 1) as nat));
            },
            o => {
                assert(run_n(prog, m, n + 1) == o);
                assert(run_n(prog, m, n) == o);
            },
        }
    }
}

/// Wrapping increment and wrapping decrement are inverse on every byte.
pub proof fn lemma_wrap_inverse(b: u8)
    ensures
        dec_wrap(inc_wrap(b)) == b,
        inc_wrap(dec_wrap(b)) == b,
{
}

/// Executing `+` and then `-` (or `-` and then `+`) on the same memory cell,
/// with nothing in between, leaves a machine that reads every memory cell as
/// before and is otherwise unchanged but for having advanced past the two
/// symbols. Wrapping arithmetic makes this hold for all 256 starting values.
pub proof fn lemma_plus_then_minus_restores(prog: Seq<char>, m: Machine)
    requires
        sym_at(prog, m.pc) == '+' && sym_at(prog, m.pc + 1) == '-' || sym_at(prog, m.pc) == '-'
            && sym_at(prog, m.pc + 1) == '+',
    ensures
        run_n(prog, m, 2) matches SpecOutcome::Running(m2) && {
            &&& m2.pc == m.pc + 2
            &&& m2.mp == m.mp
            &&& m2.stack == m.stack
            &&& m2.inp == m.inp
            &&& m2.out == m.out
            &&& forall|i: int| mem_read(m2.mem, i) == mem_read(m.mem, i)
        },
{
    lemma_wrap_inverse(mem_read(m.mem, m.mp));
    let o1 = spec_step(prog, m);
    assert(o1 is Running);
    let m1 = o1->Running_0;
    let o2 = spec_step(prog, m1);
    assert(o2 is Running);
    let m2 = o2->Running_0;
    assert(run_n(prog, m, 2) == run_n(prog, m1, 1));
    assert(run_n(prog, m1, 1) == run_n(prog, m2, 0));
    assert(run_n(prog, m2, 0) == SpecOutcome::Running(m2));
    assert(forall|i: int| mem_read(m2.mem, i) == mem_read(m.mem, i));
}

/// Once a run has terminated or failed, running longer changes nothing.
pub proof fn lemma_run_n_absorb(prog: Seq<char>, m: Machine, n: nat, k: nat)
    requires
        n <= k,
        !(run_n(prog, m, n) is Running),
    ensures
        run_n(prog, m, k) == run_n(prog, m, n),
    decreases k - n,
{
    if k > n {
        lemma_run_n_absorb(prog, m, n, (k - 1) as nat);
        lemma_run_n_snoc(prog, m, (k - 1) as nat);
    }
}

/// The `[` instruction, with the `[` itself already consumed, so that the
/// program pointer stands just past it. Its position is pushed onto the
/// bracket stack; when the current memory cell is zero the scan skips to just
/// past the matching `]`, removing that entry again, and fails if the
/// end-of-tape sentinel comes first.
fn left_bracket(
    program: &mut Tape<char>,
    memory: &Tape<u8>,
    bracket_stack: &mut Vec<usize>,
) -> (r: Result<(), BfError>)
    requires
        old(program).wf(),
        memory.wf(),
        forall|i: int| i >= max_pos() ==> old(program).cell(i) == '\0',
    ensures
        final(program).wf(),
        forall|i: int| final(program).cell(i) == old(program).cell(i),
        memory.cell(memory.pos_spec()) != 0 ==> {
            &&& r is Ok
            &&& final(program).pos_spec() == old(program).pos_spec()
            &&& final(bracket_stack)@ == old(bracket_stack)@.push(
                old(program).pos_spec() as usize,
            )
        },
        memory.cell(memory.pos_spec()) == 0 ==> (match find_close(
            old(program).contents(),
            old(program).pos_spec(),
            0,
        ) {
            Some(q) => {
                &&& r is Ok
                &&& final(program).pos_spec() == q
                &&& final(bracket_stack)@ == old(bracket_stack)@
            },
            None => r == Result::<(), BfError>::Err(BfError::UnmatchedOpen),
        }),
{
    let ghost c0 = program.contents();
    let orig_len = bracket_stack.len();
    bracket_stack.push(program.pos());
    if memory.get() != 0 {
        return Ok(());
    }
    loop
        invariant
            program.wf(),
            memory.wf(),
            memory.cell(memory.pos_spec()) == 0,
            forall|i: int| program.cell(i) == old(program).cell(i),
            forall|i: int| i >= max_pos() ==> old(program).cell(i) == '\0',
            c0 == old(program).contents(),
            orig_len == old(bracket_stack)@.len(),
            bracket_stack@.len() >= orig_len + 1,
            bracket_stack@.subrange(0, orig_len + 1) == old(bracket_stack)@.push(
                old(program).pos_spec() as usize,
            ),
            find_close(c0, old(program).pos_spec(), 0) == find_close(
                c0,
                program.pos_spec(),
                (bracket_stack@.len() - orig_len - 1) as nat,
            ),
        decreases max_pos() - program.pos_spec(),
    {
        let ghost p = program.pos_spec();
        let ghost depth = (bracket_stack@.len() - orig_len - 1) as nat;
        let c = program.get();
        proof {
            assert(program.cell(p) == old(program).cell(p));
            assert(sym_at(c0, p) == old(program).cell(p)) by {
                assert(forall|i: int| sym_at(c0, i) == old(program).cell(i));
            }
        }
        if c == '\0' {
            return Err(BfError::UnmatchedOpen);
        }
        proof {
            if p >= max_pos() {
                assert(old(program).cell(p) == '\0');
            }
        }
        let _ = program.seek(1);
        if c == '[' {
            bracket_stack.push(program.pos());
            proof {
                assert(bracket_stack@.subrange(0, orig_len + 1) =~= old(
                    bracket_stack,
                )@.push(old(program).pos_spec() as usize));
                assert(find_close(c0, p, depth) == find_close(c0, p + 1, depth + 1));
            }
        } else if c == ']' {
            let ghost prev = bracket_stack@;
            let _ = bracket_stack.pop();
            if bracket_stack.len() == orig_len {
                proof {
                    assert(depth == 0);
                    assert(find_close(c0, p, 0) == Some(p + 1));
                    assert forall|j: int| 0 <= j < orig_len implies bracket_stack@[j] == old(
                        bracket_stack,
                    )@[j] by {
                        assert(bracket_stack@[j] == prev[j]);
                        assert(prev.subrange(0, orig_len + 1)[j] == prev[j]);
                    }
                    assert(bracket_stack@ =~= old(bracket_stack)@);
                }
                return Ok(());
            }
            proof {
                assert(depth >= 1);
                assert(find_close(c0, p, depth) == find_close(c0, p + 1, (depth - 1) as nat));
                assert forall|j: int| 0 <= j < orig_len + 1 implies bracket_stack@[j] == prev[j]
                    by {}
                assert(bracket_stack@.subrange(0, orig_len + 1) =~= prev.subrange(
                    0,
                    orig_len + 1,
                ));
            }
        } else {
            proof {
                assert(find_close(c0, p, depth) == find_close(c0, p + 1, depth));
            }
        }
    }
}

/// The `]` instruction, with the `]` itself already consumed. Fails when no
/// `[` is open; otherwise, a zero memory cell leaves the loop (popping its
/// entry), and a non-zero one jumps back to just past the matching `[`.
fn right_bracket(
    program: &mut Tape<char>,
    memory: &Tape<u8>,
    bracket_stack: &mut Vec<usize>,
) -> (r: Result<(), BfError>)
    requires
        old(program).wf(),
        memory.wf(),
        forall|k: int|
            0 <= k < old(bracket_stack)@.len() ==> old(bracket_stack)@[k] <= max_pos(),
    ensures
        final(program).wf(),
        forall|i: int| final(program).cell(i) == old(program).cell(i),
        old(bracket_stack)@.len() == 0 ==> {
            &&& r == Result::<(), BfError>::Err(BfError::UnmatchedClose)
            &&& final(program).pos_spec() == old(program).pos_spec()
            &&& final(bracket_stack)@ == old(bracket_stack)@
        },
        old(bracket_stack)@.len() > 0 && memory.cell(memory.pos_spec()) == 0 ==> {
            &&& r is Ok
            &&& final(program).pos_spec() == old(program).pos_spec()
            &&& final(bracket_stack)@ == old(bracket_stack)@.drop_last()
        },
        old(bracket_stack)@.len() > 0 && memory.cell(memory.pos_spec()) != 0 ==> {
            &&& r is Ok
            &&& final(program).pos_spec() == old(bracket_stack)@.last()
            &&& final(bracket_stack)@ == old(bracket_stack)@
        },
{
    if bracket_stack.len() == 0 {
        return Err(BfError::UnmatchedClose);
    }
    if memory.get() == 0 {
        let _ = bracket_stack.pop();
        proof {
            assert(bracket_stack@ =~= old(bracket_stack)@.drop_last());
        }
        Ok(())
    } else {
        let target = bracket_stack[bracket_stack.len() - 1];
        program.seek_to(target);
        Ok(())
    }
}

/// Execute a program tape over a fresh zeroed memory tape: `,` consumes the
/// next byte of `input` (or stores 0 once it is exhausted) and `.` appends to
/// the returned output. The result is exactly what the abstract machine
/// yields when run from the corresponding initial state: the collected output
/// on natural termination at the end-of-tape sentinel, the same failure where
/// it fails, and `StepLimit` for a program still running after `STEP_LIMIT`
/// dispatch steps.
pub fn run_program(program: Tape<char>, input: Vec<u8>) -> (r: Result<Vec<u8>, BfError>)
    requires
        program.wf(),
        forall|i: int| i >= max_pos() ==> program.cell(i) == '\0',
    ensures
        ({
            let o = run_n(
                program.contents(),
                init_machine(program.pos_spec(), input@),
                STEP_LIMIT as nat,
            );
            match o {
                SpecOutcome::Done(out) => r matches Ok(v) && v@ == out,
                SpecOutcome::Fail(e) => r == Result::<Vec<u8>, BfError>::Err(e),
                SpecOutcome::Running(_) => r == Result::<Vec<u8>, BfError>::Err(
                    BfError::StepLimit,
                ),
            }
        }),
{
    let ghost prog0 = program.contents();
    let ghost m0 = init_machine(program.pos_spec(), input@);
    let mut prog = program;
    let mut memory = Tape::<u8>::new();
    let mut bracket_stack: Vec<usize> = Vec::new();
    let mut out: Vec<u8> = Vec::new();
    let mut in_idx: usize = 0;
    let mut steps: usize = 0;
    let ghost mut m: Machine = m0;
    proof {
        assert(forall|i: int| sym_at(prog0, i) == prog.cell(i));
    }
    loop
        invariant
            prog0 == program.contents(),
            m0 == init_machine(program.pos_spec(), input@),
            prog.wf(),
            memory.wf(),
            forall|i: int| prog.cell(i) == sym_at(prog0, i),
            forall|i: int| i >= max_pos() ==> sym_at(prog0, i) == '\0',
            run_n(prog0, m0, steps as nat) == SpecOutcome::Running(m),
            steps <= STEP_LIMIT,
            m.pc == prog.pos_spec(),
            m.mp == memory.pos_spec(),
            forall|i: int| memory.cell(i) == mem_read(m.mem, i),
            m.stack.len() == bracket_stack@.len(),
            forall|k: int|
                0 <= k < bracket_stack@.len() ==> m.stack[k] == bracket_stack@[k] as int,
            forall|k: int| 0 <= k < bracket_stack@.len() ==> bracket_stack@[k] <= max_pos(),
            in_idx <= input@.len(),
            m.inp == input@.skip(in_idx as int),
            m.out == out@,
        decreases STEP_LIMIT - steps,
    {
        if steps == STEP_LIMIT {
            return Err(BfError::StepLimit);
        }
        let ghost pre = m;
        let c = prog.get();
        proof {
            assert(sym_at(prog0, m.pc) == c);
        }
        if c == '\0' {
            proof {
                assert(spec_step(prog0, m) == SpecOutcome::Done(out@));
                lemma_run_n_snoc(prog0, m0, steps as nat);
                lemma_run_n_absorb(prog0, m0, (steps + 1) as nat, STEP_LIMIT as nat);
            }
            return Ok(out);
        }
        proof {
            if prog.pos_spec() >= max_pos() {
                assert(sym_at(prog0, prog.pos_spec()) == '\0');
            }
        }
        let _ = prog.seek(1);
        if c == '>' {
            let sr = memory.seek(1);
            if sr.is_err() {
                proof {
                    assert(spec_step(prog0, m) == SpecOutcome::Fail(BfError::PointerOutOfRange));
                    lemma_run_n_snoc(prog0, m0, steps as nat);
                    lemma_run_n_absorb(prog0, m0, (steps + 1) as nat, STEP_LIMIT as nat);
                }
                return Err(BfError::PointerOutOfRange);
            }
            proof {
                m = Machine { pc: pre.pc + 1, mp: pre.mp + 1, ..pre };
            }
        } else if c == '<' {
            let sr = memory.seek(-1);
            if sr.is_err() {
                proof {
                    assert(spec_step(prog0, m) == SpecOutcome::Fail(BfError::PointerOutOfRange));
                    lemma_run_n_snoc(prog0, m0, steps as nat);
                    lemma_run_n_absorb(prog0, m0, (steps + 1) as nat, STEP_LIMIT as nat);
                }
                return Err(BfError::PointerOutOfRange);
            }
            proof {
                m = Machine { pc: pre.pc + 1, mp: pre.mp - 1, ..pre };
            }
        } else if c == '+' {
            let v = memory.get();
            let nv: u8 = if v == 255 {
                0
            } else {
                v + 1
            };
            memory.set(nv);
            proof {
                m = Machine { pc: pre.pc + 1, mem: pre.mem.insert(pre.mp, nv), ..pre };
                assert(nv == inc_wrap(mem_read(pre.mem, pre.mp)));
            }
        } else if c == '-' {
            let v = memory.get();
            let nv: u8 = if v == 0 {
                255
            } else {
                v - 1
            };
            memory.set(nv);
            proof {
                m = Machine { pc: pre.pc + 1, mem: pre.mem.insert(pre.mp, nv), ..pre };
                assert(nv == dec_wrap(mem_read(pre.mem, pre.mp)));
            }
        } else if c == '.' {
            out.push(memory.get());
            proof {
                m = Machine { pc: pre.pc + 1, out: pre.out.push(mem_read(pre.mem, pre.mp)), ..pre };
            }
        } else if c == ',' {
            let b: u8 = if in_idx < input.len() {
                input[in_idx]
            } else {
                0
            };
            memory.set(b);
            if in_idx < input.len() {
                in_idx = in_idx + 1;
                proof {
                    assert(pre.inp.len() > 0);
                    assert(b == pre.inp[0]);
                    m = Machine {
                        pc: pre.pc + 1,
                        mem: pre.mem.insert(pre.mp, b),
                        inp: pre.inp.skip(1),
                        ..pre
                    };
                    assert(input@.skip(in_idx as int) =~= pre.inp.skip(1));
                }
            } else {
                proof {
                    assert(pre.inp.len() == 0);
                    m = Machine { pc: pre.pc + 1, mem: pre.mem.insert(pre.mp, 0u8), ..pre };
                }
            }
        } else if c == '[' {
            let ghost before = prog;
            let res = left_bracket(&mut prog, &memory, &mut bracket_stack);
            proof {
                assert(forall|i: int| sym_at(before.contents(), i) == sym_at(prog0, i)) by {
                    assert(forall|i: int| before.cell(i) == sym_at(prog0, i));
                    assert(forall|i: int| sym_at(before.contents(), i) == before.cell(i));
                }
                lemma_find_close_same(before.contents(), prog0, pre.pc + 1, 0);
            }
            match res {
                Ok(_) => {
                    proof {
                        if mem_read(pre.mem, pre.mp) != 0 {
                            m = Machine { pc: pre.pc + 1, stack: pre.stack.push(pre.pc + 1), ..pre };
                        } else {
                            m = Machine { pc: prog.pos_spec(), ..pre };
                            assert(find_close(prog0, pre.pc + 1, 0) == Some(prog.pos_spec()));
                        }
                    }
                },
                Err(e) => {
                    proof {
                        assert(mem_read(pre.mem, pre.mp) == 0);
                        assert(find_close(prog0, pre.pc + 1, 0) is None);
                        assert(spec_step(prog0, pre) == SpecOutcome::Fail(BfError::UnmatchedOpen));
                        assert(e == BfError::UnmatchedOpen);
                        lemma_run_n_snoc(prog0, m0, steps as nat);
                        lemma_run_n_absorb(prog0, m0, (steps + 1) as nat, STEP_LIMIT as nat);
                    }
                    return Err(e);
                },
            }
        } else if c == ']' {
            let res = right_bracket(&mut prog, &memory, &mut bracket_stack);
            match res {
                Ok(_) => {
                    proof {
                        assert(pre.stack.len() > 0);
                        if mem_read(pre.mem, pre.mp) == 0 {
                            m = Machine { pc: pre.pc + 1, stack: pre.stack.drop_last(), ..pre };
                        } else {
                            m = Machine { pc: pre.stack.last(), ..pre };
                            assert(pre.stack.last() == bracket_stack@.last() as int);
                        }
                    }
                },
                Err(e) => {
                    proof {
                        assert(pre.stack.len() == 0);
                        assert(spec_step(prog0, pre) == SpecOutcome::Fail(BfError::UnmatchedClose));
                        assert(e == BfError::UnmatchedClose);
                        lemma_run_n_snoc(prog0, m0, steps as nat);
                        lemma_run_n_absorb(prog0, m0, (steps + 1) as nat, STEP_LIMIT as nat);
                    }
                    return Err(e);
                },
            }
        } else {
            proof {
                assert(spec_step(prog0, m) == SpecOutcome::Fail(BfError::InvalidSymbol));
                lemma_run_n_snoc(prog0, m0, steps as nat);
                lemma_run_n_absorb(prog0, m0, (steps + 1) as nat, STEP_LIMIT as nat);
            }
            return Err(BfError::InvalidSymbol);
        }
        proof {
            assert(spec_step(prog0, pre) == SpecOutcome::Running(m));
            lemma_run_n_snoc(prog0, m0, steps as nat);
        }
        steps = steps + 1;
    }
}

} // verus!

