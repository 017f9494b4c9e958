use vstd::prelude::*;

use vstd::string::StringSliceAdditionalSpecFns;

use crate::error::InterpError;
use crate::tape::{Tape, TapeModel};
use crate::token::{
    balanced, commands, instr_of, instrs, lemma_instrs_front, lemma_render_all_balanced,
    lemma_render_all_injective, render_all, Token, TokenTree,
};

verus! {

/// Step budget that `run_program` grants: no realistic program repeats loops this often.
pub const STEP_BUDGET: u64 = 0xffff_ffff_ffff_ffff;

/// Mathematical picture of a running program: the tape, how many input bytes were
/// read, and the bytes written so far.
pub struct MachineState {
    pub tape: TapeModel,
    pub consumed: int,
    pub output: Seq<u8>,
}

/// The error a `Result` carries, if any.
pub open spec fn error_of(r: Result<(), InterpError>) -> Option<InterpError> {
    match r {
        Ok(_) => None,
        Err(e) => Some(e),
    }
}

/// Effect of one instruction that is not a loop.
pub open spec fn step(t: Token, s: MachineState, input: Seq<u8>) -> (MachineState, Option<
    InterpError,
>) {
    match t {
        Token::MoveRight => (MachineState { tape: s.tape.moved_right(), ..s }, None),
        Token::MoveLeft => (MachineState { tape: s.tape.moved_left(), ..s }, None),
        Token::Increment => (MachineState { tape: s.tape.incremented(), ..s }, None),
        Token::Decrement => (MachineState { tape: s.tape.decremented(), ..s }, None),
        Token::ReadByte => if s.consumed < input.len() {
            (
                MachineState {
                    tape: s.tape.with_current(input[s.consumed]),
                    consumed: s.consumed + 1,
                    ..s
                },
                None,
            )
        } else {
            (s, Some(InterpError::InputExhausted))
        },
        Token::WriteByte => (MachineState { output: s.output.push(s.tape.current()), ..s }, None),
        Token::Loop(_) => (s, None),
    }
}

/// Runs one instruction from state `s`, reading from `input`. Returns the state reached
/// and the error that stopped the run, if any. Each repetition of a loop spends one
/// unit of `fuel`, and runs its body with what is left.
pub open spec fn run_token(t: Token, s: MachineState, input: Seq<u8>, fuel: nat) -> (
    MachineState,
    Option<InterpError>,
)
    decreases fuel, 1nat,
{
    match t {
        Token::Loop(body) => run_loop(body@, s, input, fuel),
        _ => step(t, s, input),
    }
}

/// Runs `body` while the current cell is not zero, testing before each repetition.
pub open spec fn run_loop(body: Seq<Token>, s: MachineState, input: Seq<u8>, fuel: nat) -> (
    MachineState,
    Option<InterpError>,
)
    decreases fuel, 0nat,
{
    if s.tape.current() == 0 {
        (s, None)
    } else if fuel == 0 {
        (s, Some(InterpError::StepLimitReached))
    } else {
        let (s1, e) = run_seq(body, s, input, (fuel - 1) as nat);
        if e is Some {
            (s1, e)
        } else {
            run_loop(body, s1, input, (fuel - 1) as nat)
        }
    }
}

/// Runs a sequence of instructions in order, stopping at the first error.
pub open spec fn run_seq(ts: Seq<Token>, s: MachineState, input: Seq<u8>, fuel: nat) -> (
    MachineState,
    Option<InterpError>,
)
    decreases fuel, ts.len() + 2,
{
    if ts.len() == 0 {
        (s, None)
    } else {
        let (s1, e) = run_token(ts[0], s, input, fuel);
        if e is Some {
            (s1, e)
        } else {
            run_seq(ts.drop_first(), s1, input, fuel)
        }
    }
}

/// State at the start of a run: one zero cell, nothing read, nothing written.
pub open spec fn initial_state() -> MachineState {
    MachineState {
        tape: TapeModel { cells: seq![0u8], pointer: 0 },
        consumed: 0,
        output: Seq::empty(),
    }
}

/// The loop `[-]` started on a cell holding `N` repeats its body exactly `N` times: with
/// `N` units of fuel or more it stops with the cell at zero and nothing else changed,
/// and with fewer it runs out of steps.
pub proof fn lemma_clear_loop(body: Seq<Token>, s: MachineState, input: Seq<u8>, fuel: nat)
    requires
        body == seq![Token::Decrement],
        s.tape.wf(),
    ensures
        fuel >= s.tape.current() ==> run_loop(body, s, input, fuel) == (
            MachineState { tape: s.tape.with_current(0), ..s },
            None::<InterpError>,
        ),
        fuel < s.tape.current() ==> run_loop(body, s, input, fuel).1 == Some(
            InterpError::StepLimitReached,
        ),
    decreases s.tape.current(),
{
    if s.tape.current() == 0 {
        assert(s.tape.with_current(0).cells =~= s.tape.cells);
        assert(MachineState { tape: s.tape.with_current(0), ..s } == s);
    } else if fuel > 0 {
        let s1 = MachineState { tape: s.tape.decremented(), ..s };
        assert(body.drop_first() =~= Seq::<Token>::empty());
        assert(run_token(body[0], s, input, (fuel - 1) as nat) == (s1, None::<InterpError>));
        assert(run_seq(body.drop_first(), s1, input, (fuel - 1) as nat) == (
            s1,
            None::<InterpError>,
        ));
        assert(run_seq(body, s, input, (fuel - 1) as nat) == (s1, None::<InterpError>));
        assert(s1.tape.current() == s.tape.current() - 1);
        lemma_clear_loop(body, s1, input, (fuel - 1) as nat);
        assert(s1.tape.with_current(0).cells =~= s.tape.with_current(0).cells);
    }
}

proof fn lemma_token_congruent(t: Token, u: Token, s: MachineState, input: Seq<u8>, fuel: nat)
    requires
        instr_of(t) == instr_of(u),
    ensures
        run_token(t, s, input, fuel) == run_token(u, s, input, fuel),
    decreases fuel, 1nat,
{
    match t {
        Token::Loop(p) => {
            match u {
                Token::Loop(q) => {
                    lemma_loop_congruent(p@, q@, s, input, fuel);
                },
                _ => {},
            }
        },
        _ => {},
    }
}

proof fn lemma_loop_congruent(
    p: Seq<Token>,
    q: Seq<Token>,
    s: MachineState,
    input: Seq<u8>,
    fuel: nat,
)
    requires
        instrs(p) == instrs(q),
    ensures
        run_loop(p, s, input, fuel) == run_loop(q, s, input, fuel),
    decreases fuel, 0nat,
{
    if s.tape.current() != 0 && fuel > 0 {
        lemma_seq_congruent(p, q, s, input, (fuel - 1) as nat);
        let s1 = run_seq(p, s, input, (fuel - 1) as nat).0;
        lemma_loop_congruent(p, q, s1, input, (fuel - 1) as nat);
    }
}

proof fn lemma_seq_congruent(p: Seq<Token>, q: Seq<Token>, s: MachineState, input: Seq<u8>, fuel: nat)
    requires
        instrs(p) == instrs(q),
    ensures
        run_seq(p, s, input, fuel) == run_seq(q, s, input, fuel),
    decreases fuel, p.len() + 2,
{
    lemma_instrs_front(p);
    lemma_instrs_front(q);
    if p.len() > 0 {
        assert(instrs(p)[0] == instr_of(p[0]));
        assert(instrs(q)[0] == instr_of(q[0]));
        assert(instrs(p.drop_first()) =~= instrs(p).drop_first());
        assert(instrs(q.drop_first()) =~= instrs(q).drop_first());
        lemma_token_congruent(p[0], q[0], s, input, fuel);
        let s1 = run_token(p[0], s, input, fuel).0;
        lemma_seq_congruent(p.drop_first(), q.drop_first(), s1, input, fuel);
    }
}

/// Programs with the same source text behave alike: any two instruction sequences that
/// render to the same bytes give the same run from every state.
pub proof fn lemma_same_text_same_run(
    p: Seq<Token>,
    q: Seq<Token>,
    s: MachineState,
    input: Seq<u8>,
    fuel: nat,
)
    requires
        render_all(p) == render_all(q),
    ensures
        run_seq(p, s, input, fuel) == run_seq(q, s, input, fuel),
{
    lemma_render_all_injective(p, q);
    lemma_seq_congruent(p, q, s, input, fuel);
}

/// A tape with the input a program reads and the output it has written.
pub struct Machine {
    pub tape: Tape,
    pub input: Vec<u8>,
    pub consumed: usize,
    pub output: Vec<u8>,
}

impl Machine {
    pub open spec fn state(&self) -> MachineState {
        MachineState {
            tape: self.tape@,
            consumed: self.consumed as int,
            output: self.output@,
        }
    }

    pub open spec fn wf(&self) -> bool {
        self.tape.wf() && self.consumed <= self.input@.len()
    }

    /// A machine with a fresh tape that will read `input`.
    pub fn new(input: Vec<u8>) -> (r: Machine)
        ensures
            r.wf(),
            r.state() == initial_state(),
            r.input@ == input@,
    {
        let r = Machine { tape: Tape::new(), input, consumed: 0, output: Vec::new() };
        assert(r.output@ =~= Seq::<u8>::empty());
        r
    }
}

/// Runs one instruction on the machine.
pub fn process_token(m: &mut Machine, token: &Token, fuel: u64) -> (r: Result<(), InterpError>)
    requires
        old(m).wf(),
    ensures
        final(m).wf(),
        final(m).input@ == old(m).input@,
        run_token(*token, old(m).state(), old(m).input@, fuel as nat) == (
            final(m).state(),
            error_of(r),
        ),
    decreases fuel, 1nat,
{
    match token {
        Token::MoveRight => {
            m.tape.move_pointer_right();
            Ok(())
        },
        Token::MoveLeft => {
            m.tape.move_pointer_left();
            Ok(())
        },
        Token::Increment => {
            m.tape.increment_cell();
            Ok(())
        },
        Token::Decrement => {
            m.tape.decrement_cell();
            Ok(())
        },
        Token::ReadByte => {
            if m.consumed < m.input.len() {
                let b = m.input[m.consumed];
                m.tape.set_cell(b);
                m.consumed = m.consumed + 1;
                Ok(())
            } else {
                Err(InterpError::InputExhausted)
            }
        },
        Token::WriteByte => {
            let b = m.tape.current_cell();
            m.output.push(b);
            Ok(())
        },
        Token::Loop(body) => execute_loop(m, body, fuel),
    }
}

/// Runs `body` while the current cell is not zero.
fn execute_loop(m: &mut Machine, body: &Vec<Token>, fuel: u64) -> (r: Result<(), InterpError>)
    requires
        old(m).wf(),
    ensures
        final(m).wf(),
        final(m).input@ == old(m).input@,
        run_loop(body@, old(m).state(), old(m).input@, fuel as nat) == (
            final(m).state(),
            error_of(r),
        ),
    decreases fuel, 0nat,
{
    let mut f: u64 = fuel;
    while !m.tape.is_cell_zero()
        invariant
            m.wf(),
            m.input@ == old(m).input@,
            f <= fuel,
            run_loop(body@, old(m).state(), old(m).input@, fuel as nat) == run_loop(
                body@,
                m.state(),
                m.input@,
                f as nat,
            ),
        decreases f,
    {
        if f == 0 {
            return Err(InterpError::StepLimitReached);
        }
        f = f - 1;
        let res = execute_seq(m, body, f);
        if res.is_err() {
            return res;
        }
    }
    Ok(())
}

/// Runs the instructions of `ts` in order, stopping at the first error.
fn execute_seq(m: &mut Machine, ts: &Vec<Token>, fuel: u64) -> (r: Result<(), InterpError>)
    requires
        old(m).wf(),
    ensures
        final(m).wf(),
        final(m).input@ == old(m).input@,
        run_seq(ts@, old(m).state(), old(m).input@, fuel as nat) == (final(m).state(), error_of(r)),
    decreases fuel, 2nat,
{
    let mut i: usize = 0;
    assert(ts@.subrange(0, ts@.len() as int) =~= ts@);
    while i < ts.len()
        invariant
            i <= ts@.len(),
            m.wf(),
            m.input@ == old(m).input@,
            run_seq(ts@, old(m).state(), old(m).input@, fuel as nat) == run_seq(
                ts@.subrange(i as int, ts@.len() as int),
                m.state(),
                m.input@,
                fuel as nat,
            ),
        decreases ts@.len() - i,
    {
        let ghost rest = ts@.subrange(i as int, ts@.len() as int);
        assert(rest[0] == ts@[i as int]);
        assert(rest.drop_first() =~= ts@.subrange(i + 1, ts@.len() as int));
        let res = process_token(m, &ts[i], fuel);
        if res.is_err() {
            return res;
        }
        i = i + 1;
    }
    assert(ts@.subrange(i as int, ts@.len() as int) =~= Seq::<Token>::empty());
    Ok(())
}

/// Runs a parsed program on the machine, with `fuel` bounding loop repetitions.
pub fn execute(program: &TokenTree, m: &mut Machine, fuel: u64) -> (r: Result<(), InterpError>)
    requires
        old(m).wf(),
    ensures
        final(m).wf(),
        final(m).input@ == old(m).input@,
        run_seq(program.0@, old(m).state(), old(m).input@, fuel as nat) == (
            final(m).state(),
            error_of(r),
        ),
{
    execute_seq(m, &program.0, fuel)
}

/// Parses `program` and runs it on a fresh tape that reads `input`. Returns the bytes
/// written and how the run ended: a parse failure writes nothing.
pub fn run_program(program: &str, input: Vec<u8>) -> (r: (Vec<u8>, Result<(), InterpError>))
    ensures
        !balanced(commands(program.spec_bytes())) ==> r.0@.len() == 0 && r.1 == Err::<
            (),
            InterpError,
        >(InterpError::MalformedProgram),
        balanced(commands(program.spec_bytes())) ==> exists|ts: Seq<Token>|
            render_all(ts) == commands(program.spec_bytes()),
        forall|ts: Seq<Token>|
            render_all(ts) == commands(program.spec_bytes()) ==> {
                &&& #[trigger] run_seq(ts, initial_state(), input@, STEP_BUDGET as nat).0.output
                    == r.0@
                &&& run_seq(ts, initial_state(), input@, STEP_BUDGET as nat).1 == error_of(r.1)
            },
{
    match TokenTree::from_str(program) {
        Err(e) => {
            proof {
                assert forall|ts: Seq<Token>|
                    render_all(ts) != commands(program.spec_bytes()) by {
                    lemma_render_all_balanced(ts);
                }
            }
            (Vec::new(), Err(e))
        },
        Ok(tree) => {
            let mut m = Machine::new(input);
            let res = execute(&tree, &mut m, STEP_BUDGET);
            assert forall|ts: Seq<Token>|
                render_all(ts) == commands(program.spec_bytes()) implies {
                &&& #[trigger] run_seq(ts, initial_state(), input@, STEP_BUDGET as nat).0.output
                    == m.output@
                &&& run_seq(ts, initial_state(), input@, STEP_BUDGET as nat).1 == error_of(res)
            } by {
                lemma_same_text_same_run(ts, tree.0@, initial_state(), input@, STEP_BUDGET as nat);
            }
            (m.output, res)
        },
    }
}

} // verus!
