//! Classic Turing machines of the `turing_machine_rs` engine over `char`
//! symbols: their mathematical model, the trusted items that build and run
//! them, and the reading of a tape.

use vstd::prelude::*;
use turing_machine_rs::machines::Classic;
use turing_machine_rs::program::{Extend, Program};
use turing_machine_rs::state::Tape;
use turing_machine_rs::TuringMachine;
use vstd::std_specs::iter::IteratorSpec;
use turing_machine_rs::instruction::Move as EngineMove;

verus! {

/// A program of the engine over `char` symbols. Verus refuses to declare
/// `turing_machine_rs::program::Program` itself (its parameter is bound by the
/// engine's `Symbol` trait), so the program is held in a private field and read
/// only through `program_view`.
#[verifier::external_body]
pub struct EngineProgram {
    inner: Program<char>,
}

/// A classic machine of the engine over `char` symbols, held in a private field
/// for the same reason and read only through `machine_view`.
#[verifier::external_body]
pub struct EngineMachine {
    inner: Classic<char>,
}

/// Where the head goes after writing a symbol (`Stay` is the engine's `Move::None`).
#[derive(Clone, Copy, Debug, PartialEq, Eq, Structural)]
pub enum Move {
    Left,
    Right,
    Stay,
}

/// One instruction, as the engine's `extend` takes it: in state `.0`, reading
/// `.1`, go to state `.2`, write `.3` and move by `.4`.
pub type Rule = (usize, char, usize, char, Move);

/// What an instruction does once its head matched.
pub struct Action {
    pub next: nat,
    pub write: char,
    pub shift: Move,
}

pub open spec fn act(next: nat, write: char, shift: Move) -> Action {
    Action { next, write, shift }
}

/// A program: its alphabet, its last state and its instructions, keyed by the
/// state and the symbol read.
pub struct ProgramModel {
    pub alphabet: Seq<char>,
    pub last_state: nat,
    pub table: Map<(nat, char), Action>,
}

/// A classic machine: a program and the blank symbol that fills new cells.
pub struct MachineModel {
    pub program: ProgramModel,
    pub blank: char,
}

/// A configuration: the tape, the position of the head and the state.
pub struct Conf {
    pub tape: Seq<char>,
    pub head: int,
    pub state: nat,
}

/// The instructions held by a `turing_machine_rs::program::Program<char>`.
pub uninterp spec fn program_view(p: EngineProgram) -> ProgramModel;

/// The program and the blank symbol held by a `turing_machine_rs::machines::Classic<char>`.
pub uninterp spec fn machine_view(m: EngineMachine) -> MachineModel;

pub open spec fn rule_key(r: Rule) -> (nat, char) {
    (r.0 as nat, r.1)
}

pub open spec fn rule_action(r: Rule) -> Action {
    Action { next: r.2 as nat, write: r.3, shift: r.4 }
}

/// The checks of `Program::insert`: the head state is not 0, both symbols are in
/// the alphabet, and neither state exceeds the last state.
pub open spec fn rule_fits(alphabet: Seq<char>, last_state: nat, r: Rule) -> bool {
    &&& r.0 != 0
    &&& alphabet.contains(r.1)
    &&& alphabet.contains(r.3)
    &&& r.0 <= last_state
    &&& r.2 <= last_state
}

pub open spec fn rules_fit(alphabet: Seq<char>, last_state: nat, rules: Seq<Rule>) -> bool {
    forall|i: int| 0 <= i < rules.len() ==> rule_fits(alphabet, last_state, #[trigger] rules[i])
}

/// The first `n` rules fit.
pub open spec fn rules_fit_upto(alphabet: Seq<char>, last_state: nat, rules: Seq<Rule>, n: nat) -> bool
    decreases n,
{
    n == 0 || (rules_fit_upto(alphabet, last_state, rules, (n - 1) as nat) && rule_fits(
        alphabet,
        last_state,
        rules[n - 1],
    ))
}

pub proof fn lemma_rules_fit_upto(alphabet: Seq<char>, last_state: nat, rules: Seq<Rule>, n: nat)
    requires
        n <= rules.len(),
        rules_fit_upto(alphabet, last_state, rules, n),
    ensures
        forall|i: int| 0 <= i < n ==> rule_fits(alphabet, last_state, #[trigger] rules[i]),
    decreases n,
{
    if n > 0 {
        lemma_rules_fit_upto(alphabet, last_state, rules, (n - 1) as nat);
    }
}

pub proof fn lemma_rules_fit_append(alphabet: Seq<char>, last_state: nat, first: Seq<Rule>, second: Seq<Rule>)
    requires
        rules_fit(alphabet, last_state, first),
        rules_fit(alphabet, last_state, second),
    ensures
        rules_fit(alphabet, last_state, first + second),
{
    assert forall|i: int| 0 <= i < (first + second).len() implies rule_fits(
        alphabet,
        last_state,
        #[trigger] (first + second)[i],
    ) by {
        if i < first.len() {
            assert((first + second)[i] == first[i]);
        } else {
            assert((first + second)[i] == second[i - first.len()]);
        }
    }
}

/// The number of leading rules that fit.
pub open spec fn fitting_prefix(alphabet: Seq<char>, last_state: nat, rules: Seq<Rule>) -> nat
    decreases rules.len(),
{
    if rules.len() == 0 {
        0
    } else if !rule_fits(alphabet, last_state, rules[0]) {
        0
    } else {
        1 + fitting_prefix(alphabet, last_state, rules.drop_first())
    }
}

/// `table` after inserting the first `n` rules in order; a rule replaces an
/// earlier instruction with the same state and symbol.
pub open spec fn insert_rules(table: Map<(nat, char), Action>, rules: Seq<Rule>, n: nat) -> Map<
    (nat, char),
    Action,
>
    decreases n,
{
    if n == 0 {
        table
    } else {
        insert_rules(table, rules, (n - 1) as nat).insert(
            rule_key(rules[n - 1]),
            rule_action(rules[n - 1]),
        )
    }
}

pub proof fn lemma_insert_rules_prefix(
    table: Map<(nat, char), Action>,
    rules: Seq<Rule>,
    other: Seq<Rule>,
    n: nat,
)
    requires
        n <= rules.len(),
        n <= other.len(),
        forall|i: int| 0 <= i < n ==> rules[i] == other[i],
    ensures
        insert_rules(table, rules, n) == insert_rules(table, other, n),
    decreases n,
{
    if n > 0 {
        lemma_insert_rules_prefix(table, rules, other, (n - 1) as nat);
        assert(rules[n - 1] == other[n - 1]);
    }
}

/// Inserting two lists of rules one after the other inserts their concatenation.
pub proof fn lemma_insert_rules_append(
    table: Map<(nat, char), Action>,
    first: Seq<Rule>,
    second: Seq<Rule>,
    n: nat,
)
    requires
        n <= second.len(),
    ensures
        insert_rules(table, first + second, first.len() + n) == insert_rules(
            insert_rules(table, first, first.len()),
            second,
            n,
        ),
    decreases n,
{
    if n == 0 {
        lemma_insert_rules_prefix(table, first + second, first, first.len());
    } else {
        lemma_insert_rules_append(table, first, second, (n - 1) as nat);
        assert((first + second)[first.len() + n - 1] == second[n - 1]);
        assert((first.len() + n - 1) as nat == first.len() + (n - 1) as nat);
    }
}

pub proof fn lemma_fitting_prefix(alphabet: Seq<char>, last_state: nat, rules: Seq<Rule>)
    ensures
        fitting_prefix(alphabet, last_state, rules) <= rules.len(),
        fitting_prefix(alphabet, last_state, rules) == rules.len() <==> rules_fit(
            alphabet,
            last_state,
            rules,
        ),
    decreases rules.len(),
{
    if rules.len() > 0 {
        lemma_fitting_prefix(alphabet, last_state, rules.drop_first());
        if rule_fits(alphabet, last_state, rules[0]) && rules_fit(
            alphabet,
            last_state,
            rules.drop_first(),
        ) {
            assert forall|i: int| 0 <= i < rules.len() implies rule_fits(
                alphabet,
                last_state,
                #[trigger] rules[i],
            ) by {
                if i > 0 {
                    assert(rules[i] == rules.drop_first()[i - 1]);
                }
            }
        }
        if rules_fit(alphabet, last_state, rules) {
            assert forall|i: int| 0 <= i < rules.drop_first().len() implies rule_fits(
                alphabet,
                last_state,
                #[trigger] rules.drop_first()[i],
            ) by {
                assert(rules.drop_first()[i] == rules[i + 1]);
            }
        }
    }
}

/// Creates an empty program with `turing_machine_rs::program::Program::new`.
///
/// Trusted: the program has the given alphabet and last state and no
/// instruction. `Program::new` reserves room for `alphabet.len() * last_state`
/// instructions, so that product must not overflow and the reservation (at most
/// 32 bytes an instruction of `char`s) must stay within `isize::MAX` bytes.
#[verifier::external_body]
pub(crate) fn program_new(alphabet: Vec<char>, last_state: usize) -> (p: EngineProgram)
    requires
        alphabet@.len() * last_state * 32 <= isize::MAX,
    ensures
        program_view(p) == (ProgramModel {
            alphabet: alphabet@,
            last_state: last_state as nat,
            table: Map::empty(),
        }),
{
    EngineProgram { inner: Program::new(alphabet, turing_machine_rs::instruction::State(last_state)) }
}

/// Inserts `rules` in order with `turing_machine_rs::program::Extend::extend`.
///
/// Trusted: `extend` inserts the rules one by one with `Program::insert` and
/// stops at the first rule that does not fit; each insertion replaces the
/// instruction with the same state and symbol, if any. The alphabet and the last
/// state do not change, and the result is `Ok` exactly when every rule fits. The
/// text of the error message is left unsaid.
#[verifier::external_body]
pub(crate) fn program_extend(program: &mut EngineProgram, rules: &Vec<Rule>) -> (r: Result<(), String>)
    ensures
        program_view(*final(program)).alphabet == program_view(*old(program)).alphabet,
        program_view(*final(program)).last_state == program_view(*old(program)).last_state,
        r is Ok <==> fitting_prefix(program_view(*old(program)).alphabet, program_view(*old(program)).last_state, rules@) == rules@.len(),
        program_view(*final(program)).table == insert_rules(program_view(*old(program)).table, rules@, fitting_prefix(program_view(*old(program)).alphabet, program_view(*old(program)).last_state, rules@)),
{
    let rows: Vec<(usize, char, usize, char, EngineMove)> = rules.iter().map(
        |r| (r.0, r.1, r.2, r.3, match r.4 {
            Move::Left => EngineMove::Left,
            Move::Right => EngineMove::Right,
            Move::Stay => EngineMove::None,
        }),
    ).collect();
    program.inner.extend(rows)
}

/// Builds a machine with `turing_machine_rs::machines::Classic::new`.
///
/// Trusted: the result is `Ok` exactly when the blank symbol is in the program's
/// alphabet, and the machine then holds the program and that blank. The text of
/// the error message is left unsaid.
#[verifier::external_body]
pub(crate) fn classic_new(program: EngineProgram, blank: char) -> (r: Result<EngineMachine, String>)
    ensures
        r is Ok <==> program_view(program).alphabet.contains(blank),
        r matches Ok(m) ==> machine_view(m) == (MachineModel { program: program_view(program), blank }),
{
    match Classic::new(program.inner, blank) {
        Ok(inner) => Ok(EngineMachine { inner }),
        Err(message) => Err(message),
    }
}

/// The instruction for `state` and `symbol`, if the engine finds one.
pub open spec fn lookup(m: MachineModel, state: nat, symbol: char) -> Option<Action> {
    if state > m.program.last_state || !m.program.table.contains_key((state, symbol)) {
        Option::None
    } else {
        Some(m.program.table[(state, symbol)])
    }
}

/// Moves the head as `Configuration::shift` does: a move off either end of the
/// tape adds a blank cell there.
pub open spec fn shift_head(blank: char, c: Conf, movement: Move) -> Conf {
    match movement {
        Move::Left => if c.head == 0 {
            Conf { tape: seq![blank] + c.tape, head: 0, state: c.state }
        } else {
            Conf { tape: c.tape, head: c.head - 1, state: c.state }
        },
        Move::Stay => c,
        Move::Right => if c.head + 1 == c.tape.len() {
            Conf { tape: c.tape.push(blank), head: c.head + 1, state: c.state }
        } else {
            Conf { tape: c.tape, head: c.head + 1, state: c.state }
        },
    }
}

/// One step of a classic machine; `Option::None` when the engine finds no
/// instruction. A machine in state 0 has halted and stays as it is.
pub open spec fn step(m: MachineModel, c: Conf) -> Option<Conf> {
    if c.state == 0 {
        Some(c)
    } else {
        match lookup(m, c.state, c.tape[c.head]) {
            Option::None => Option::None,
            Some(a) => Some(
                shift_head(
                    m.blank,
                    Conf { tape: c.tape.update(c.head, a.write), head: c.head, state: a.next },
                    a.shift,
                ),
            ),
        }
    }
}

/// The configuration after `n` steps, or `Option::None` when the machine got stuck.
pub open spec fn run(m: MachineModel, c: Conf, n: nat) -> Option<Conf>
    decreases n,
{
    if n == 0 {
        Some(c)
    } else {
        match step(m, c) {
            Option::None => Option::None,
            Some(next) => run(m, next, (n - 1) as nat),
        }
    }
}

/// The configuration that `translate_nrm` starts from: the head on the first
/// cell, in state 1.
pub open spec fn start_conf(tape: Seq<char>) -> Conf {
    Conf { tape, head: 0, state: 1 }
}

/// The machine halts from `c`, leaving `tape`.
pub open spec fn halts_with(m: MachineModel, c: Conf, tape: Seq<char>) -> bool {
    exists|n: nat| #[trigger] run(m, c, n) matches Some(f) && f.state == 0 && f.tape == tape
}

/// The machine gets stuck from `c`: it reaches a state and symbol with no
/// instruction.
pub open spec fn gets_stuck(m: MachineModel, c: Conf) -> bool {
    exists|n: nat| #[trigger] run(m, c, n) is None
}

pub open spec fn finishes(m: MachineModel, c: Conf) -> bool {
    (exists|tape: Seq<char>| halts_with(m, c, tape)) || gets_stuck(m, c)
}

/// `c2` follows from `c1` after some number of steps.
pub open spec fn reaches(m: MachineModel, c1: Conf, c2: Conf) -> bool {
    exists|n: nat| #[trigger] run(m, c1, n) == Some(c2)
}

pub proof fn lemma_run_split(m: MachineModel, c: Conf, a: nat, b: nat)
    ensures
        run(m, c, a + b) == (match run(m, c, a) {
            Option::None => Option::None,
            Some(mid) => run(m, mid, b),
        }),
    decreases a,
{
    if a > 0 {
        match step(m, c) {
            Option::None => {},
            Some(next) => {
                lemma_run_split(m, next, (a - 1) as nat, b);
                assert((a + b - 1) as nat == (a - 1) as nat + b);
            },
        }
    }
}

pub proof fn lemma_halted_stays(m: MachineModel, c: Conf, n: nat)
    requires
        c.state == 0,
    ensures
        run(m, c, n) == Some(c),
    decreases n,
{
    if n > 0 {
        lemma_halted_stays(m, c, (n - 1) as nat);
    }
}

pub proof fn lemma_stuck_stays(m: MachineModel, c: Conf, n: nat, k: nat)
    requires
        run(m, c, n) is None,
    ensures
        run(m, c, n + k) is None,
{
    lemma_run_split(m, c, n, k);
}

/// A machine that halts leaves one tape only, and then it does not get stuck.
pub proof fn lemma_halting_is_determined(m: MachineModel, c: Conf, tape: Seq<char>)
    requires
        halts_with(m, c, tape),
    ensures
        finishes(m, c),
        !gets_stuck(m, c),
        forall|other: Seq<char>| halts_with(m, c, other) ==> other == tape,
{
    let n = choose|n: nat| #[trigger] run(m, c, n) matches Some(f) && f.state == 0 && f.tape == tape;
    let f = run(m, c, n)->Some_0;
    assert forall|k: nat| #[trigger] run(m, c, k) matches Some(g) ==> (g.state == 0 ==> g == f) && (k >= n ==> g == f) by {
        if let Some(g) = run(m, c, k) {
            if k >= n {
                lemma_run_split(m, c, n, (k - n) as nat);
                lemma_halted_stays(m, f, (k - n) as nat);
            } else if g.state == 0 {
                lemma_run_split(m, c, k, (n - k) as nat);
                lemma_halted_stays(m, g, (n - k) as nat);
            }
        }
    }
    assert forall|k: nat| !(#[trigger] run(m, c, k) is None) by {
        if k >= n {
            lemma_run_split(m, c, n, (k - n) as nat);
            lemma_halted_stays(m, f, (k - n) as nat);
        } else if run(m, c, k) is None {
            lemma_stuck_stays(m, c, k, (n - k) as nat);
            assert(k + (n - k) as nat == n);
        }
    }
    assert forall|other: Seq<char>| halts_with(m, c, other) implies other == tape by {
        let k = choose|k: nat| #[trigger] run(m, c, k) matches Some(g) && g.state == 0 && g.tape == other;
    }
}

pub proof fn lemma_reaches_refl(m: MachineModel, c: Conf)
    ensures
        reaches(m, c, c),
{
    assert(run(m, c, 0) == Some(c));
}

pub proof fn lemma_reaches_step(m: MachineModel, c: Conf)
    requires
        step(m, c) is Some,
    ensures
        reaches(m, c, step(m, c)->Some_0),
{
    let next = step(m, c)->Some_0;
    assert(run(m, next, 0) == Some(next));
    assert(run(m, c, 1) == Some(next));
}

pub proof fn lemma_reaches_trans(m: MachineModel, c1: Conf, c2: Conf, c3: Conf)
    requires
        reaches(m, c1, c2),
        reaches(m, c2, c3),
    ensures
        reaches(m, c1, c3),
{
    let a = choose|n: nat| #[trigger] run(m, c1, n) == Some(c2);
    let b = choose|n: nat| #[trigger] run(m, c2, n) == Some(c3);
    lemma_run_split(m, c1, a, b);
}

/// A machine that reaches a halted configuration halts with its tape.
pub proof fn lemma_reaches_halt(m: MachineModel, c: Conf, f: Conf)
    requires
        reaches(m, c, f),
        f.state == 0,
    ensures
        halts_with(m, c, f.tape),
{
    let n = choose|n: nat| #[trigger] run(m, c, n) == Some(f);
    assert(run(m, c, n) matches Some(g) && g.state == 0 && g.tape == f.tape);
}

/// The head moves right from `from` to `to` over cells whose instruction in
/// `state` keeps the symbol, the state and the direction.
pub proof fn lemma_scan_right(m: MachineModel, tape: Seq<char>, state: nat, from: int, to: int)
    requires
        0 <= from <= to < tape.len(),
        state != 0,
        forall|i: int|
            from <= i < to ==> lookup(m, state, #[trigger] tape[i]) == Some(
                Action { next: state, write: tape[i], shift: Move::Right },
            ),
    ensures
        reaches(m, Conf { tape, head: from, state }, Conf { tape, head: to, state }),
    decreases to - from,
{
    let c = Conf { tape, head: from, state };
    if from < to {
        assert(lookup(m, state, tape[from]) == Some(
            Action { next: state, write: tape[from], shift: Move::Right },
        ));
        assert(tape.update(from, tape[from]) =~= tape);
        let next = Conf { tape, head: from + 1, state };
        assert(step(m, c) == Some(next));
        lemma_reaches_step(m, c);
        lemma_scan_right(m, tape, state, from + 1, to);
        lemma_reaches_trans(m, c, next, Conf { tape, head: to, state });
    } else {
        lemma_reaches_refl(m, c);
    }
}

/// The head moves left from `from` to `to` over cells whose instruction in
/// `state` keeps the symbol, the state and the direction.
pub proof fn lemma_scan_left(m: MachineModel, tape: Seq<char>, state: nat, from: int, to: int)
    requires
        0 <= to <= from < tape.len(),
        state != 0,
        forall|i: int|
            to < i <= from ==> lookup(m, state, #[trigger] tape[i]) == Some(
                Action { next: state, write: tape[i], shift: Move::Left },
            ),
    ensures
        reaches(m, Conf { tape, head: from, state }, Conf { tape, head: to, state }),
    decreases from - to,
{
    let c = Conf { tape, head: from, state };
    if to < from {
        assert(lookup(m, state, tape[from]) == Some(
            Action { next: state, write: tape[from], shift: Move::Left },
        ));
        assert(tape.update(from, tape[from]) =~= tape);
        let next = Conf { tape, head: from - 1, state };
        assert(step(m, c) == Some(next));
        lemma_reaches_step(m, c);
        lemma_scan_left(m, tape, state, from - 1, to);
        lemma_reaches_trans(m, c, next, Conf { tape, head: to, state });
    } else {
        lemma_reaches_refl(m, c);
    }
}

/// The head moves right over the cells from `from` to the last one, which keep
/// their symbols, and steps off the end, where the engine adds a blank.
pub proof fn lemma_scan_right_off_end(m: MachineModel, tape: Seq<char>, state: nat, from: int)
    requires
        0 <= from < tape.len(),
        state != 0,
        forall|i: int|
            from <= i < tape.len() ==> lookup(m, state, #[trigger] tape[i]) == Some(
                Action { next: state, write: tape[i], shift: Move::Right },
            ),
    ensures
        reaches(
            m,
            Conf { tape, head: from, state },
            Conf { tape: tape.push(m.blank), head: tape.len() as int, state },
        ),
{
    let last = tape.len() - 1;
    lemma_scan_right(m, tape, state, from, last);
    let c1 = Conf { tape, head: last, state };
    assert(lookup(m, state, tape[last]) == Some(
        Action { next: state, write: tape[last], shift: Move::Right },
    ));
    assert(tape.update(last, tape[last]) =~= tape);
    let c2 = Conf { tape: tape.push(m.blank), head: tape.len() as int, state };
    assert(step(m, c1) == Some(c2));
    lemma_reaches_step(m, c1);
    lemma_reaches_trans(m, Conf { tape, head: from, state }, c1, c2);
}

/// `tape` with the cells from `from` up to `to` (excluded) rewritten by `f`.
pub open spec fn rewritten(tape: Seq<char>, from: int, to: int, f: spec_fn(char) -> char) -> Seq<char> {
    Seq::new(tape.len(), |i: int| if from <= i < to { f(tape[i]) } else { tape[i] })
}

/// The head moves right from `from` to `to`, each instruction on the way
/// keeping the state and rewriting its cell by `f`.
pub proof fn lemma_sweep_right(
    m: MachineModel,
    tape: Seq<char>,
    state: nat,
    from: int,
    to: int,
    f: spec_fn(char) -> char,
)
    requires
        0 <= from <= to < tape.len(),
        state != 0,
        forall|i: int|
            from <= i < to ==> lookup(m, state, #[trigger] tape[i]) == Some(
                Action { next: state, write: f(tape[i]), shift: Move::Right },
            ),
    ensures
        reaches(
            m,
            Conf { tape, head: from, state },
            Conf { tape: rewritten(tape, from, to, f), head: to, state },
        ),
    decreases to - from,
{
    let c = Conf { tape, head: from, state };
    if from < to {
        assert(lookup(m, state, tape[from]) == Some(
            Action { next: state, write: f(tape[from]), shift: Move::Right },
        ));
        let t1 = tape.update(from, f(tape[from]));
        let next = Conf { tape: t1, head: from + 1, state };
        assert(step(m, c) == Some(next));
        lemma_reaches_step(m, c);
        assert forall|i: int| from + 1 <= i < to implies lookup(m, state, #[trigger] t1[i]) == Some(
            Action { next: state, write: f(t1[i]), shift: Move::Right },
        ) by {
            assert(t1[i] == tape[i]);
        }
        lemma_sweep_right(m, t1, state, from + 1, to, f);
        assert(rewritten(t1, from + 1, to, f) =~= rewritten(tape, from, to, f));
        lemma_reaches_trans(m, c, next, Conf { tape: rewritten(tape, from, to, f), head: to, state });
    } else {
        assert(rewritten(tape, from, to, f) =~= tape);
        lemma_reaches_refl(m, c);
    }
}

/// The characters of `s`, in order.
pub fn chars_of(s: &str) -> (v: Vec<char>)
    ensures
        v@ == s@,
{
    broadcast use vstd::string::group_string_axioms;

    let mut v: Vec<char> = Vec::new();
    let mut chars = s.chars();
    loop
        invariant
            v@ + chars.remaining() == s@,
            chars.decrease() is Some,
        ensures
            v@ == s@,
        decreases chars.decrease()->0,
    {
        let ghost before = chars.remaining();
        match chars.next() {
            Some(c) => {
                v.push(c);
                assert(v@ + chars.remaining() =~= s@) by {
                    assert(before =~= seq![c] + before.drop_first());
                }
            },
            Option::None => {
                assert(v@ + chars.remaining() == s@);
                assert(chars.remaining().len() == 0);
                assert(v@ =~= s@);
                break;
            },
        }
    }
    v
}

/// `tape` without its blank cells.
pub open spec fn without_blanks(tape: Seq<char>, blank: char) -> Seq<char>
    decreases tape.len(),
{
    if tape.len() == 0 {
        Seq::empty()
    } else {
        let rest = without_blanks(tape.drop_last(), blank);
        if tape.last() == blank {
            rest
        } else {
            rest.push(tape.last())
        }
    }
}

pub proof fn lemma_without_blanks_append(first: Seq<char>, second: Seq<char>, blank: char)
    ensures
        without_blanks(first + second, blank) == without_blanks(first, blank) + without_blanks(
            second,
            blank,
        ),
    decreases second.len(),
{
    if second.len() == 0 {
        assert(first + second =~= first);
        assert(without_blanks(first, blank) + without_blanks(second, blank) =~= without_blanks(first, blank));
    } else {
        lemma_without_blanks_append(first, second.drop_last(), blank);
        assert((first + second).drop_last() =~= first + second.drop_last());
        assert((first + second).last() == second.last());
        assert(without_blanks(first, blank) + without_blanks(second.drop_last(), blank).push(second.last())
            =~= (without_blanks(first, blank) + without_blanks(second.drop_last(), blank)).push(second.last()));
    }
}

pub proof fn lemma_without_blanks_single(c: char, blank: char)
    ensures
        without_blanks(seq![c], blank) == (if c == blank { Seq::<char>::empty() } else { seq![c] }),
{
    assert(seq![c].drop_last() =~= Seq::<char>::empty());
    assert(seq![c].last() == c);
    assert(without_blanks(Seq::<char>::empty(), blank) == Seq::<char>::empty());
    assert(Seq::<char>::empty().push(c) =~= seq![c]);
}

pub proof fn lemma_without_blanks_none(s: Seq<char>, blank: char)
    requires
        forall|i: int| 0 <= i < s.len() ==> s[i] != blank,
    ensures
        without_blanks(s, blank) == s,
    decreases s.len(),
{
    if s.len() > 0 {
        lemma_without_blanks_none(s.drop_last(), blank);
        assert(s.drop_last().push(s.last()) =~= s);
    }
}

/// Appends a character with `std::string::String::push`.
///
/// Trusted: the string gains `c` at its end.
#[verifier::external_body]
fn push_char(text: &mut String, c: char)
    ensures
        final(text)@ == old(text)@.push(c),
{
    text.push(c);
}

/// The text a tape shows: its symbols without the blanks.
pub fn visible_text(tape: &Vec<char>, blank: char) -> (text: String)
    ensures
        text@ == without_blanks(tape@, blank),
{
    let mut text = String::new();
    let mut i: usize = 0;
    while i < tape.len()
        invariant
            i <= tape.len(),
            text@ == without_blanks(tape@.take(i as int), blank),
        decreases tape.len() - i,
    {
        let c = tape[i];
        assert(tape@.take(i + 1).drop_last() =~= tape@.take(i as int));
        if c != blank {
            push_char(&mut text, c);
        }
        i = i + 1;
    }
    assert(tape@.take(i as int) =~= tape@);
    text
}

/// What a run shows: the text of the tape the machine starts from and the text
/// of the tape it leaves.
pub struct Transcript {
    pub input: String,
    pub output: String,
}

/// Builds a classic machine of the engine from an alphabet, a last state, a list
/// of instructions and a blank symbol, as `Program::new`, `extend` and
/// `Classic::new` do in turn.
pub fn build_machine(alphabet: Vec<char>, last_state: usize, rules: &Vec<Rule>, blank: char) -> (r: Result<EngineMachine, String>)
    requires
        alphabet@.len() * last_state * 32 <= isize::MAX,
    ensures
        r is Ok <==> rules_fit(alphabet@, last_state as nat, rules@) && alphabet@.contains(blank),
        r matches Ok(m) ==> machine_view(m) == (MachineModel {
            program: ProgramModel {
                alphabet: alphabet@,
                last_state: last_state as nat,
                table: insert_rules(Map::empty(), rules@, rules@.len()),
            },
            blank,
        }),
{
    let ghost letters = alphabet@;
    let mut program = program_new(alphabet, last_state);
    proof {
        lemma_fitting_prefix(letters, last_state as nat, rules@);
    }
    match program_extend(&mut program, rules) {
        Ok(()) => {},
        Err(message) => {
            return Err(message);
        },
    }
    classic_new(program, blank)
}

/// Runs the machine on `input` with `turing_machine_rs::TuringMachine::translate_nrm`
/// and returns the final tape.
///
/// Trusted: `translate_nrm` starts in state 1 on the first cell (an empty tape
/// is an error), repeats `execute_once` until state 0 and returns the tape, or
/// returns an error as soon as no instruction matches. It does not return when
/// the machine runs forever, so `requires` asks that it halt or get stuck. The
/// text of the error message is left unsaid.
#[verifier::external_body]
pub(crate) fn translate_nrm(machine: &EngineMachine, input: Vec<char>) -> (r: Result<Vec<char>, String>)
    requires
        input@.len() > 0 ==> finishes(machine_view(*machine), start_conf(input@)),
    ensures
        input@.len() == 0 ==> r is Err,
        input@.len() > 0 ==> (r matches Ok(tape) ==> halts_with(machine_view(*machine), start_conf(input@), tape@)),
        input@.len() > 0 ==> (r is Err ==> gets_stuck(machine_view(*machine), start_conf(input@))),
{
    match machine.inner.translate_nrm(Tape::new(input)) {
        Ok(tape) => Ok(tape.as_vec().clone()),
        Err(message) => Err(message),
    }
}

/// Runs a machine of the engine on `input`, from the first cell in state 1,
/// and returns the tape it leaves when it halts. The result is an error when
/// the input is empty or when the machine gets stuck, that is, reaches a state
/// and a symbol with no instruction.
pub fn run_machine(machine: &EngineMachine, input: Vec<char>) -> (r: Result<Vec<char>, String>)
    requires
        input@.len() > 0 ==> finishes(machine_view(*machine), start_conf(input@)),
    ensures
        input@.len() == 0 ==> r is Err,
        input@.len() > 0 ==> (r is Ok <==> exists|tape: Seq<char>| halts_with(machine_view(*machine), start_conf(input@), tape)),
        r matches Ok(tape) ==> halts_with(machine_view(*machine), start_conf(input@), tape@),
        r is Err && input@.len() > 0 ==> gets_stuck(machine_view(*machine), start_conf(input@)),
{
    let ghost m = machine_view(*machine);
    let ghost c = start_conf(input@);
    let r = translate_nrm(machine, input);
    proof {
        if c.tape.len() > 0 {
            if r is Err && exists|tape: Seq<char>| halts_with(m, c, tape) {
                let tape = choose|tape: Seq<char>| halts_with(m, c, tape);
                lemma_halting_is_determined(m, c, tape);
            }
        }
    }
    r
}

} // verus!
