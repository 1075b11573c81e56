use vstd::prelude::*;
use crate::tables::{Tables, index_of, id_of, semantic_of};

verus! {

/// Why a parse stopped without accepting.
#[derive(Clone, Copy, Debug, PartialEq, Eq, Structural)]
pub enum ParseError {
    /// Neither a shift nor a reduction is defined for the state and lookahead.
    NoAction { state: usize, lookahead: usize },
    /// Both a shift and a reduction are defined for the state and lookahead.
    Conflict { state: usize, lookahead: usize },
    /// A partial action names a semantic rule that has no callback.
    MissingSemantic { rule_id: usize },
    /// An input symbol has an id that the terminal map does not know.
    UnknownTerminal { id: usize },
    /// A lookahead was needed after the last input symbol.
    MissingInput,
    /// The tables name a rule, nonterminal or jump that does not exist, or a
    /// rule longer than the stack.
    InvalidTable,
    /// The driver made its largest allowed number of steps.
    StepLimit,
}

/// How a parse ends.
pub enum Outcome {
    Accepted,
    Failed(ParseError),
}

/// Largest number of driver iterations in one parse; it also bounds the
/// handles handed out.
pub const MAX_STEPS: u64 = 0x7fff_ffff;

/// What the driver's control flow depends on: the tables, the ids of the
/// input, the ids of the bound callbacks and whether partial actions run.
pub struct Env {
    pub tables: Tables,
    pub input: Seq<usize>,
    pub sems: Set<usize>,
    pub partials: bool,
}

/// Control state of the driver: state stack, input cursor, lookahead column,
/// `(seen_tokens, handle)` of each active rule, and the next handle.
pub struct Ctrl {
    pub states: Seq<usize>,
    pub pos: nat,
    pub la: usize,
    pub active: Map<usize, Seq<(usize, isize)>>,
    pub handle: int,
}

/// Result of one driver iteration.
pub enum Step {
    Next(Ctrl),
    Stop(Outcome),
}

/// The lookahead column of the input symbol at `pos`.
pub open spec fn lookahead_at(env: Env, pos: nat) -> Result<usize, ParseError> {
    if pos < env.input.len() {
        match index_of(env.tables.term_idx@, env.input[pos as int]) {
            Some(i) => Ok(i),
            None => Err(ParseError::UnknownTerminal { id: env.input[pos as int] }),
        }
    } else {
        Err(ParseError::MissingInput)
    }
}

/// The bookkeeping of a partial invocation of `sem` that counts `rule_len`
/// symbols: whether the callback runs, the new `(seen_tokens, handle)`
/// stack of `sem`, and whether a fresh handle was handed out.
pub open spec fn partial_marks(c: Ctrl, sem: usize, rule_len: usize, before_shift: bool) -> (
    bool,
    Seq<(usize, isize)>,
    bool,
) {
    let fresh = (rule_len, c.handle as isize);
    if c.active.contains_key(sem) && c.active[sem].len() > 0 {
        let st = c.active[sem];
        let last = st.len() - 1;
        let top = st[last];
        if before_shift {
            if top.0 < rule_len {
                (true, st.update(last, (rule_len, top.1)), false)
            } else {
                (true, st.push(fresh), true)
            }
        } else if top.0 == rule_len {
            (false, st, false)
        } else {
            (true, st.update(last, (rule_len, top.1)), false)
        }
    } else {
        (true, seq![fresh], true)
    }
}

/// One partial invocation of `sem` with `arg_len` matched symbols out of
/// `nsyms` on the symbol stack.
pub open spec fn partial_step(
    env: Env,
    c: Ctrl,
    sem: usize,
    arg_len: usize,
    before_shift: bool,
    nsyms: nat,
) -> Result<Ctrl, ParseError> {
    if arg_len > nsyms {
        Err(ParseError::InvalidTable)
    } else {
        let rule_len = if before_shift { (arg_len + 1) as usize } else { arg_len };
        let (invoke, st, fresh) = partial_marks(c, sem, rule_len, before_shift);
        if !invoke {
            Ok(c)
        } else if !env.sems.contains(sem) {
            Err(ParseError::MissingSemantic { rule_id: sem })
        } else {
            Ok(
                Ctrl {
                    active: c.active.insert(sem, st),
                    handle: if fresh { c.handle + 1 } else { c.handle },
                    ..c
                },
            )
        }
    }
}

/// The active-rule stacks after a full reduction by a rule with semantic id `sem`.
pub open spec fn drained(env: Env, c: Ctrl, sem: usize) -> Map<usize, Seq<(usize, isize)>> {
    if env.partials && c.active.contains_key(sem) && c.active[sem].len() > 0 {
        c.active.insert(sem, c.active[sem].drop_last())
    } else {
        c.active
    }
}

/// The shift path: the partial action before the shift, the push and the
/// next lookahead.
pub open spec fn shift_step(env: Env, c: Ctrl, s: usize, target: usize) -> Step {
    let t = env.tables;
    let pr = t.partials_rule_term@[s as int]@[c.la as int];
    let c1 = if env.partials && pr != t.err {
        match semantic_of(t.semantic_idx@, pr) {
            Some(sem) => partial_step(
                env,
                c,
                sem,
                t.partials_matchlen_term@[s as int]@[c.la as int],
                true,
                (c.states.len() - 1) as nat,
            ),
            None => Err(ParseError::InvalidTable),
        }
    } else {
        Ok(c)
    };
    match c1 {
        Err(e) => Step::Stop(Outcome::Failed(e)),
        Ok(c1) => match lookahead_at(env, c1.pos) {
            Err(e) => Step::Stop(Outcome::Failed(e)),
            Ok(la) => Step::Next(Ctrl { states: c1.states.push(target), pos: c1.pos + 1, la, ..c1 }),
        },
    }
}

/// The reduce path by rule `r`: pop its right-hand side, the partial action
/// before the jump, and the jump.
pub open spec fn reduce_step(env: Env, c: Ctrl, r: usize) -> Step {
    let t = env.tables;
    let k = t.num_rhs_syms@[r as int];
    let lhs = t.lhs_idx@[r as int];
    match (semantic_of(t.semantic_idx@, r), id_of(t.nonterm_idx@, lhs)) {
        (Some(sem), Some(_)) => if k >= c.states.len() {
            Step::Stop(Outcome::Failed(ParseError::InvalidTable))
        } else {
            let states = c.states.subrange(0, c.states.len() - k);
            let top = states.last();
            let c2 = Ctrl { states, active: drained(env, c, sem), ..c };
            let pr = t.partials_rule_nonterm@[top as int]@[lhs as int];
            let c3 = if env.partials && pr != t.err {
                match semantic_of(t.semantic_idx@, pr) {
                    Some(psem) => partial_step(
                        env,
                        c2,
                        psem,
                        t.partials_matchlen_nonterm@[top as int]@[lhs as int],
                        false,
                        states.len(),
                    ),
                    None => Err(ParseError::InvalidTable),
                }
            } else {
                Ok(c2)
            };
            match c3 {
                Err(e) => Step::Stop(Outcome::Failed(e)),
                Ok(c3) => {
                    let j = t.jump_at(top as int, lhs as int);
                    if j == t.err {
                        Step::Stop(Outcome::Failed(ParseError::InvalidTable))
                    } else {
                        Step::Next(Ctrl { states: c3.states.push(j), ..c3 })
                    }
                },
            }
        },
        _ => Step::Stop(Outcome::Failed(ParseError::InvalidTable)),
    }
}

/// One iteration of the driver.
pub open spec fn step(env: Env, c: Ctrl) -> Step {
    let t = env.tables;
    let s = c.states.last();
    let sh = t.shift_at(s as int, c.la as int);
    let red = t.reduce_at(s as int, c.la as int);
    if sh == t.err && red == t.err {
        Step::Stop(Outcome::Failed(ParseError::NoAction { state: s, lookahead: c.la }))
    } else if sh != t.err && red != t.err {
        Step::Stop(Outcome::Failed(ParseError::Conflict { state: s, lookahead: c.la }))
    } else if red == t.acc {
        Step::Stop(Outcome::Accepted)
    } else if sh != t.err {
        shift_step(env, c, s, sh)
    } else {
        reduce_step(env, c, red)
    }
}

/// Where the state and lookahead have both a shift and a reduction, the
/// parse stops there with a conflict.
pub proof fn lemma_conflict_fails(env: Env, c: Ctrl)
    requires
        env.tables.shift_at(c.states.last() as int, c.la as int) != env.tables.err,
        env.tables.reduce_at(c.states.last() as int, c.la as int) != env.tables.err,
    ensures
        step(env, c) == Step::Stop(
            Outcome::Failed(ParseError::Conflict { state: c.states.last(), lookahead: c.la }),
        ),
        forall|fuel: nat|
            fuel > 0 ==> #[trigger] run(env, c, fuel) == Outcome::Failed(
                ParseError::Conflict { state: c.states.last(), lookahead: c.la },
            ),
{
}

/// What one iteration that goes on does to the stacks.
pub enum Move {
    Shifted,
    Reduced(usize),
}

/// The move of an iteration from `c` that goes on.
pub open spec fn step_move(env: Env, c: Ctrl) -> Move {
    let s = c.states.last();
    if env.tables.shift_at(s as int, c.la as int) != env.tables.err {
        Move::Shifted
    } else {
        Move::Reduced(env.tables.reduce_at(s as int, c.la as int))
    }
}

/// The moves of a run from `c` for at most `fuel` iterations, up to the
/// iteration that stops it.
pub open spec fn run_moves(env: Env, c: Ctrl, fuel: nat) -> Seq<Move>
    decreases fuel,
{
    if fuel == 0 {
        Seq::empty()
    } else {
        match step(env, c) {
            Step::Stop(_) => Seq::empty(),
            Step::Next(c2) => seq![step_move(env, c)] + run_moves(env, c2, (fuel - 1) as nat),
        }
    }
}

/// The moves of a whole parse.
pub open spec fn moves_of(env: Env) -> Seq<Move> {
    match lookahead_at(env, 0) {
        Err(_) => Seq::empty(),
        Ok(la) => run_moves(env, initial(env, la), MAX_STEPS as nat),
    }
}

/// The outcome of running the driver from `c` for at most `fuel` iterations.
pub open spec fn run(env: Env, c: Ctrl, fuel: nat) -> Outcome
    decreases fuel,
{
    if fuel == 0 {
        Outcome::Failed(ParseError::StepLimit)
    } else {
        match step(env, c) {
            Step::Stop(o) => o,
            Step::Next(c2) => run(env, c2, (fuel - 1) as nat),
        }
    }
}

/// The control state right after the first lookahead at column `la`.
pub open spec fn initial(env: Env, la: usize) -> Ctrl {
    Ctrl { states: seq![env.tables.start], pos: 1, la, active: Map::empty(), handle: 0 }
}

/// The outcome of a whole parse.
pub open spec fn outcome(env: Env) -> Outcome {
    match lookahead_at(env, 0) {
        Err(e) => Outcome::Failed(e),
        Ok(la) => run(env, initial(env, la), MAX_STEPS as nat),
    }
}

/// Whether the input is accepted.
pub open spec fn accepts(env: Env) -> bool {
    outcome(env) is Accepted
}

/// Every handle of every active rule is in `[0, bound)`, and no two entries
/// share one.
pub open spec fn handles_ok(active: Map<usize, Seq<(usize, isize)>>, bound: int) -> bool {
    &&& forall|k: usize, i: int|
        active.contains_key(k) && 0 <= i < active[k].len() ==> 0 <= (#[trigger] active[k][i]).1
            < bound
    &&& forall|k1: usize, i1: int, k2: usize, i2: int|
        active.contains_key(k1) && active.contains_key(k2) && 0 <= i1 < active[k1].len() && 0
            <= i2 < active[k2].len() && (k1 != k2 || i1 != i2) ==> (#[trigger] active[k1][i1]).1
            != (#[trigger] active[k2][i2]).1
}

/// The bookkeeping of a partial invocation keeps handles unique and below
/// the counter, which it advances exactly when it hands out a handle.
pub proof fn lemma_partial_keeps_handles(c: Ctrl, sem: usize, rule_len: usize, before_shift: bool)
    requires
        handles_ok(c.active, c.handle),
        0 <= c.handle < MAX_STEPS,
    ensures
        ({
            let (invoke, st, fresh) = partial_marks(c, sem, rule_len, before_shift);
            handles_ok(c.active.insert(sem, st), if fresh { c.handle + 1 } else { c.handle })
        }),
{
    let (invoke, st, fresh) = partial_marks(c, sem, rule_len, before_shift);
    let a = c.active;
    let b = a.insert(sem, st);
    let h2 = if fresh { c.handle + 1 } else { c.handle };
    let old_len = if a.contains_key(sem) { a[sem].len() } else { 0 };
    assert(st.len() >= old_len);
    assert forall|i: int| 0 <= i < st.len() implies (i < old_len ==> st[i].1 == a[sem][i].1) && (
    i >= old_len ==> fresh && st[i].1 == c.handle) by {
        let fr = (rule_len, c.handle as isize);
        if a.contains_key(sem) && a[sem].len() > 0 {
            let s0 = a[sem];
            let last = s0.len() - 1;
            let top = s0[last];
            if before_shift && top.0 >= rule_len {
                assert(st == s0.push(fr));
            } else if !before_shift && top.0 == rule_len {
                assert(st == s0);
            } else {
                assert(st == s0.update(last, (rule_len, top.1)));
            }
        } else {
            assert(st == seq![fr]);
        }
    }
    assert forall|k: usize, i: int| b.contains_key(k) && 0 <= i < b[k].len() implies 0 <= (
    #[trigger] b[k][i]).1 < h2 by {
        if k != sem {
            assert(b[k] == a[k]);
        }
    }
    assert forall|k1: usize, i1: int, k2: usize, i2: int|
        b.contains_key(k1) && b.contains_key(k2) && 0 <= i1 < b[k1].len() && 0 <= i2 < b[k2].len()
            && (k1 != k2 || i1 != i2) implies (#[trigger] b[k1][i1]).1 != (#[trigger] b[k2][i2]).1 by {
        if k1 == sem && i1 >= old_len {
            if !(k2 == sem && i2 >= old_len) {
                if k2 != sem {
                    assert(b[k2][i2] == a[k2][i2]);
                }
                assert(b[k2][i2].1 < c.handle);
            }
        } else if k2 == sem && i2 >= old_len {
            if k1 != sem {
                assert(b[k1][i1] == a[k1][i1]);
            }
            assert(b[k1][i1].1 < c.handle);
        } else {
            if k1 != sem {
                assert(b[k1][i1] == a[k1][i1]);
            }
            if k2 != sem {
                assert(b[k2][i2] == a[k2][i2]);
            }
        }
    }
}

/// Dropping the top of one active-rule stack keeps handles unique.
pub proof fn lemma_drain_keeps_handles(env: Env, c: Ctrl, sem: usize)
    requires
        handles_ok(c.active, c.handle),
    ensures
        handles_ok(drained(env, c, sem), c.handle),
{
    let a = c.active;
    let b = drained(env, c, sem);
    assert forall|k: usize, i: int| b.contains_key(k) && 0 <= i < b[k].len() implies b[k][i]
        == a[k][i] by {}
}

/// A partial invocation that goes through leaves the stacks alone, keeps
/// handles unique and below the counter, and advances the counter by at
/// most one.
pub proof fn lemma_partial_step_handles(
    env: Env,
    c: Ctrl,
    sem: usize,
    arg_len: usize,
    before_shift: bool,
    nsyms: nat,
)
    requires
        handles_ok(c.active, c.handle),
        0 <= c.handle < MAX_STEPS,
    ensures
        partial_step(env, c, sem, arg_len, before_shift, nsyms) matches Ok(c1) ==> {
            &&& handles_ok(c1.active, c1.handle)
            &&& c.handle <= c1.handle <= c.handle + 1
            &&& c1.states == c.states
            &&& c1.pos == c.pos
            &&& c1.la == c.la
        },
{
    if arg_len <= nsyms {
        let rule_len = if before_shift { (arg_len + 1) as usize } else { arg_len };
        lemma_partial_keeps_handles(c, sem, rule_len, before_shift);
    }
}

/// Handles are handed out in increasing order within a parse: an
/// iteration of the driver never lowers the counter, raises it by at most
/// one, and leaves every handle of every active rule unique and below it.
pub proof fn lemma_step_handles(env: Env, c: Ctrl)
    requires
        handles_ok(c.active, c.handle),
        0 <= c.handle < MAX_STEPS,
    ensures
        step(env, c) matches Step::Next(c2) ==> {
            &&& handles_ok(c2.active, c2.handle)
            &&& c.handle <= c2.handle <= c.handle + 1
        },
{
    let t = env.tables;
    let s = c.states.last();
    let sh = t.shift_at(s as int, c.la as int);
    let red = t.reduce_at(s as int, c.la as int);
    if sh != t.err && red == t.err {
        let pr = t.partials_rule_term@[s as int]@[c.la as int];
        if env.partials && pr != t.err {
            if let Some(sem) = semantic_of(t.semantic_idx@, pr) {
                lemma_partial_step_handles(
                    env,
                    c,
                    sem,
                    t.partials_matchlen_term@[s as int]@[c.la as int],
                    true,
                    (c.states.len() - 1) as nat,
                );
            }
        }
    } else if sh == t.err && red != t.err && red != t.acc {
        let k = t.num_rhs_syms@[red as int];
        let lhs = t.lhs_idx@[red as int];
        if let Some(sem) = semantic_of(t.semantic_idx@, red) {
            if k < c.states.len() {
                let states = c.states.subrange(0, c.states.len() - k);
                let top = states.last();
                let c2 = Ctrl { states, active: drained(env, c, sem), ..c };
                lemma_drain_keeps_handles(env, c, sem);
                let pr = t.partials_rule_nonterm@[top as int]@[lhs as int];
                if env.partials && pr != t.err {
                    if let Some(psem) = semantic_of(t.semantic_idx@, pr) {
                        lemma_partial_step_handles(
                            env,
                            c2,
                            psem,
                            t.partials_matchlen_nonterm@[top as int]@[lhs as int],
                            false,
                            states.len(),
                        );
                    }
                }
            }
        }
    }
}

/// The state stack holds existing states and the lookahead is a column.
pub open spec fn ctrl_valid(t: Tables, c: Ctrl) -> bool {
    &&& c.states.len() >= 1
    &&& forall|i: int| 0 <= i < c.states.len() ==> #[trigger] c.states[i] < t.num_states()
    &&& c.la < t.num_terms()
}

/// The lookahead column is not that of the end symbol.
pub open spec fn la_not_end(t: Tables, c: Ctrl) -> bool {
    index_of(t.term_idx@, t.end) != Some(c.la)
}

/// The tables accept only with the end symbol as lookahead.
pub open spec fn accepts_only_at_end(t: Tables) -> bool {
    forall|s: int, c: int|
        0 <= s < t.num_states() && 0 <= c < t.num_terms() && #[trigger] t.reduce_at(s, c) == t.acc
            ==> index_of(t.term_idx@, t.end) == Some(c as usize)
}

/// A column read from an input symbol other than the end symbol is not
/// the end symbol's column.
proof fn lemma_lookahead_not_end(env: Env, pos: nat)
    requires
        env.tables.wf(),
        pos < env.input.len() ==> env.input[pos as int] != env.tables.end,
    ensures
        lookahead_at(env, pos) matches Ok(la) ==> {
            &&& index_of(env.tables.term_idx@, env.tables.end) != Some(la)
            &&& la < env.tables.num_terms()
        },
{
    let t = env.tables;
    if let Ok(la) = lookahead_at(env, pos) {
        let id = env.input[pos as int];
        let i = choose|i: int| 0 <= i < t.term_idx@.len() && (#[trigger] t.term_idx@[i]).id == id;
        assert(t.term_idx@[i].index < t.num_terms());
        if index_of(t.term_idx@, t.end) == Some(la) {
            let j = choose|j: int| 0 <= j < t.term_idx@.len() && (#[trigger] t.term_idx@[j]).id == t.end;
            assert(t.term_idx@[j].index == t.term_idx@[i].index);
            assert(i == j);
        }
    }
}

/// A partial invocation that goes through keeps the control state valid.
proof fn lemma_partial_step_valid(env: Env, c: Ctrl, sem: usize, arg_len: usize, before_shift: bool, nsyms: nat)
    ensures
        partial_step(env, c, sem, arg_len, before_shift, nsyms) matches Ok(c1) ==> c1.states == c.states
            && c1.la == c.la && c1.pos == c.pos,
{
}

/// An iteration keeps the control state valid, and keeps the lookahead
/// off the end symbol's column while the input holds no end symbol.
proof fn lemma_step_valid(env: Env, c: Ctrl)
    requires
        env.tables.wf(),
        ctrl_valid(env.tables, c),
        forall|i: int| 0 <= i < env.input.len() ==> env.input[i] != env.tables.end,
        la_not_end(env.tables, c),
    ensures
        step(env, c) matches Step::Next(c2) ==> ctrl_valid(env.tables, c2) && la_not_end(
            env.tables,
            c2,
        ),
{
    let t = env.tables;
    let s = c.states.last();
    assert(c.states[c.states.len() - 1] < t.num_states());
    let sh = t.shift_at(s as int, c.la as int);
    let red = t.reduce_at(s as int, c.la as int);
    if sh != t.err && red == t.err {
        let pr = t.partials_rule_term@[s as int]@[c.la as int];
        if env.partials && pr != t.err {
            if let Some(sem) = semantic_of(t.semantic_idx@, pr) {
                lemma_partial_step_valid(env, c, sem, t.partials_matchlen_term@[s as int]@[c.la as int], true, (c.states.len() - 1) as nat);
            }
        }
        if let Step::Next(c2) = step(env, c) {
            lemma_lookahead_not_end(env, c.pos);
            assert(c2.states.last() == sh);
            assert forall|i: int| 0 <= i < c2.states.len() implies #[trigger] c2.states[i] < t.num_states() by {
                if i < c.states.len() {
                    assert(c2.states[i] == c.states[i]);
                }
            }
        }
    } else if sh == t.err && red != t.err && red != t.acc {
        let k = t.num_rhs_syms@[red as int];
        let lhs = t.lhs_idx@[red as int];
        if let Some(sem) = semantic_of(t.semantic_idx@, red) {
            if k < c.states.len() {
                let states = c.states.subrange(0, c.states.len() - k);
                let top = states.last();
                assert(top == c.states[states.len() - 1]);
                let c2 = Ctrl { states, active: drained(env, c, sem), ..c };
                let pr = t.partials_rule_nonterm@[top as int]@[lhs as int];
                if env.partials && pr != t.err {
                    if let Some(psem) = semantic_of(t.semantic_idx@, pr) {
                        lemma_partial_step_valid(env, c2, psem, t.partials_matchlen_nonterm@[top as int]@[lhs as int], false, states.len());
                    }
                }
                if let Step::Next(c3) = step(env, c) {
                    assert(lhs < t.num_nonterms());
                    assert forall|i: int| 0 <= i < c3.states.len() implies #[trigger] c3.states[i] < t.num_states() by {
                        if i < states.len() {
                            assert(c3.states[i] == c.states[i]);
                        }
                    }
                }
            }
        }
    }
}

/// From a valid control state whose lookahead is not the end symbol, a
/// run over an input without the end symbol does not accept.
proof fn lemma_run_not_accepted(env: Env, c: Ctrl, fuel: nat)
    requires
        env.tables.wf(),
        accepts_only_at_end(env.tables),
        ctrl_valid(env.tables, c),
        forall|i: int| 0 <= i < env.input.len() ==> env.input[i] != env.tables.end,
        la_not_end(env.tables, c),
    ensures
        !(run(env, c, fuel) is Accepted),
    decreases fuel,
{
    if fuel > 0 {
        let t = env.tables;
        let s = c.states.last();
        assert(c.states[c.states.len() - 1] < t.num_states());
        if t.reduce_at(s as int, c.la as int) == t.acc {
            assert(index_of(t.term_idx@, t.end) == Some(c.la));
        }
        lemma_step_valid(env, c);
        if let Step::Next(c2) = step(env, c) {
            lemma_run_not_accepted(env, c2, (fuel - 1) as nat);
        }
    }
}

/// An input that holds no end symbol is never accepted, by tables that
/// accept only with the end symbol as lookahead.
pub proof fn lemma_missing_end_rejected(env: Env)
    requires
        env.tables.wf(),
        accepts_only_at_end(env.tables),
        forall|i: int| 0 <= i < env.input.len() ==> env.input[i] != env.tables.end,
    ensures
        !accepts(env),
{
    lemma_lookahead_not_end(env, 0);
    if let Ok(la) = lookahead_at(env, 0) {
        lemma_run_not_accepted(env, initial(env, la), MAX_STEPS as nat);
    }
}

/// The same parse with partial actions off.
pub open spec fn without_partials(env: Env) -> Env {
    Env { partials: false, ..env }
}

/// One iteration with partial actions on, and the same iteration with them
/// off from a control state with the same stack, cursor and lookahead: the
/// second goes on alike wherever the first goes on or accepts.
proof fn lemma_step_without_partials(env: Env, c1: Ctrl, c2: Ctrl)
    requires
        c1.states == c2.states,
        c1.pos == c2.pos,
        c1.la == c2.la,
    ensures
        step(env, c1) matches Step::Next(d1) ==> step(without_partials(env), c2) matches Step::Next(d2)
            && d1.states == d2.states && d1.pos == d2.pos && d1.la == d2.la,
        step(env, c1) matches Step::Stop(Outcome::Accepted) ==> step(without_partials(env), c2)
            matches Step::Stop(Outcome::Accepted),
{
    let t = env.tables;
    let s = c1.states.last();
    let sh = t.shift_at(s as int, c1.la as int);
    let red = t.reduce_at(s as int, c1.la as int);
    if sh != t.err && red == t.err {
        let pr = t.partials_rule_term@[s as int]@[c1.la as int];
        if env.partials && pr != t.err {
            if let Some(sem) = semantic_of(t.semantic_idx@, pr) {
                lemma_partial_step_valid(env, c1, sem, t.partials_matchlen_term@[s as int]@[c1.la as int], true, (c1.states.len() - 1) as nat);
            }
        }
    } else if sh == t.err && red != t.err && red != t.acc {
        let k = t.num_rhs_syms@[red as int];
        let lhs = t.lhs_idx@[red as int];
        if let Some(sem) = semantic_of(t.semantic_idx@, red) {
            if k < c1.states.len() {
                let states = c1.states.subrange(0, c1.states.len() - k);
                let top = states.last();
                let c3 = Ctrl { states, active: drained(env, c1, sem), ..c1 };
                let pr = t.partials_rule_nonterm@[top as int]@[lhs as int];
                if env.partials && pr != t.err {
                    if let Some(psem) = semantic_of(t.semantic_idx@, pr) {
                        lemma_partial_step_valid(env, c3, psem, t.partials_matchlen_nonterm@[top as int]@[lhs as int], false, states.len());
                    }
                }
            }
        }
    }
}

/// A run with partial actions on that accepts is matched by an accepting
/// run with them off from the same stack, cursor and lookahead.
proof fn lemma_run_without_partials(env: Env, c1: Ctrl, c2: Ctrl, fuel: nat)
    requires
        c1.states == c2.states,
        c1.pos == c2.pos,
        c1.la == c2.la,
    ensures
        run(env, c1, fuel) is Accepted ==> run(without_partials(env), c2, fuel) is Accepted,
    decreases fuel,
{
    if fuel > 0 {
        lemma_step_without_partials(env, c1, c2);
        if let Step::Next(d1) = step(env, c1) {
            if let Step::Next(d2) = step(without_partials(env), c2) {
                lemma_run_without_partials(env, d1, d2, (fuel - 1) as nat);
            }
        }
    }
}

/// Partial actions never make an input accepted: what a parse accepts with
/// them on, it accepts with them off.
pub proof fn lemma_partials_only_add_failures(env: Env)
    ensures
        accepts(env) ==> accepts(without_partials(env)),
{
    if let Ok(la) = lookahead_at(env, 0) {
        assert(lookahead_at(without_partials(env), 0) == Ok::<usize, ParseError>(la));
        lemma_run_without_partials(env, initial(env, la), initial(without_partials(env), la), MAX_STEPS as nat);
    }
}

} // verus!
