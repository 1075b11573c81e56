use vstd::prelude::*;
use std::collections::HashMap;
use crate::common::{ActiveRule, Parsable, Symbol, bindings};
use crate::machine::{
    Move, moves_of, run_moves, step_move, Ctrl, Env, Outcome, ParseError, Step, MAX_STEPS, accepts, handles_ok, lemma_drain_keeps_handles,
    lemma_partial_keeps_handles, outcome, partial_marks, partial_step, run, step,
};
use crate::tables::{Tables, get_table_id, get_table_index, get_semantic_table_id, id_of,
    index_of, semantic_of};

verus! {

broadcast use vstd::std_specs::hash::group_hash_axioms;

/// One call of a semantic callback.
pub struct Invocation {
    pub sem: usize,
    pub args: Seq<Symbol>,
    pub finished: bool,
    pub retval: i64,
    pub result: i64,
}

/// What the driver did, in order.
pub enum Event {
    Shift,
    /// A reduction by `rule`, the callback call if one was bound, and the
    /// nonterminal pushed.
    Reduce { rule: usize, call: Option<Invocation>, pushed: Symbol },
    /// A call made while the rule is still being matched.
    Partial(Invocation),
}

/// `(seen_tokens, handle)` of each entry of an active-rule stack.
pub open spec fn marks(s: Seq<ActiveRule>) -> Seq<(usize, isize)> {
    s.map_values(|a: ActiveRule| (a.seen_tokens, a.handle))
}

/// The ids of a sequence of symbols.
pub open spec fn ids(s: Seq<Symbol>) -> Seq<usize> {
    s.map_values(|x: Symbol| x.id)
}

/// `new` is `old` followed by partial invocations of `sem` only.
pub open spec fn extends_with_partials(new: Seq<Event>, old: Seq<Event>, sem: usize) -> bool {
    &&& old.len() <= new.len()
    &&& new.subrange(0, old.len() as int) == old
    &&& forall|i: int|
        old.len() <= i < new.len() ==> (#[trigger] new[i] matches Event::Partial(c) && c.sem
            == sem && !c.finished)
}

/// A log extends itself.
proof fn lemma_log_same(s: Seq<Event>, sem: usize)
    ensures
        extends_with_partials(s, s, sem),
{
    assert(s.subrange(0, s.len() as int) =~= s);
}

/// Appending a partial invocation of `sem` keeps a log an extension by
/// partial invocations.
proof fn lemma_log_push(new: Seq<Event>, old: Seq<Event>, sem: usize, e: Event)
    requires
        extends_with_partials(new, old, sem),
        e matches Event::Partial(c) && c.sem == sem && !c.finished,
    ensures
        extends_with_partials(new.push(e), old, sem),
{
    assert(new.push(e).subrange(0, old.len() as int) =~= new.subrange(0, old.len() as int));
}

/// The top of the active-rule stack of `sem`, if any.
pub open spec fn top_of(active: Map<usize, Seq<ActiveRule>>, sem: usize) -> Option<ActiveRule> {
    if active.contains_key(sem) && active[sem].len() > 0 {
        Some(active[sem].last())
    } else {
        None
    }
}

/// The active-rule stack of `sem`, empty when there is none.
pub open spec fn stack_of(active: Map<usize, Seq<ActiveRule>>, sem: usize) -> Seq<ActiveRule> {
    if active.contains_key(sem) {
        active[sem]
    } else {
        Seq::empty()
    }
}

/// The bookkeeping of a partial invocation that counts `rule_len` symbols
/// on the stack `st`: the top advances to `rule_len`, or a fresh occurrence
/// with `handle` and a zero accumulator is pushed, or (before a jump to a
/// count already recorded) nothing changes.
pub open spec fn marked_stack(st: Seq<ActiveRule>, rule_len: usize, before_shift: bool, handle: isize) -> Seq<ActiveRule> {
    let fresh = ActiveRule { seen_tokens: rule_len, handle, retval: 0 };
    if st.len() > 0 {
        let last = st.len() - 1;
        let top = st[last];
        let advanced = ActiveRule { seen_tokens: rule_len, handle: top.handle, retval: top.retval };
        if before_shift {
            if top.seen_tokens < rule_len {
                st.update(last, advanced)
            } else {
                st.push(fresh)
            }
        } else if top.seen_tokens == rule_len {
            st
        } else {
            st.update(last, advanced)
        }
    } else {
        seq![fresh]
    }
}

/// `st` with the accumulator of its top set to `v`.
pub open spec fn with_retval(st: Seq<ActiveRule>, v: i64) -> Seq<ActiveRule> {
    let last = st.len() - 1;
    st.update(last, ActiveRule { seen_tokens: st[last].seen_tokens, handle: st[last].handle, retval: v })
}

/// A recorded call is one that the bound callback can make: its result is
/// an outcome of the callback on its arguments.
pub open spec fn call_bound<F: Fn(Vec<Symbol>, bool, i64) -> i64>(sems: Map<usize, F>, c: Invocation) -> bool {
    &&& sems.contains_key(c.sem)
    &&& exists|v: Vec<Symbol>|
        v@ == c.args && call_ensures(sems[c.sem], (v, c.finished, c.retval), c.result)
}

/// Every call recorded in the event `e` is one the bound callback can make,
/// and a reduction that called its callback pushed what the call returned.
pub open spec fn event_bound<F: Fn(Vec<Symbol>, bool, i64) -> i64>(sems: Map<usize, F>, e: Event) -> bool {
    match e {
        Event::Shift => true,
        Event::Partial(c) => call_bound(sems, c),
        Event::Reduce { call, pushed, .. } => call matches Some(c) ==> call_bound(sems, c) && pushed.val
            == c.result,
    }
}

/// Whether a partial invocation pushes a fresh occurrence.
pub open spec fn starts_fresh(top: Option<ActiveRule>, rule_len: usize, before_shift: bool) -> bool {
    match top {
        None => true,
        Some(a) => before_shift && a.seen_tokens >= rule_len,
    }
}

/// Whether a partial invocation calls the callback on the matched symbols
/// alone: always but before a shift that the occurrence had seen all but
/// the lookahead of.
pub open spec fn first_call_runs(top: Option<ActiveRule>, rule_len: usize, before_shift: bool) -> bool {
    !before_shift || starts_fresh(top, rule_len, before_shift) || top->0.seen_tokens + 1 < rule_len
}

/// The calls of one partial invocation: on the matched symbols `args`
/// (when `first`), then before a shift on `args` and the lookahead `la`,
/// threading the accumulator from `start`.
pub open spec fn partial_calls_ok(
    calls: Seq<Event>,
    sem: usize,
    args: Seq<Symbol>,
    la: Symbol,
    before_shift: bool,
    first: bool,
    start: i64,
) -> bool {
    let n: int = (if first { 1int } else { 0int }) + (if before_shift { 1int } else { 0int });
    &&& calls.len() == n
    &&& forall|i: int| 0 <= i < n ==> (#[trigger] calls[i] matches Event::Partial(c) && c.sem == sem && !c.finished)
    &&& first ==> calls[0]->Partial_0.args == args && calls[0]->Partial_0.retval == start
    &&& before_shift ==> {
        &&& calls[n - 1]->Partial_0.args == args.push(la)
        &&& calls[n - 1]->Partial_0.retval == if first { calls[0]->Partial_0.result } else { start }
    }
}

/// A reduction pushes a nonterminal whose id is the left-hand side of its rule.
pub open spec fn reduction_pushes_lhs(t: Tables, e: Event) -> bool {
    e matches Event::Reduce { rule, pushed, .. } ==> {
        &&& !pushed.is_term
        &&& pushed.strval is None
        &&& rule < t.num_rules()
        &&& Some(pushed.id) == id_of(t.nonterm_idx@, t.lhs_idx@[rule as int])
    }
}

/// No partial invocation; a reduction calls the callback of its rule once,
/// with the rule's right-hand side and a zero accumulator, exactly when one
/// is bound, and pushes what it returns (zero when none is bound).
pub open spec fn called_once_per_reduction(t: Tables, sems: Set<usize>, e: Event) -> bool {
    match e {
        Event::Shift => true,
        Event::Partial(_) => false,
        Event::Reduce { rule, call, pushed } => {
            &&& semantic_of(t.semantic_idx@, rule) matches Some(sem)
            &&& call is Some <==> sems.contains(sem)
            &&& call matches Some(c) ==> {
                &&& c.sem == sem
                &&& c.finished
                &&& c.args.len() == t.num_rhs_syms@[rule as int]
                &&& c.retval == 0
                &&& pushed.val == c.result
            }
            &&& call is None ==> pushed.val == 0
        },
    }
}

/// The error a parse with this outcome records.
pub open spec fn error_of(o: Outcome) -> Option<ParseError> {
    match o {
        Outcome::Accepted => None,
        Outcome::Failed(e) => Some(e),
    }
}

/// What every event of a parse's log satisfies.
pub open spec fn log_ok(env: Env, log: Seq<Event>) -> bool {
    &&& forall|i: int| 0 <= i < log.len() ==> reduction_pushes_lhs(env.tables, #[trigger] log[i])
    &&& !env.partials ==> forall|i: int|
        0 <= i < log.len() ==> called_once_per_reduction(env.tables, env.sems, #[trigger] log[i])
}

/// Partial invocations keep what a log satisfies.
proof fn lemma_partials_keep_log(env: Env, old: Seq<Event>, new: Seq<Event>, sem: usize)
    requires
        log_ok(env, old),
        env.partials,
        extends_with_partials(new, old, sem),
    ensures
        log_ok(env, new),
{
    assert forall|i: int| 0 <= i < new.len() implies reduction_pushes_lhs(env.tables, #[trigger] new[i]) by {
        if i < old.len() {
            assert(new[i] == new.subrange(0, old.len() as int)[i]);
        }
    }
}

/// The symbol stack that the events of `log` build from `input`, and the
/// number of input symbols shifted: a shift pushes the next input symbol, a
/// reduction replaces its rule's right-hand side by the nonterminal it
/// pushed, a partial invocation changes nothing.
pub open spec fn replay(t: Tables, input: Seq<Symbol>, log: Seq<Event>) -> (Seq<Symbol>, nat)
    decreases log.len(),
{
    if log.len() == 0 {
        (Seq::empty(), 0)
    } else {
        let (st, n) = replay(t, input, log.drop_last());
        match log.last() {
            Event::Shift => (st.push(input[n as int]), n + 1),
            Event::Reduce { rule, pushed, .. } => (
                st.subrange(0, st.len() - t.num_rhs_syms@[rule as int]).push(pushed),
                n,
            ),
            Event::Partial(_) => (st, n),
        }
    }
}

/// The calls recorded in `e` took their arguments from the stack `st`
/// replayed before it, `n` input symbols having been shifted: a reduction
/// calls the callback of its rule, finished, on the top symbols that its
/// rule spans; a partial call gets top symbols of the stack, before a shift
/// followed by the lookahead, the input symbol after those shifted.
pub open spec fn event_args_ok(t: Tables, input: Seq<Symbol>, st: Seq<Symbol>, n: nat, e: Event) -> bool {
    match e {
        Event::Shift => true,
        Event::Reduce { rule, call, .. } => {
            let k = t.num_rhs_syms@[rule as int];
            &&& k <= st.len()
            &&& call matches Some(c) ==> {
                &&& c.args == st.subrange(st.len() - k, st.len() as int)
                &&& Some(c.sem) == semantic_of(t.semantic_idx@, rule)
                &&& c.finished
            }
        },
        Event::Partial(c) => exists|m: int|
            0 <= m <= st.len() && (c.args == #[trigger] st.subrange(st.len() - m, st.len() as int) || c.args
                == st.subrange(st.len() - m, st.len() as int).push(input[n as int])),
    }
}

/// Every call of the log took its arguments from the stack replayed
/// before it.
#[verifier::opaque]
pub open spec fn args_ok(t: Tables, input: Seq<Symbol>, log: Seq<Event>) -> bool {
    forall|i: int|
        0 <= i < log.len() ==> event_args_ok(
            t,
            input,
            replay(t, input, log.subrange(0, i)).0,
            replay(t, input, log.subrange(0, i)).1,
            #[trigger] log[i],
        )
}

/// Appending an event whose calls took their arguments from the replayed
/// stack keeps the log's calls tied to it.
proof fn lemma_args_push(t: Tables, input: Seq<Symbol>, log: Seq<Event>, e: Event)
    requires
        args_ok(t, input, log),
        event_args_ok(t, input, replay(t, input, log).0, replay(t, input, log).1, e),
    ensures
        args_ok(t, input, log.push(e)),
{
    reveal(args_ok);
    let new = log.push(e);
    assert forall|i: int| 0 <= i < new.len() implies event_args_ok(
        t,
        input,
        replay(t, input, new.subrange(0, i)).0,
        replay(t, input, new.subrange(0, i)).1,
        #[trigger] new[i],
    ) by {
        if i < log.len() {
            assert(new.subrange(0, i) =~= log.subrange(0, i));
            assert(new[i] == log[i]);
        } else {
            assert(new.subrange(0, i) =~= log);
        }
    }
}

/// Partial calls on top symbols of the replayed stack, or on those and the
/// lookahead, keep the log's calls tied to the stack.
proof fn lemma_args_partials(
    t: Tables,
    input: Seq<Symbol>,
    new: Seq<Event>,
    old: Seq<Event>,
    sem: usize,
    m: int,
)
    requires
        args_ok(t, input, old),
        extends_with_partials(new, old, sem),
        0 <= m <= replay(t, input, old).0.len(),
        forall|i: int|
            old.len() <= i < new.len() ==> {
                let st = replay(t, input, old).0;
                let a = st.subrange(st.len() - m, st.len() as int);
                (#[trigger] new[i])->Partial_0.args == a || new[i]->Partial_0.args == a.push(
                    input[replay(t, input, old).1 as int],
                )
            },
    ensures
        args_ok(t, input, new),
{
    reveal(args_ok);
    assert forall|i: int| 0 <= i < new.len() implies event_args_ok(
        t,
        input,
        replay(t, input, new.subrange(0, i)).0,
        replay(t, input, new.subrange(0, i)).1,
        #[trigger] new[i],
    ) by {
        if i < old.len() {
            assert(new.subrange(0, i) =~= old.subrange(0, i));
            assert(new[i] == new.subrange(0, old.len() as int)[i]);
        } else {
            let pre = new.subrange(0, i);
            assert(pre.subrange(0, old.len() as int) =~= new.subrange(0, old.len() as int));
            assert forall|j: int| old.len() <= j < pre.len() implies (#[trigger] pre[j] matches Event::Partial(c) && c.sem == sem && !c.finished) by {
                assert(pre[j] == new[j]);
            }
            lemma_replay_partials(t, input, pre, old, sem);
            assert(new[i] matches Event::Partial(_));
        }
    }
}

/// The shifts and reductions of a log, in order.
pub open spec fn moves(log: Seq<Event>) -> Seq<Move>
    decreases log.len(),
{
    if log.len() == 0 {
        Seq::empty()
    } else {
        match log.last() {
            Event::Shift => moves(log.drop_last()).push(Move::Shifted),
            Event::Reduce { rule, .. } => moves(log.drop_last()).push(Move::Reduced(rule)),
            Event::Partial(_) => moves(log.drop_last()),
        }
    }
}

/// Partial invocations add no move.
proof fn lemma_moves_partials(new: Seq<Event>, old: Seq<Event>, sem: usize)
    requires
        extends_with_partials(new, old, sem),
    ensures
        moves(new) == moves(old),
    decreases new.len(),
{
    if new.len() > old.len() {
        let prev = new.drop_last();
        assert(prev.subrange(0, old.len() as int) =~= new.subrange(0, old.len() as int));
        assert forall|i: int| old.len() <= i < prev.len() implies (#[trigger] prev[i] matches Event::Partial(c) && c.sem == sem && !c.finished) by {
            assert(prev[i] == new[i]);
        }
        lemma_moves_partials(prev, old, sem);
        assert(new[new.len() - 1] is Partial);
    } else {
        assert(new =~= old);
    }
}

/// Callbacks that return one result for one set of arguments.
pub open spec fn deterministic<F: Fn(Vec<Symbol>, bool, i64) -> i64>(sems: Map<usize, F>) -> bool {
    forall|k: usize, v1: Vec<Symbol>, v2: Vec<Symbol>, b: bool, r: i64, x1: i64, x2: i64|
        sems.contains_key(k) && v1@ == v2@ && #[trigger] call_ensures(sems[k], (v1, b, r), x1)
            && #[trigger] call_ensures(sems[k], (v2, b, r), x2) ==> x1 == x2
}

/// What an accepted parse without partial actions leaves in its log and
/// on its stack, for the callbacks `sems`.
pub open spec fn accepted_trace<F: Fn(Vec<Symbol>, bool, i64) -> i64>(
    env: Env,
    sems: Map<usize, F>,
    input: Seq<Symbol>,
    log: Seq<Event>,
    symbols: Seq<Symbol>,
) -> bool {
    &&& log_ok(env, log)
    &&& args_ok(env.tables, input, log)
    &&& forall|i: int| 0 <= i < log.len() ==> event_bound(sems, #[trigger] log[i])
    &&& moves(log) == moves_of(env)
    &&& symbols == replay(env.tables, input, log).0
}

/// The move of a shift or a reduction.
pub open spec fn move_of(e: Event) -> Move {
    match e {
        Event::Reduce { rule, .. } => Move::Reduced(rule),
        _ => Move::Shifted,
    }
}

/// A log without partial calls has one move per event.
proof fn lemma_moves_len(log: Seq<Event>)
    requires
        forall|i: int| 0 <= i < log.len() ==> !(#[trigger] log[i] is Partial),
    ensures
        moves(log).len() == log.len(),
    decreases log.len(),
{
    if log.len() > 0 {
        let prev = log.drop_last();
        assert forall|i: int| 0 <= i < prev.len() implies !(#[trigger] prev[i] is Partial) by {
            assert(prev[i] == log[i]);
        }
        lemma_moves_len(prev);
        assert(!(log[log.len() - 1] is Partial));
    }
}

/// Two logs of parses without partial actions, with the same moves and
/// deterministic callbacks, are equal.
proof fn lemma_logs_equal<F: Fn(Vec<Symbol>, bool, i64) -> i64>(
    env: Env,
    sems: Map<usize, F>,
    input: Seq<Symbol>,
    l1: Seq<Event>,
    l2: Seq<Event>,
)
    requires
        !env.partials,
        env.sems == sems.dom(),
        deterministic(sems),
        log_ok(env, l1),
        log_ok(env, l2),
        args_ok(env.tables, input, l1),
        args_ok(env.tables, input, l2),
        forall|i: int| 0 <= i < l1.len() ==> event_bound(sems, #[trigger] l1[i]),
        forall|i: int| 0 <= i < l2.len() ==> event_bound(sems, #[trigger] l2[i]),
        moves(l1) == moves(l2),
    ensures
        l1 == l2,
    decreases l1.len(),
{
    let t = env.tables;
    assert forall|i: int| 0 <= i < l1.len() implies !(#[trigger] l1[i] is Partial) by {
        assert(called_once_per_reduction(t, env.sems, l1[i]));
    }
    assert forall|i: int| 0 <= i < l2.len() implies !(#[trigger] l2[i] is Partial) by {
        assert(called_once_per_reduction(t, env.sems, l2[i]));
    }
    lemma_moves_len(l1);
    lemma_moves_len(l2);
    if l1.len() > 0 {
        let p1 = l1.drop_last();
        let p2 = l2.drop_last();
        let n = l1.len() - 1;
        reveal(args_ok);
        assert(moves(p1) == moves(l1).drop_last());
        assert(moves(p2) == moves(l2).drop_last());
        assert forall|i: int| 0 <= i < p1.len() implies called_once_per_reduction(t, env.sems, #[trigger] p1[i]) && reduction_pushes_lhs(t, p1[i]) && event_bound(sems, p1[i]) by {
            assert(p1[i] == l1[i]);
        }
        assert forall|i: int| 0 <= i < p2.len() implies called_once_per_reduction(t, env.sems, #[trigger] p2[i]) && reduction_pushes_lhs(t, p2[i]) && event_bound(sems, p2[i]) by {
            assert(p2[i] == l2[i]);
        }
        assert forall|i: int| 0 <= i < p1.len() implies event_args_ok(t, input, replay(t, input, p1.subrange(0, i)).0, replay(t, input, p1.subrange(0, i)).1, #[trigger] p1[i]) by {
            assert(p1.subrange(0, i) =~= l1.subrange(0, i));
            assert(p1[i] == l1[i]);
        }
        assert forall|i: int| 0 <= i < p2.len() implies event_args_ok(t, input, replay(t, input, p2.subrange(0, i)).0, replay(t, input, p2.subrange(0, i)).1, #[trigger] p2[i]) by {
            assert(p2.subrange(0, i) =~= l2.subrange(0, i));
            assert(p2[i] == l2[i]);
        }
        lemma_logs_equal(env, sems, input, p1, p2);
        let e1 = l1[n];
        let e2 = l2[n];
        assert(l1.subrange(0, n) =~= p1);
        assert(l2.subrange(0, n) =~= p2);
        assert(event_args_ok(t, input, replay(t, input, p1).0, replay(t, input, p1).1, e1));
        assert(event_args_ok(t, input, replay(t, input, p2).0, replay(t, input, p2).1, e2));
        assert(called_once_per_reduction(t, env.sems, e1));
        assert(called_once_per_reduction(t, env.sems, e2));
        assert(reduction_pushes_lhs(t, e1));
        assert(reduction_pushes_lhs(t, e2));
        assert(event_bound(sems, e1));
        assert(event_bound(sems, e2));
        assert forall|i: int| 0 <= i < p1.len() implies !(#[trigger] p1[i] is Partial) by {
            assert(p1[i] == l1[i]);
        }
        assert forall|i: int| 0 <= i < p2.len() implies !(#[trigger] p2[i] is Partial) by {
            assert(p2[i] == l2[i]);
        }
        lemma_moves_len(p1);
        lemma_moves_len(p2);
        assert(l1.drop_last() == p1);
        assert(l2.drop_last() == p2);
        assert(moves(l1)[n] == moves(l2)[n]);
        assert(moves(l1)[n] == move_of(e1));
        assert(moves(l2)[n] == move_of(e2));
        if let Event::Reduce { rule: r1, call: c1, pushed: q1 } = e1 {
            if let Event::Reduce { rule: r2, call: c2, pushed: q2 } = e2 {
                assert(r1 == r2);
                if let Some(a1) = c1 {
                    if let Some(a2) = c2 {
                        let v1 = choose|v: Vec<Symbol>| v@ == a1.args && call_ensures(sems[a1.sem], (v, a1.finished, a1.retval), a1.result);
                        let v2 = choose|v: Vec<Symbol>| v@ == a2.args && call_ensures(sems[a2.sem], (v, a2.finished, a2.retval), a2.result);
                        assert(a1.result == a2.result);
                        assert(a1 == a2);
                    }
                }
                assert(q1 == q2);
            } else {
                assert(false);
            }
        } else {
            assert(e1 == e2);
        }
        assert(l1 =~= p1.push(e1));
        assert(l2 =~= p2.push(e2));
    } else {
        assert(l1 =~= l2);
    }
}

/// Partial invocations leave the replayed stack alone.
proof fn lemma_replay_partials(t: Tables, input: Seq<Symbol>, new: Seq<Event>, old: Seq<Event>, sem: usize)
    requires
        extends_with_partials(new, old, sem),
    ensures
        replay(t, input, new) == replay(t, input, old),
    decreases new.len(),
{
    if new.len() > old.len() {
        let prev = new.drop_last();
        assert(prev.subrange(0, old.len() as int) =~= new.subrange(0, old.len() as int));
        assert forall|i: int| old.len() <= i < prev.len() implies (#[trigger] prev[i] matches Event::Partial(c) && c.sem == sem && !c.finished) by {
            assert(prev[i] == new[i]);
        }
        lemma_replay_partials(t, input, prev, old, sem);
        assert(new[new.len() - 1] is Partial);
    } else {
        assert(new =~= old);
    }
}

/// A table-driven LALR(1) parser whose semantic callbacks have type `F`.
pub struct Parser<F: Fn(Vec<Symbol>, bool, i64) -> i64> {
    state: Vec<usize>,
    symbol: Vec<Symbol>,
    tables: Tables,
    active_rules: HashMap<usize, Vec<ActiveRule>>,
    cur_rule_handle: isize,
    lookahead: Option<Symbol>,
    lookahead_index: usize,
    input: Vec<Symbol>,
    next_input_index: usize,
    semantics: HashMap<usize, F>,
    debug: bool,
    use_partials: bool,
    error: Option<ParseError>,
    log: Ghost<Seq<Event>>,
}

impl<F: Fn(Vec<Symbol>, bool, i64) -> i64> Parser<F> {
    pub closed spec fn tables(&self) -> Tables {
        self.tables
    }

    pub closed spec fn states(&self) -> Seq<usize> {
        self.state@
    }

    pub closed spec fn symbols(&self) -> Seq<Symbol> {
        self.symbol@
    }

    pub closed spec fn input(&self) -> Seq<Symbol> {
        self.input@
    }

    pub closed spec fn active(&self) -> Map<usize, Seq<ActiveRule>> {
        self.active_rules@.map_values(|v: Vec<ActiveRule>| v@)
    }

    pub closed spec fn handle_counter(&self) -> int {
        self.cur_rule_handle as int
    }

    pub closed spec fn semantics(&self) -> Map<usize, F> {
        self.semantics@
    }

    pub closed spec fn partials(&self) -> bool {
        self.use_partials
    }

    pub closed spec fn debug(&self) -> bool {
        self.debug
    }

    pub closed spec fn lookahead(&self) -> Option<Symbol> {
        self.lookahead
    }

    pub closed spec fn last_error(&self) -> Option<ParseError> {
        self.error
    }

    /// What the driver has done since the last reset.
    pub closed spec fn log(&self) -> Seq<Event> {
        self.log@
    }

    /// What the control flow of a parse depends on.
    pub open spec fn env(&self) -> Env {
        Env {
            tables: self.tables(),
            input: ids(self.input()),
            sems: self.semantics().dom(),
            partials: self.partials(),
        }
    }

    /// The driver's control state.
    pub closed spec fn ctrl(&self) -> Ctrl {
        Ctrl {
            states: self.state@,
            pos: self.next_input_index as nat,
            la: self.lookahead_index,
            active: self.active_rules@.map_values(|v: Vec<ActiveRule>| marks(v@)),
            handle: self.cur_rule_handle as int,
        }
    }

    /// Every bound callback accepts every argument.
    pub open spec fn callbacks_total(sem: Map<usize, F>) -> bool {
        forall|k: usize, a: Vec<Symbol>, b: bool, v: i64|
            sem.contains_key(k) ==> #[trigger] call_requires(sem[k], (a, b, v))
    }

    /// Tables, input, callbacks and flags are those of `other`.
    pub open spec fn same_setup(&self, other: Self) -> bool {
        &&& self.tables() == other.tables()
        &&& self.input() == other.input()
        &&& self.semantics() == other.semantics()
        &&& self.partials() == other.partials()
        &&& self.debug() == other.debug()
    }

    /// What holds of a parser at every point: well-formed tables and
    /// callbacks that accept every argument.
    pub closed spec fn settled(&self) -> bool {
        &&& self.tables.wf()
        &&& Self::callbacks_total(self.semantics@)
    }

    /// The stacks hold existing states, and the handles of the active
    /// rules are unique and below the counter.
    pub closed spec fn engine_ok(&self) -> bool {
        &&& self.settled()
        &&& self.state@.len() >= 1
        &&& forall|i: int|
            0 <= i < self.state@.len() ==> #[trigger] self.state@[i]
                < self.tables.num_states()
        &&& self.cur_rule_handle >= 0
        &&& handles_ok(self.ctrl().active, self.cur_rule_handle as int)
    }

    /// Invariant between driver iterations and between calls.
    pub closed spec fn inv(&self) -> bool {
        &&& self.engine_ok()
        &&& self.state@.len() == self.symbol@.len() + 1
    }

    /// A lookahead is held: the input symbol before the cursor.
    pub closed spec fn lookahead_ok(&self) -> bool {
        &&& self.next_input_index <= self.input@.len()
        &&& self.lookahead is Some
        &&& self.lookahead_index < self.tables.num_terms()
        &&& self.next_input_index >= 1
        &&& self.lookahead == Some(self.input@[self.next_input_index - 1])
        &&& index_of(self.tables.term_idx@, self.lookahead->0.id) == Some(self.lookahead_index)
    }

    /// The symbol stack is what the log replays from the input, the
    /// lookahead is the input symbol after those shifted, and every recorded
    /// call is one the bound callback can make.
    pub closed spec fn traced(&self) -> bool {
        &&& self.symbol@ == replay(self.tables, self.input@, self.log@).0
        &&& replay(self.tables, self.input@, self.log@).1 + 1 == self.next_input_index
        &&& self.calls_bound()
        &&& args_ok(self.tables, self.input@, self.log@)
    }

    /// Every recorded call is one the bound callback can make.
    pub closed spec fn calls_bound(&self) -> bool {
        forall|i: int| 0 <= i < self.log@.len() ==> event_bound(self.semantics@, #[trigger] self.log@[i])
    }

    /// Between iterations of a parse.
    pub closed spec fn running(&self) -> bool {
        &&& self.inv()
        &&& self.lookahead_ok()
    }

    /// The state right after construction or `reset`.
    pub closed spec fn is_reset(&self) -> bool {
        &&& self.state@ == seq![self.tables.start]
        &&& self.symbol@.len() == 0
        &&& self.next_input_index == 0
        &&& self.lookahead is None
        &&& self.lookahead_index == 0
        &&& self.active_rules@ == Map::<usize, Vec<ActiveRule>>::empty()
        &&& self.cur_rule_handle == 0
        &&& self.log@ == Seq::<Event>::empty()
    }

    /// Creates a parser over `tables`, with partial actions enabled.
    pub fn new(tables: Tables) -> (r: Self)
        requires
            tables.wf(),
        ensures
            r.inv(),
            r.settled(),
            r.engine_ok(),
            r.is_reset(),
            r.ctrl().la == 0,
            r.states() == seq![r.tables().start],
            r.symbols().len() == 0,
            r.active() == Map::<usize, Seq<ActiveRule>>::empty(),
            r.handle_counter() == 0,
            r.lookahead() is None,
            r.log().len() == 0,
            r.ctrl().pos == 0,
            r.tables() == tables,
            r.input().len() == 0,
            r.semantics() == Map::<usize, F>::empty(),
            r.partials(),
            !r.debug(),
            r.last_error() is None,
    {
        let mut parser = Parser {
            state: Vec::new(),
            symbol: Vec::new(),
            tables,
            active_rules: HashMap::new(),
            cur_rule_handle: 0,
            lookahead: None,
            lookahead_index: 0,
            input: Vec::new(),
            next_input_index: 0,
            semantics: HashMap::new(),
            debug: false,
            use_partials: true,
            error: None,
            log: Ghost(Seq::empty()),
        };
        parser.reset();
        parser
    }

    /// Returns the parser to the state right after construction, keeping
    /// the tables, input, callbacks and flags.
    pub fn reset(&mut self)
        requires
            old(self).settled(),
        ensures
            final(self).inv(),
            final(self).settled(),
            final(self).engine_ok(),
            final(self).same_setup(*old(self)),
            final(self).is_reset(),
            final(self).states() == seq![final(self).tables().start],
            final(self).symbols().len() == 0,
            final(self).active() == Map::<usize, Seq<ActiveRule>>::empty(),
            final(self).handle_counter() == 0,
            final(self).lookahead() is None,
            final(self).log().len() == 0,
            final(self).ctrl().pos == 0,
            final(self).ctrl().la == 0,
            final(self).last_error() == old(self).last_error(),
    {
        self.next_input_index = 0;
        self.lookahead = None;
        self.lookahead_index = 0;
        self.active_rules.clear();
        self.cur_rule_handle = 0;
        self.symbol.clear();
        self.state.clear();
        self.state.push(self.tables.start);
        self.log = Ghost(Seq::empty());
        proof {
            assert(self.ctrl().active =~= Map::empty());
        }
    }

    /// Installs the input symbols.
    pub fn set_input(&mut self, input: &[Symbol])
        requires
            old(self).settled(),
        ensures
            final(self).settled(),
            old(self).engine_ok() ==> final(self).engine_ok(),
            final(self).input() == input@,
            final(self).tables() == old(self).tables(),
            final(self).semantics() == old(self).semantics(),
            final(self).partials() == old(self).partials(),
            final(self).debug() == old(self).debug(),
            final(self).states() == old(self).states(),
            final(self).symbols() == old(self).symbols(),
            final(self).ctrl() == old(self).ctrl(),
            final(self).active() == old(self).active(),
            final(self).lookahead() == old(self).lookahead(),
            final(self).last_error() == old(self).last_error(),
            final(self).log() == old(self).log(),
    {
        let mut v: Vec<Symbol> = Vec::new();
        let mut i: usize = 0;
        while i < input.len()
            invariant
                i <= input@.len(),
                v@ == input@.subrange(0, i as int),
            decreases input@.len() - i,
        {
            v.push(input[i].duplicate());
            i = i + 1;
            proof {
                assert(v@ =~= input@.subrange(0, i as int));
            }
        }
        proof {
            assert(v@ =~= input@);
        }
        self.input = v;
    }

    /// Turns diagnostic tracing on or off.
    pub fn set_debug(&mut self, debug: bool)
        requires
            old(self).settled(),
        ensures
            final(self).settled(),
            old(self).engine_ok() ==> final(self).engine_ok(),
            final(self).debug() == debug,
            final(self).tables() == old(self).tables(),
            final(self).input() == old(self).input(),
            final(self).semantics() == old(self).semantics(),
            final(self).partials() == old(self).partials(),
            final(self).states() == old(self).states(),
            final(self).symbols() == old(self).symbols(),
            final(self).ctrl() == old(self).ctrl(),
            final(self).active() == old(self).active(),
            final(self).lookahead() == old(self).lookahead(),
            final(self).last_error() == old(self).last_error(),
            final(self).log() == old(self).log(),
    {
        self.debug = debug;
    }

    /// Turns the invocation of partial semantic actions on or off.
    pub fn set_partials(&mut self, use_partials: bool)
        requires
            old(self).settled(),
        ensures
            final(self).settled(),
            old(self).engine_ok() ==> final(self).engine_ok(),
            final(self).partials() == use_partials,
            final(self).tables() == old(self).tables(),
            final(self).input() == old(self).input(),
            final(self).semantics() == old(self).semantics(),
            final(self).debug() == old(self).debug(),
            final(self).states() == old(self).states(),
            final(self).symbols() == old(self).symbols(),
            final(self).ctrl() == old(self).ctrl(),
            final(self).active() == old(self).active(),
            final(self).lookahead() == old(self).lookahead(),
            final(self).last_error() == old(self).last_error(),
            final(self).log() == old(self).log(),
    {
        self.use_partials = use_partials;
    }

    /// Whether diagnostic tracing is on.
    pub fn is_debug(&self) -> (r: bool)
        ensures
            r == self.debug(),
    {
        self.debug
    }

    /// Why the last parse failed, if it did.
    pub fn get_error(&self) -> (r: Option<ParseError>)
        ensures
            r == self.last_error(),
    {
        self.error
    }

    /// The top of the symbol stack.
    pub fn get_top_symbol(&self) -> (r: Option<&Symbol>)
        ensures
            self.symbols().len() == 0 ==> r is None,
            self.symbols().len() > 0 ==> r == Some(&self.symbols().last()),
    {
        if self.symbol.len() == 0 {
            None
        } else {
            Some(&self.symbol[self.symbol.len() - 1])
        }
    }

    /// The id of the end-of-input terminal.
    pub fn get_end_id(&self) -> (r: usize)
        ensures
            r == self.tables().end,
    {
        self.tables.end
    }

    /// Reads the input symbol at the cursor as the new lookahead.
    fn next_lookahead(&mut self) -> (r: Result<(), ParseError>)
        requires
            old(self).engine_ok(),
            old(self).next_input_index <= old(self).input@.len(),
        ensures
            final(self).engine_ok(),
            final(self).same_setup(*old(self)),
            final(self).error == old(self).error,
            final(self).log@ == old(self).log@,
            final(self).state@ == old(self).state@,
            final(self).symbol@ == old(self).symbol@,
            final(self).active_rules@ == old(self).active_rules@,
            final(self).cur_rule_handle == old(self).cur_rule_handle,
            match crate::machine::lookahead_at(old(self).env(), old(self).next_input_index as nat) {
                Ok(la) => {
                    &&& r is Ok
                    &&& final(self).lookahead_index == la
                    &&& final(self).next_input_index == old(self).next_input_index + 1
                    &&& final(self).lookahead == Some(old(self).input@[old(self).next_input_index as int])
                    &&& final(self).lookahead_ok()
                },
                Err(e) => r == Err::<(), ParseError>(e),
            },
    {
        if self.next_input_index >= self.input.len() {
            return Err(ParseError::MissingInput);
        }
        let sym = self.input[self.next_input_index].duplicate();
        let id = sym.id;
        proof {
            assert(ids(self.input@)[self.next_input_index as int] == id);
        }
        match self.get_term_table_index(id) {
            None => Err(ParseError::UnknownTerminal { id }),
            Some(idx) => {
                proof {
                    let i = choose|i: int|
                        0 <= i < self.tables.term_idx@.len() && (#[trigger] self.tables.term_idx@[i]).id == id;
                    assert(self.tables.term_idx@[i].index < self.tables.num_terms());
                }
                self.lookahead = Some(sym);
                self.lookahead_index = idx;
                self.next_input_index = self.next_input_index + 1;
                Ok(())
            },
        }
    }

    /// Binds the callbacks, replacing those bound before.
    pub fn set_semantics(&mut self, sema: &[(usize, F)])
        where
            F: Copy,
        requires
            old(self).settled(),
            forall|i: int, a: Vec<Symbol>, b: bool, v: i64|
                0 <= i < sema@.len() ==> #[trigger] call_requires(sema@[i].1, (a, b, v)),
        ensures
            final(self).settled(),
            old(self).engine_ok() ==> final(self).engine_ok(),
            final(self).semantics() == bindings(sema@),
            final(self).tables() == old(self).tables(),
            final(self).input() == old(self).input(),
            final(self).partials() == old(self).partials(),
            final(self).debug() == old(self).debug(),
            final(self).states() == old(self).states(),
            final(self).symbols() == old(self).symbols(),
            final(self).ctrl() == old(self).ctrl(),
            final(self).active() == old(self).active(),
            final(self).lookahead() == old(self).lookahead(),
            final(self).last_error() == old(self).last_error(),
            final(self).log() == old(self).log(),
    {
        self.semantics.clear();
        let mut i: usize = 0;
        while i < sema.len()
            invariant
                i <= sema@.len(),
                self.semantics@ == bindings(sema@.subrange(0, i as int)),
                forall|j: int, a: Vec<Symbol>, b: bool, v: i64|
                    0 <= j < sema@.len() ==> #[trigger] call_requires(sema@[j].1, (a, b, v)),
                Self::callbacks_total(self.semantics@),
                self.tables.wf(),
                self.tables == old(self).tables,
                self.input == old(self).input,
                self.use_partials == old(self).use_partials,
                self.debug == old(self).debug,
                self.state == old(self).state,
                self.symbol == old(self).symbol,
                self.active_rules == old(self).active_rules,
                self.cur_rule_handle == old(self).cur_rule_handle,
                self.lookahead == old(self).lookahead,
                self.lookahead_index == old(self).lookahead_index,
                self.next_input_index == old(self).next_input_index,
                self.error == old(self).error,
                self.log == old(self).log,
            decreases sema@.len() - i,
        {
            let entry = sema[i];
            self.semantics.insert(entry.0, entry.1);
            proof {
                assert(sema@.subrange(0, i + 1).drop_last() =~= sema@.subrange(0, i as int));
            }
            i = i + 1;
        }
        proof {
            assert(sema@.subrange(0, sema@.len() as int) =~= sema@);
        }
    }

    /// Copies of the top `n` symbols of the stack, oldest first.
    fn top_symbols(&self, n: usize) -> (r: Vec<Symbol>)
        requires
            n <= self.symbol@.len(),
        ensures
            r@ == self.symbol@.subrange(self.symbol@.len() - n, self.symbol@.len() as int),
    {
        let len = self.symbol.len();
        let base = len - n;
        let mut args: Vec<Symbol> = Vec::new();
        let mut i: usize = 0;
        while i < n
            invariant
                i <= n,
                base + n == len,
                len == self.symbol@.len(),
                args@ == self.symbol@.subrange(base as int, base + i),
            decreases n - i,
        {
            args.push(self.symbol[base + i].duplicate());
            i = i + 1;
            proof {
                assert(args@ =~= self.symbol@.subrange(base as int, base + i));
            }
        }
        args
    }

    /// Runs the partial action of the rule with semantic id `rule_id`, of
    /// which `arg_len` symbols are on the stack; before a shift the
    /// lookahead counts as one more.
    fn apply_partial_rule(&mut self, rule_id: usize, arg_len: usize, before_shift: bool) -> (r:
        Result<(), ParseError>)
        requires
            old(self).engine_ok(),
            old(self).lookahead_ok(),
            old(self).cur_rule_handle < MAX_STEPS,
            before_shift ==> old(self).symbol@.len() < old(self).state@.len(),
        ensures
            final(self).engine_ok(),
            final(self).lookahead_ok(),
            final(self).same_setup(*old(self)),
            final(self).error == old(self).error,
            final(self).state@ == old(self).state@,
            final(self).symbol@ == old(self).symbol@,
            final(self).lookahead == old(self).lookahead,
            final(self).lookahead_index == old(self).lookahead_index,
            final(self).next_input_index == old(self).next_input_index,
            old(self).cur_rule_handle <= final(self).cur_rule_handle <= old(self).cur_rule_handle + 1,
            extends_with_partials(final(self).log@, old(self).log@, rule_id),
            forall|i: int|
                old(self).log@.len() <= i < final(self).log@.len() ==> event_bound(
                    old(self).semantics@,
                    #[trigger] final(self).log@[i],
                ),
            forall|i: int|
                old(self).log@.len() <= i < final(self).log@.len() ==> {
                    let n = old(self).symbol@.len();
                    let a = old(self).symbol@.subrange(n - arg_len, n as int);
                    (#[trigger] final(self).log@[i])->Partial_0.args == a || final(self).log@[i]->Partial_0.args
                        == a.push(old(self).lookahead->0)
                },
            ({
                let rule_len = if before_shift { (arg_len + 1) as usize } else { arg_len };
                let top = top_of(old(self).active(), rule_id);
                let ms = marked_stack(stack_of(old(self).active(), rule_id), rule_len, before_shift, old(self).cur_rule_handle);
                let invoke = partial_marks(old(self).ctrl(), rule_id, rule_len, before_shift).0;
                &&& arg_len > old(self).symbol@.len() ==> final(self).active() == old(self).active()
                    && final(self).log@ == old(self).log@
                &&& arg_len <= old(self).symbol@.len() && !invoke ==> final(self).active() == old(self).active()
                    && final(self).log@ == old(self).log@ && final(self).cur_rule_handle == old(self).cur_rule_handle
                &&& arg_len <= old(self).symbol@.len() && invoke && !old(self).semantics@.contains_key(rule_id)
                    ==> final(self).active() == old(self).active().insert(rule_id, ms)
                    && final(self).log@ == old(self).log@
                &&& arg_len <= old(self).symbol@.len() && invoke && old(self).semantics@.contains_key(rule_id)
                    ==> final(self).log@.len() > old(self).log@.len() && final(self).active()
                    == old(self).active().insert(rule_id, with_retval(ms, final(self).log@.last()->Partial_0.result))
            }),
            ({
                let rule_len = if before_shift { (arg_len + 1) as usize } else { arg_len };
                let top = top_of(old(self).active(), rule_id);
                let n = old(self).symbol@.len();
                r is Ok && partial_marks(old(self).ctrl(), rule_id, rule_len, before_shift).0
                    ==> partial_calls_ok(
                    final(self).log@.subrange(old(self).log@.len() as int, final(self).log@.len() as int),
                    rule_id,
                    old(self).symbol@.subrange(n - arg_len, n as int),
                    old(self).lookahead->0,
                    before_shift,
                    first_call_runs(top, rule_len, before_shift),
                    if starts_fresh(top, rule_len, before_shift) { 0 } else { top->0.retval },
                )
            }),
            match partial_step(
                old(self).env(),
                old(self).ctrl(),
                rule_id,
                arg_len,
                before_shift,
                old(self).symbol@.len(),
            ) {
                Ok(c) => r is Ok && final(self).ctrl() == c,
                Err(e) => r == Err::<(), ParseError>(e),
            },
    {
        let nsyms = self.symbol.len();
        let state_len = self.state.len();
        let ghost log0 = self.log@;
        proof {
            lemma_log_same(log0, rule_id);
        }
        if arg_len > nsyms {
            return Err(ParseError::InvalidTable);
        }
        assert(arg_len < state_len || !before_shift);
        let rule_len: usize = if before_shift {
            arg_len + 1
        } else {
            arg_len
        };
        let ghost c0 = self.ctrl();
        let ghost a0 = self.active_rules@;
        let ghost marks0 = partial_marks(c0, rule_id, rule_len, before_shift);
        proof {
            lemma_partial_keeps_handles(c0, rule_id, rule_len, before_shift);
        }
        let mut stack: Vec<ActiveRule> = match self.active_rules.remove(&rule_id) {
            Some(v) => v,
            None => Vec::new(),
        };
        proof {
            if a0.contains_key(rule_id) {
                assert(c0.active[rule_id] == marks(stack@));
            }
        }
        let ghost s0 = stack@;
        let ghost ms = marked_stack(stack_of(old(self).active(), rule_id), rule_len, before_shift, old(self).cur_rule_handle);
        proof {
            assert(stack_of(old(self).active(), rule_id) == s0);
        }
        let mut invoke = true;
        let mut fresh = false;
        let mut first_call = true;
        let n = stack.len();
        if n > 0 {
            let top = stack[n - 1];
            if before_shift {
                if top.seen_tokens < rule_len {
                    first_call = top.seen_tokens + 1 < rule_len;
                    stack[n - 1] = ActiveRule { seen_tokens: rule_len, handle: top.handle, retval: top.retval };
                } else {
                    fresh = true;
                }
            } else if top.seen_tokens == rule_len {
                invoke = false;
            } else {
                stack[n - 1] = ActiveRule { seen_tokens: rule_len, handle: top.handle, retval: top.retval };
            }
        } else {
            fresh = true;
        }
        if fresh {
            stack.push(ActiveRule { seen_tokens: rule_len, handle: self.cur_rule_handle, retval: 0 });
            self.cur_rule_handle = self.cur_rule_handle + 1;
        }
        proof {
            assert(marks(stack@) =~= marks0.1);
            assert(invoke == marks0.0);
            assert(fresh == marks0.2);
            assert(stack@ =~= ms);
        }
        if !invoke {
            self.active_rules.insert(rule_id, stack);
            proof {
                assert(self.active_rules@ =~= a0);
                assert(self.ctrl().active =~= c0.active);
                assert(self.active() =~= old(self).active());
            }
            return Ok(());
        }
        let f = match self.semantics.get(&rule_id) {
            None => {
                self.active_rules.insert(rule_id, stack);
                proof {
                    assert(self.ctrl().active =~= c0.active.insert(rule_id, marks0.1));
                    assert(self.active() =~= old(self).active().insert(rule_id, ms));
                }
                return Err(ParseError::MissingSemantic { rule_id });
            },
            Some(f) => f,
        };
        let last = stack.len() - 1;
        if first_call {
            let args = self.top_symbols(arg_len);
            let prev = stack[last].retval;
            let ghost a = args@;
            let ghost av = args;
            let v = f(args, false, prev);
            proof {
                assert(av@ == a);
                assert(call_bound(old(self).semantics@, Invocation { sem: rule_id, args: a, finished: false, retval: prev, result: v }));
            }
            let top = stack[last];
            stack[last] = ActiveRule { seen_tokens: top.seen_tokens, handle: top.handle, retval: v };
            proof {
                assert(stack@ =~= with_retval(ms, v));
            }
            let ghost e = Event::Partial(
                Invocation { sem: rule_id, args: a, finished: false, retval: prev, result: v },
            );
            proof {
                lemma_log_push(self.log@, log0, rule_id, e);
            }
            self.log = Ghost(self.log@.push(e));
        }
        if before_shift {
            let mut args = self.top_symbols(arg_len);
            match &self.lookahead {
                Some(la) => args.push(la.duplicate()),
                None => {},
            }
            let prev = stack[last].retval;
            let ghost a = args@;
            let ghost av = args;
            let v = f(args, false, prev);
            proof {
                assert(av@ == a);
                assert(call_bound(old(self).semantics@, Invocation { sem: rule_id, args: a, finished: false, retval: prev, result: v }));
            }
            let top = stack[last];
            stack[last] = ActiveRule { seen_tokens: top.seen_tokens, handle: top.handle, retval: v };
            proof {
                assert(stack@ =~= with_retval(ms, v));
            }
            let ghost e = Event::Partial(
                Invocation { sem: rule_id, args: a, finished: false, retval: prev, result: v },
            );
            proof {
                lemma_log_push(self.log@, log0, rule_id, e);
            }
            self.log = Ghost(self.log@.push(e));
        }
        proof {
            assert(marks(stack@) =~= marks0.1);
        }
        self.active_rules.insert(rule_id, stack);
        proof {
            assert(self.ctrl().active =~= c0.active.insert(rule_id, marks0.1));
            assert(self.active() =~= old(self).active().insert(rule_id, stack@));
        }
        Ok(())
    }

    /// The terminal column of the id `id`.
    pub fn get_term_table_index(&self, id: usize) -> (r: Option<usize>)
        requires
            self.tables().wf(),
        ensures
            r == index_of(self.tables().term_idx@, id),
    {
        get_table_index(&self.tables.term_idx, id)
    }

    /// The id that `tab` gives to the column `idx`.
    pub fn get_table_id(tab: &Vec<crate::tables::TableEntry>, idx: usize) -> (r: Option<usize>)
        requires
            crate::tables::entries_unique(tab@),
        ensures
            r == id_of(tab@, idx),
    {
        get_table_id(tab, idx)
    }

    /// The semantic id of the rule with index `idx`.
    pub fn get_semantic_table_id(&self, idx: usize) -> (r: Option<usize>)
        requires
            self.tables().wf(),
        ensures
            r == semantic_of(self.tables().semantic_idx@, idx),
    {
        get_semantic_table_id(&self.tables.semantic_idx, idx)
    }

    /// The id of the nonterminal with column `idx`.
    pub fn get_nonterm_table_id(&self, idx: usize) -> (r: Option<usize>)
        requires
            self.tables().wf(),
        ensures
            r == id_of(self.tables().nonterm_idx@, idx),
    {
        Self::get_table_id(&self.tables.nonterm_idx, idx)
    }

    /// Moves the lookahead onto the symbol stack and reads the next one.
    /// The caller pushes the matching state first.
    pub fn push_lookahead(&mut self) -> (r: Result<(), ParseError>)
        requires
            old(self).engine_ok(),
            old(self).lookahead() is Some,
            old(self).ctrl().pos <= old(self).input().len(),
        ensures
            final(self).engine_ok(),
            final(self).same_setup(*old(self)),
            final(self).last_error() == old(self).last_error(),
            final(self).log() == old(self).log(),
            final(self).states() == old(self).states(),
            final(self).symbols() == old(self).symbols().push(old(self).lookahead()->0),
            final(self).ctrl().active == old(self).ctrl().active,
            final(self).handle_counter() == old(self).handle_counter(),
            match crate::machine::lookahead_at(old(self).env(), old(self).ctrl().pos) {
                Ok(la) => {
                    &&& r is Ok
                    &&& final(self).lookahead_ok()
                    &&& final(self).lookahead() == Some(old(self).input()[old(self).ctrl().pos as int])
                    &&& final(self).ctrl().la == la
                    &&& final(self).ctrl().pos == old(self).ctrl().pos + 1
                },
                Err(e) => r == Err::<(), ParseError>(e),
            },
    {
        let la = self.lookahead.take();
        match la {
            Some(sym) => self.symbol.push(sym),
            None => {},
        }
        self.next_lookahead()
    }

    /// Reduces by rule `rule`, whose semantic id is `rule_id`: pops its
    /// `num_rhs` symbols and states, drains its active rule, calls its
    /// callback, and pushes the nonterminal `lhs_id`.
    fn apply_rule(&mut self, rule_id: usize, num_rhs: usize, lhs_id: usize, rule: Ghost<usize>)
        requires
            old(self).running(),
            num_rhs < old(self).state@.len(),
        ensures
            final(self).engine_ok(),
            final(self).lookahead_ok(),
            final(self).same_setup(*old(self)),
            final(self).error == old(self).error,
            final(self).lookahead == old(self).lookahead,
            final(self).lookahead_index == old(self).lookahead_index,
            final(self).next_input_index == old(self).next_input_index,
            final(self).cur_rule_handle == old(self).cur_rule_handle,
            final(self).state@ == old(self).state@.subrange(
                0,
                old(self).state@.len() - num_rhs,
            ),
            final(self).ctrl().active == crate::machine::drained(
                old(self).env(),
                old(self).ctrl(),
                rule_id,
            ),
            final(self).active() == if old(self).use_partials && top_of(old(self).active(), rule_id) is Some {
                old(self).active().insert(rule_id, old(self).active()[rule_id].drop_last())
            } else {
                old(self).active()
            },
            event_bound(old(self).semantics@, final(self).log@.last()),
            ({
                let n = old(self).symbol@.len();
                let args = old(self).symbol@.subrange(n - num_rhs, n as int);
                let pushed = final(self).symbol@.last();
                let st = old(self).active_rules@.get(rule_id);
                let drained_top = old(self).use_partials && st is Some && st->0@.len() > 0;
                let start = if drained_top { st->0@.last().retval } else { 0 };
                &&& final(self).symbol@ == old(self).symbol@.subrange(0, n - num_rhs).push(pushed)
                &&& !pushed.is_term && pushed.id == lhs_id && pushed.strval is None
                &&& if old(self).semantics@.contains_key(rule_id) {
                    &&& exists|v: Vec<Symbol>|
                        v@ == args && call_ensures(
                            old(self).semantics@[rule_id],
                            (v, true, start),
                            pushed.val,
                        )
                    &&& final(self).log@ == old(self).log@.push(
                        Event::Reduce {
                            rule: rule@,
                            call: Some(
                                Invocation {
                                    sem: rule_id,
                                    args,
                                    finished: true,
                                    retval: start,
                                    result: pushed.val,
                                },
                            ),
                            pushed,
                        },
                    )
                } else {
                    &&& pushed.val == start
                    &&& final(self).log@ == old(self).log@.push(
                        Event::Reduce { rule: rule@, call: None, pushed },
                    )
                }
            }),
    {
        let mut retval: i64 = 0;
        let ghost a0 = self.active_rules@;
        let ghost c0 = self.ctrl();
        if self.use_partials {
            match self.active_rules.remove(&rule_id) {
                Some(mut st) => {
                    if st.len() > 0 {
                        match st.pop() {
                            Some(top) => {
                                retval = top.retval;
                            },
                            None => {},
                        }
                    }
                    self.active_rules.insert(rule_id, st);
                },
                None => {},
            }
        }
        proof {
            if self.use_partials && a0.contains_key(rule_id) && a0[rule_id]@.len() > 0 {
                assert(marks(a0[rule_id]@.drop_last()) =~= marks(a0[rule_id]@).drop_last());
            }
            assert(self.ctrl().active =~= crate::machine::drained(self.env(), c0, rule_id));
            lemma_drain_keeps_handles(self.env(), c0, rule_id);
            if self.use_partials && top_of(old(self).active(), rule_id) is Some {
                assert(self.active() =~= old(self).active().insert(rule_id, old(self).active()[rule_id].drop_last()));
            } else {
                assert(self.active() =~= old(self).active());
            }
        }
        let ghost sym0 = self.symbol@;
        let ghost st0 = self.state@;
        let ghost a1 = self.active_rules@;
        let n = self.symbol.len();
        let mut args: Vec<Symbol> = Vec::new();
        let mut i: usize = 0;
        while i < num_rhs
            invariant
                i <= num_rhs,
                num_rhs <= n,
                n == sym0.len(),
                st0.len() == n + 1,
                args@ == sym0.subrange(n - i, n as int),
                self.symbol@ == sym0.subrange(0, n - i),
                self.state@ == st0.subrange(0, st0.len() - i),
                self.same_setup(*old(self)),
                self.error == old(self).error,
                self.lookahead == old(self).lookahead,
                self.lookahead_index == old(self).lookahead_index,
                self.next_input_index == old(self).next_input_index,
                self.cur_rule_handle == old(self).cur_rule_handle,
                self.active_rules@ == a1,
                self.log == old(self).log,
            decreases num_rhs - i,
        {
            match self.symbol.pop() {
                Some(sym) => args.insert(0, sym),
                None => {},
            }
            self.state.pop();
            i = i + 1;
            proof {
                assert(args@ =~= sym0.subrange(n - i, n as int));
                assert(self.symbol@ =~= sym0.subrange(0, n - i));
                assert(self.state@ =~= st0.subrange(0, st0.len() - i));
            }
        }
        let ghost a = args@;
        let ghost av = args;
        let ghost start = retval;
        let ghost call: Option<Invocation> = None;
        match self.semantics.get(&rule_id) {
            Some(f) => {
                retval = f(args, true, retval);
                proof {
                    assert(av@ == a);
                    call = Some(
                        Invocation { sem: rule_id, args: a, finished: true, retval: start, result: retval },
                    );
                }
            },
            None => {},
        }
        let pushed = Symbol { is_term: false, id: lhs_id, val: retval, strval: None };
        let ghost p = pushed;
        self.symbol.push(pushed);
        self.log = Ghost(self.log@.push(Event::Reduce { rule: rule@, call, pushed: p }));
    }

    /// A parse, a `reset` and a second parse on the same input end as one
    /// parse does: `parse` and `reset` keep the tables, input, callbacks and
    /// flags, and the outcome of a parse depends on those alone.
    pub proof fn lemma_reset_idempotent(first: Self, after_parse: Self, after_reset: Self)
        requires
            after_parse.same_setup(first),
            after_reset.same_setup(after_parse),
        ensures
            outcome(after_reset.env()) == outcome(first.env()),
            accepts(after_reset.env()) == accepts(first.env()),
    {
    }

    /// Without partial actions and with callbacks that return one result for
    /// one set of arguments, what an accepted parse does depends on the
    /// setup alone: two accepted parses of the same tables, input and
    /// callbacks (a parse after `reset` and a fresh one, say) make the same
    /// calls and end with the same symbol stack.
    pub proof fn lemma_parse_determined(a: Self, b: Self)
        requires
            a.env() == b.env(),
            a.semantics() == b.semantics(),
            !a.partials(),
            deterministic(a.semantics()),
            accepted_trace(a.env(), a.semantics(), a.input(), a.log(), a.symbols()),
            accepted_trace(b.env(), b.semantics(), b.input(), b.log(), b.symbols()),
            a.input() == b.input(),
        ensures
            a.log() == b.log(),
            a.symbols() == b.symbols(),
    {
        lemma_logs_equal(a.env(), a.semantics(), a.input(), a.log(), b.log());
    }

    /// Records why the parse stopped and reports failure.
    fn fail(&mut self, e: ParseError) -> (r: bool)
        ensures
            !r,
            final(self).error == Some(e),
            final(self).same_setup(*old(self)),
            final(self).log@ == old(self).log@,
            final(self).state@ == old(self).state@,
            final(self).symbol@ == old(self).symbol@,
            old(self).engine_ok() ==> final(self).engine_ok(),
            old(self).lookahead == final(self).lookahead,
            old(self).next_input_index == final(self).next_input_index,
    {
        self.error = Some(e);
        false
    }

    /// The shift path of one iteration: the partial action before the
    /// shift, the push of `new_state` and of the lookahead, the next lookahead.
    fn shift(&mut self, top_state: usize, new_state: usize) -> (r: Result<(), ParseError>)
        requires
            old(self).running(),
            old(self).cur_rule_handle < MAX_STEPS,
            top_state == old(self).state@.last(),
            new_state < old(self).tables.num_states(),
            log_ok(old(self).env(), old(self).log@),
            old(self).traced(),
        ensures
            final(self).same_setup(*old(self)),
            final(self).error == old(self).error,
            log_ok(old(self).env(), final(self).log@),
            final(self).calls_bound(),
            final(self).engine_ok(),
            args_ok(final(self).tables, final(self).input@, final(self).log@),
            r is Ok ==> final(self).traced(),
            final(self).cur_rule_handle <= old(self).cur_rule_handle + 1,
            r is Ok ==> moves(final(self).log@) == moves(old(self).log@).push(Move::Shifted),
            match crate::machine::shift_step(old(self).env(), old(self).ctrl(), top_state, new_state) {
                Step::Next(c2) => r is Ok && final(self).running() && final(self).ctrl() == c2,
                Step::Stop(o) => r is Err && o == Outcome::Failed(r->Err_0),
            },
    {
        let ghost env = self.env();
        let la = self.lookahead_index;
        let err = self.tables.err;
        if self.use_partials {
            let partial_idx = self.tables.partials_rule_term[top_state][la];
            if partial_idx != err {
                match self.get_semantic_table_id(partial_idx) {
                    None => {
                        return Err(ParseError::InvalidTable);
                    },
                    Some(partial_id) => {
                        let partial_len = self.tables.partials_matchlen_term[top_state][la];
                        let ghost log1 = self.log@;
                        let res = self.apply_partial_rule(partial_id, partial_len, true);
                        proof {
                            lemma_partials_keep_log(env, log1, self.log@, partial_id);
                            lemma_replay_partials(self.tables, self.input@, self.log@, log1, partial_id);
                            lemma_moves_partials(self.log@, log1, partial_id);
                            if res is Ok {
                                lemma_args_partials(self.tables, self.input@, self.log@, log1, partial_id, partial_len as int);
                            }
                            assert forall|i: int| 0 <= i < self.log@.len() implies event_bound(self.semantics@, #[trigger] self.log@[i]) by {
                                if i < log1.len() {
                                    assert(self.log@[i] == self.log@.subrange(0, log1.len() as int)[i]);
                                }
                            }
                        }
                        match res {
                            Err(e) => {
                                return Err(e);
                            },
                            Ok(()) => {},
                        }
                    },
                }
            }
        }
        let ghost c1 = self.ctrl();
        let ghost log2 = self.log@;
        self.state.push(new_state);
        match self.push_lookahead() {
            Err(e) => {
                return Err(e);
            },
            Ok(()) => {},
        }
        proof {
            lemma_args_push(self.tables, self.input@, self.log@, Event::Shift);
        }
        self.log = Ghost(self.log@.push(Event::Shift));
        proof {
            assert(self.log@.drop_last() =~= log2);
            assert forall|i: int| 0 <= i < self.log@.len() implies event_bound(self.semantics@, #[trigger] self.log@[i]) by {
                if i < log2.len() {
                    assert(self.log@[i] == log2[i]);
                }
            }
            assert(self.ctrl() == Ctrl {
                states: c1.states.push(new_state),
                pos: c1.pos + 1,
                la: self.lookahead_index,
                ..c1
            });
            assert forall|i: int| 0 <= i < self.log@.len() implies reduction_pushes_lhs(
                env.tables,
                #[trigger] self.log@[i],
            ) by {
                if i < log2.len() {
                    assert(self.log@[i] == log2[i]);
                }
            }
        }
        Ok(())
    }

    /// The reduce path of one iteration by rule `rule_index`: the
    /// reduction, the partial action before the jump, and the jump.
    fn reduce(&mut self, rule_index: usize) -> (r: Result<(), ParseError>)
        requires
            old(self).running(),
            old(self).cur_rule_handle < MAX_STEPS,
            rule_index < old(self).tables.num_rules(),
            log_ok(old(self).env(), old(self).log@),
            old(self).traced(),
        ensures
            final(self).same_setup(*old(self)),
            final(self).error == old(self).error,
            log_ok(old(self).env(), final(self).log@),
            final(self).calls_bound(),
            final(self).engine_ok(),
            args_ok(final(self).tables, final(self).input@, final(self).log@),
            r is Ok ==> final(self).traced(),
            final(self).cur_rule_handle <= old(self).cur_rule_handle + 1,
            r is Ok ==> moves(final(self).log@) == moves(old(self).log@).push(Move::Reduced(rule_index)),
            match crate::machine::reduce_step(old(self).env(), old(self).ctrl(), rule_index) {
                Step::Next(c2) => r is Ok && final(self).running() && final(self).ctrl() == c2,
                Step::Stop(o) => r is Err && o == Outcome::Failed(r->Err_0),
            },
    {
        let ghost env = self.env();
        let err = self.tables.err;
        let num_syms = self.tables.num_rhs_syms[rule_index];
        let lhs_index = self.tables.lhs_idx[rule_index];
        let rule_id = match self.get_semantic_table_id(rule_index) {
            None => {
                return Err(ParseError::InvalidTable);
            },
            Some(id) => id,
        };
        let lhs_id = match self.get_nonterm_table_id(lhs_index) {
            None => {
                return Err(ParseError::InvalidTable);
            },
            Some(id) => id,
        };
        if num_syms >= self.state.len() {
            return Err(ParseError::InvalidTable);
        }
        let ghost log0 = self.log@;
        let ghost sym0 = self.symbol@;
        self.apply_rule(rule_id, num_syms, lhs_id, Ghost(rule_index));
        proof {
            assert(self.log@.drop_last() =~= log0);
            assert(self.log@ == log0.push(self.log@.last()));
            lemma_args_push(self.tables, self.input@, log0, self.log@.last());
            assert forall|i: int| 0 <= i < self.log@.len() implies event_bound(self.semantics@, #[trigger] self.log@[i]) by {
                if i < log0.len() {
                    assert(self.log@[i] == log0[i]);
                }
            }
            assert forall|i: int| 0 <= i < self.log@.len() implies reduction_pushes_lhs(
                env.tables,
                #[trigger] self.log@[i],
            ) by {
                if i < log0.len() {
                    assert(self.log@[i] == log0[i]);
                }
            }
            if !env.partials {
                assert forall|i: int| 0 <= i < self.log@.len() implies called_once_per_reduction(
                    env.tables,
                    env.sems,
                    #[trigger] self.log@[i],
                ) by {
                    if i < log0.len() {
                        assert(self.log@[i] == log0[i]);
                    }
                }
            }
        }
        let new_top_state = self.state[self.state.len() - 1];
        if self.use_partials {
            let partial_idx = self.tables.partials_rule_nonterm[new_top_state][lhs_index];
            if partial_idx != err {
                match self.get_semantic_table_id(partial_idx) {
                    None => {
                        return Err(ParseError::InvalidTable);
                    },
                    Some(partial_id) => {
                        let partial_len = self.tables.partials_matchlen_nonterm[new_top_state][lhs_index];
                        let ghost log1 = self.log@;
                        let res = self.apply_partial_rule(partial_id, partial_len, false);
                        proof {
                            lemma_partials_keep_log(env, log1, self.log@, partial_id);
                            lemma_replay_partials(self.tables, self.input@, self.log@, log1, partial_id);
                            lemma_moves_partials(self.log@, log1, partial_id);
                            if res is Ok {
                                lemma_args_partials(self.tables, self.input@, self.log@, log1, partial_id, partial_len as int);
                            }
                            assert forall|i: int| 0 <= i < self.log@.len() implies event_bound(self.semantics@, #[trigger] self.log@[i]) by {
                                if i < log1.len() {
                                    assert(self.log@[i] == self.log@.subrange(0, log1.len() as int)[i]);
                                }
                            }
                        }
                        match res {
                            Err(e) => {
                                return Err(e);
                            },
                            Ok(()) => {},
                        }
                    },
                }
            }
        }
        let jump_state = self.tables.jump[new_top_state][lhs_index];
        if jump_state == err {
            return Err(ParseError::InvalidTable);
        }
        self.state.push(jump_state);
        Ok(())
    }

    /// Parses the input from a reset state. Returns whether it was accepted;
    /// on failure `get_error` says why.
    pub fn parse(&mut self) -> (r: bool)
        requires
            old(self).settled(),
        ensures
            final(self).settled(),
            final(self).engine_ok(),
            final(self).same_setup(*old(self)),
            r == accepts(old(self).env()),
            final(self).last_error() == error_of(outcome(old(self).env())),
            r ==> final(self).inv(),
            r ==> final(self).states().len() == final(self).symbols().len() + 1,
            r ==> final(self).engine_ok() && final(self).lookahead() is Some && final(self).ctrl().pos
                <= final(self).input().len(),
            log_ok(old(self).env(), final(self).log()),
            forall|i: int|
                0 <= i < final(self).log().len() ==> event_bound(
                    final(self).semantics(),
                    #[trigger] final(self).log()[i],
                ),
            args_ok(final(self).tables(), final(self).input(), final(self).log()),
            r ==> moves(final(self).log()) == moves_of(old(self).env()),
            r && !old(self).partials() ==> accepted_trace(
                old(self).env(),
                final(self).semantics(),
                final(self).input(),
                final(self).log(),
                final(self).symbols(),
            ),
            (r || final(self).last_error() matches Some(ParseError::Conflict { .. })
                || final(self).last_error() matches Some(ParseError::NoAction { .. }))
                ==> final(self).symbols() == replay(
                final(self).tables(),
                final(self).input(),
                final(self).log(),
            ).0,
    {
        self.reset();
        self.error = None;
        let ghost env = self.env();
        proof {
            reveal(args_ok);
        }
        match self.next_lookahead() {
            Err(e) => {
                return self.fail(e);
            },
            Ok(()) => {},
        }
        proof {
            assert(self.ctrl() == crate::machine::initial(env, self.lookahead_index)) by {
                assert(self.ctrl().active =~= Map::empty());
            }
            assert(self.symbol@ =~= replay(self.tables, self.input@, self.log@).0);
        }
        let mut fuel: u64 = MAX_STEPS;
        while fuel > 0
            invariant
                self.running(),
                self.same_setup(*old(self)),
                env == self.env(),
                self.error is None,
                self.cur_rule_handle + fuel <= MAX_STEPS,
                run(env, self.ctrl(), fuel as nat) == outcome(env),
                log_ok(env, self.log@),
                self.traced(),
                moves(self.log@) + run_moves(env, self.ctrl(), fuel as nat) == moves_of(env),
            decreases fuel,
        {
            let ghost c = self.ctrl();
            let top_state = self.state[self.state.len() - 1];
            let la = self.lookahead_index;
            let err = self.tables.err;
            let new_state = self.tables.shift[top_state][la];
            let rule_index = self.tables.reduce[top_state][la];
            if new_state == err && rule_index == err {
                return self.fail(ParseError::NoAction { state: top_state, lookahead: la });
            } else if new_state != err && rule_index != err {
                return self.fail(ParseError::Conflict { state: top_state, lookahead: la });
            } else if rule_index == self.tables.acc {
                return true;
            }
            let res = if new_state != err {
                self.shift(top_state, new_state)
            } else {
                self.reduce(rule_index)
            };
            match res {
                Err(e) => {
                    return self.fail(e);
                },
                Ok(()) => {},
            }
            proof {
                assert(step(env, c) == Step::Next(self.ctrl()));
            }
            fuel = fuel - 1;
        }
        self.fail(ParseError::StepLimit)
    }
}

impl<F: Fn(Vec<Symbol>, bool, i64) -> i64 + Copy> Parsable<F> for Parser<F> {
    open spec fn ready(&self) -> bool {
        self.settled()
    }

    open spec fn end_id(&self) -> usize {
        self.tables().end
    }

    open spec fn accepts_input(&self) -> bool {
        accepts(self.env())
    }

    open spec fn symbol_stack(&self) -> Seq<Symbol> {
        self.symbols()
    }

    open spec fn input_seq(&self) -> Seq<Symbol> {
        self.input()
    }

    open spec fn semantic_map(&self) -> Map<usize, F> {
        self.semantics()
    }

    open spec fn partials_on(&self) -> bool {
        self.partials()
    }

    open spec fn debug_on(&self) -> bool {
        self.debug()
    }

    open spec fn state_stack(&self) -> Seq<usize> {
        self.states()
    }

    open spec fn start_state(&self) -> usize {
        self.tables().start
    }

    fn set_semantics(&mut self, sema: &[(usize, F)]) {
        Parser::<F>::set_semantics(self, sema)
    }

    fn set_input(&mut self, input: &[Symbol]) {
        Parser::<F>::set_input(self, input)
    }

    fn set_debug(&mut self, debug: bool) {
        Parser::<F>::set_debug(self, debug)
    }

    fn set_partials(&mut self, use_partials: bool) {
        Parser::<F>::set_partials(self, use_partials)
    }

    fn get_end_id(&self) -> usize {
        Parser::<F>::get_end_id(self)
    }

    fn get_top_symbol(&self) -> Option<&Symbol> {
        Parser::<F>::get_top_symbol(self)
    }

    fn reset(&mut self) {
        Parser::<F>::reset(self)
    }

    fn parse(&mut self) -> bool {
        Parser::<F>::parse(self)
    }
}

} // verus!
