use vstd::prelude::*;

verus! {

/// A terminal read from the input or a nonterminal produced by a reduction.
#[derive(Clone, Debug, Default)]
pub struct Symbol {
    pub is_term: bool,
    pub id: usize,
    pub val: i64,
    pub strval: Option<String>,
}

/// Bookkeeping for one occurrence of a rule that is being matched.
#[derive(Clone, Copy, Debug, Default, PartialEq, Eq)]
pub struct ActiveRule {
    /// Right-hand-side symbols already seen, the incoming lookahead included.
    pub seen_tokens: usize,
    /// Number naming this occurrence within one parse.
    pub handle: isize,
    /// Accumulator threaded through the partial invocations.
    pub retval: i64,
}

impl ActiveRule {
    /// An occurrence that has seen nothing and has no handle yet.
    pub fn new() -> (r: ActiveRule)
        ensures
            r.seen_tokens == 0,
            r.handle == -1,
            r.retval == 0,
    {
        let rule: ActiveRule = ActiveRule { seen_tokens: 0, handle: -1, retval: 0 };
        rule
    }
}

impl Symbol {
    /// A copy of the symbol, field by field.
    pub fn duplicate(&self) -> (r: Symbol)
        ensures
            r == *self,
    {
        let strval = match &self.strval {
            Some(s) => Some(s.clone()),
            None => None,
        };
        Symbol { is_term: self.is_term, id: self.id, val: self.val, strval }
    }
}

/// The callbacks bound by a list of `(semantic id, callback)` pairs; a later
/// pair overrides an earlier one with the same id.
pub open spec fn bindings<F>(s: Seq<(usize, F)>) -> Map<usize, F>
    decreases s.len(),
{
    if s.len() == 0 {
        Map::empty()
    } else {
        bindings(s.drop_last()).insert(s.last().0, s.last().1)
    }
}

/// The operations of a parser whose semantic callbacks have type `F`.
pub trait Parsable<F: Fn(Vec<Symbol>, bool, i64) -> i64 + Copy> {
    /// The parser can take any of the operations below.
    spec fn ready(&self) -> bool;

    /// The id of the end-of-input terminal.
    spec fn end_id(&self) -> usize;

    /// Whether a parse from this state accepts the input.
    spec fn accepts_input(&self) -> bool;

    /// The symbol stack.
    spec fn symbol_stack(&self) -> Seq<Symbol>;

    /// The installed input symbols.
    spec fn input_seq(&self) -> Seq<Symbol>;

    /// The bound callbacks, by semantic id.
    spec fn semantic_map(&self) -> Map<usize, F>;

    /// Whether partial semantic actions run.
    spec fn partials_on(&self) -> bool;

    /// Whether diagnostic tracing is on.
    spec fn debug_on(&self) -> bool;

    /// The state stack.
    spec fn state_stack(&self) -> Seq<usize>;

    /// The state a parse starts in.
    spec fn start_state(&self) -> usize;


    /// Binds the callbacks, replacing those bound before.
    fn set_semantics(&mut self, sema: &[(usize, F)])
        requires
            old(self).ready(),
            forall|i: int, a: Vec<Symbol>, b: bool, v: i64|
                0 <= i < sema@.len() ==> #[trigger] call_requires(sema@[i].1, (a, b, v)),
        ensures
            final(self).ready(),
            final(self).semantic_map() == bindings(sema@),
            final(self).input_seq() == old(self).input_seq(),
            final(self).partials_on() == old(self).partials_on(),
            final(self).debug_on() == old(self).debug_on(),
            final(self).start_state() == old(self).start_state(),
            final(self).end_id() == old(self).end_id(),
    ;

    /// Installs the input symbols.
    fn set_input(&mut self, input: &[Symbol])
        requires
            old(self).ready(),
        ensures
            final(self).ready(),
            final(self).input_seq() == input@,
            final(self).semantic_map() == old(self).semantic_map(),
            final(self).partials_on() == old(self).partials_on(),
            final(self).debug_on() == old(self).debug_on(),
            final(self).start_state() == old(self).start_state(),
            final(self).end_id() == old(self).end_id(),
    ;

    /// Turns diagnostic tracing on or off.
    fn set_debug(&mut self, debug: bool)
        requires
            old(self).ready(),
        ensures
            final(self).ready(),
            final(self).debug_on() == debug,
            final(self).input_seq() == old(self).input_seq(),
            final(self).semantic_map() == old(self).semantic_map(),
            final(self).partials_on() == old(self).partials_on(),
            final(self).start_state() == old(self).start_state(),
            final(self).end_id() == old(self).end_id(),
    ;

    /// Turns the invocation of partial semantic actions on or off.
    fn set_partials(&mut self, use_partials: bool)
        requires
            old(self).ready(),
        ensures
            final(self).ready(),
            final(self).partials_on() == use_partials,
            final(self).input_seq() == old(self).input_seq(),
            final(self).semantic_map() == old(self).semantic_map(),
            final(self).debug_on() == old(self).debug_on(),
            final(self).start_state() == old(self).start_state(),
            final(self).end_id() == old(self).end_id(),
    ;

    /// The id of the end-of-input terminal.
    fn get_end_id(&self) -> (r: usize)
        ensures
            r == self.end_id(),
    ;

    /// The top of the symbol stack.
    fn get_top_symbol(&self) -> (r: Option<&Symbol>)
        ensures
            self.symbol_stack().len() == 0 ==> r is None,
            self.symbol_stack().len() > 0 ==> r == Some(&self.symbol_stack().last()),
    ;

    /// Returns to the state right after construction.
    fn reset(&mut self)
        requires
            old(self).ready(),
        ensures
            final(self).ready(),
            final(self).symbol_stack().len() == 0,
            final(self).state_stack() == seq![final(self).start_state()],
            final(self).input_seq() == old(self).input_seq(),
            final(self).semantic_map() == old(self).semantic_map(),
            final(self).partials_on() == old(self).partials_on(),
            final(self).debug_on() == old(self).debug_on(),
            final(self).start_state() == old(self).start_state(),
            final(self).end_id() == old(self).end_id(),
            final(self).accepts_input() == old(self).accepts_input(),
    ;

    /// Parses the input; returns whether it was accepted.
    fn parse(&mut self) -> (r: bool)
        requires
            old(self).ready(),
        ensures
            final(self).ready(),
            r == old(self).accepts_input(),
            final(self).accepts_input() == old(self).accepts_input(),
            final(self).input_seq() == old(self).input_seq(),
            final(self).semantic_map() == old(self).semantic_map(),
            final(self).partials_on() == old(self).partials_on(),
            final(self).debug_on() == old(self).debug_on(),
            final(self).start_state() == old(self).start_state(),
            final(self).end_id() == old(self).end_id(),
    ;
}

} // verus!
