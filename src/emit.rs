use vstd::prelude::*;
use vstd::string::StringExecFns;
use crate::generator::{Column, JumpCase, PartialCall, ReduceCase, ShiftCase, StatePlan};

verus! {

/// The parser source up to the active-rule fields.
pub const PART_A: &'static str = r#"/*
 * Recursive-ascent parser generated from LALR(1) tables.
 */

use std::collections::HashMap;
use std::mem::take;

use lalr1::common::{ActiveRule, Parsable, Symbol};

pub type TSemantics = fn(Vec<Symbol>, bool, i64) -> i64;

pub struct Parser
{
	symbol : Vec<Symbol>,

	dist_to_jump : usize,

	failed : bool,
	accepted : bool,

	"#;

/// The parser source between the active-rule fields and their initialisation.
pub const PART_B: &'static str = r#"

	lookahead : Option<Symbol>,

	input : Vec<Symbol>,
	next_input_index : usize,

	semantics : HashMap<usize, TSemantics>,

	use_partials : bool,
	end : usize,
}

impl Parser
{
	pub fn new(end : usize) -> Parser
	{
		let mut parser : Parser = Parser
		{
			symbol : Vec::<Symbol>::new(),
			dist_to_jump : 0,

			failed : false,
			accepted : false,

			"#;

/// The parser source between the initialisation and the drain of a reduction.
pub const PART_C: &'static str = r#"

			lookahead : None,

			semantics : HashMap::<usize, TSemantics>::new(),
			input : Vec::<Symbol>::new(),
			next_input_index : 0,

			use_partials : true,
			end : end,
		};

		parser.reset();
		parser
	}

	fn next_lookahead(&mut self)
	{
		self.lookahead = Some(self.input[self.next_input_index].clone());
		self.next_input_index += 1;
	}

	fn push_lookahead(&mut self)
	{
		self.symbol.push(take(&mut self.lookahead).unwrap());
		self.next_lookahead();
	}

	fn apply_rule(&mut self, rule_id : usize, num_rhs : usize, lhs_id : usize)
	{
		let mut retval : i64 = 0;

		"#;

/// The parser source between the drain and the partial-rule method.
pub const PART_D: &'static str = r#"

		self.dist_to_jump = num_rhs;

		let args : Vec<Symbol> = self.symbol.split_off(self.symbol.len() - num_rhs);

		if let Some(semantics) = self.semantics.get(&rule_id)
		{
			retval = semantics(args, true, retval);
		}

		self.symbol.push(Symbol{
			is_term : false,
			id : lhs_id,
			val : retval,
			strval : None,
		});
	}

	"#;

/// The parser source between the partial-rule method and the state procedures.
pub const PART_E: &'static str = r#"

	fn error_term(&mut self, state_idx : usize, sym_id : usize)
	{
		println!("Error: Invalid terminal transition {sym_id} in state {state_idx}.");
		self.failed = true;
	}

	fn error_nonterm(&mut self, state_idx : usize, sym_id : usize)
	{
		println!("Error: Invalid non-terminal transition {sym_id} in state {state_idx}.");
		self.failed = true;
	}

	#[allow(dead_code)]
	fn error_semantics(&mut self, rule_id : usize)
	{
		println!("Semantic rule {0} is not defined.", rule_id);
		self.failed = true;
	}


"#;

/// The parser source between the state procedures and the reset of the active rules.
pub const PART_F: &'static str = r#"
}

impl Parsable<TSemantics> for Parser
{
	fn set_debug(&mut self, _debug : bool)
	{
	}

	fn set_partials(&mut self, use_partials : bool)
	{
		self.use_partials = use_partials;
	}

	fn get_end_id(&self) -> usize
	{
		self.end
	}

	fn set_input(&mut self, input: &[Symbol])
	{
		self.input = (*input).to_vec();
	}

	fn set_semantics(&mut self, sema : &[(usize, TSemantics)])
	{
		self.semantics.clear();

		for entry in sema
		{
			self.semantics.insert(entry.0, entry.1);
		}
	}

	fn get_top_symbol(&self) -> Option<&Symbol>
	{
		self.symbol.last()
	}

	fn reset(&mut self)
	{
		self.next_input_index = 0;
		self.lookahead = None;
		self.symbol.clear();
		self.dist_to_jump = 0;
		"#;

/// The parser source between that reset and the start state.
pub const PART_G: &'static str = r#"

		self.failed = false;
		self.accepted = false;
	}

	fn parse(&mut self) -> bool
	{
		self.reset();
		self.next_lookahead();
		self.state_"#;

/// The parser source after the start state.
pub const PART_H: &'static str = r#"();

		self.accepted
	}
}
"#;

/// The partial-rule method of the generated parser.
pub const APPLY_PARTIAL_RULE: &'static str = r#"fn apply_partial_rule(&mut self, rule_id : usize, arg_len : usize, before_shift : bool)
	{
		let rule_len = if before_shift { arg_len + 1 } else { arg_len };
		let mut skip : bool = false;
		let mut insert_new_active_rule : bool = false;
		let mut seen_tokens_old : isize = -1;

		let rulestack = self.active_rules.entry(rule_id).or_insert_with(Vec::new);
		if let Some(active_rule) = rulestack.last_mut()
		{
			seen_tokens_old = active_rule.seen_tokens as isize;
			if before_shift
			{
				if active_rule.seen_tokens < rule_len
				{
					active_rule.seen_tokens = rule_len;
				}
				else
				{
					insert_new_active_rule = true;
				}
			}
			else if active_rule.seen_tokens == rule_len
			{
				skip = true;
			}
			else
			{
				active_rule.seen_tokens = rule_len;
			}
		}
		else
		{
			insert_new_active_rule = true;
		}

		if insert_new_active_rule
		{
			seen_tokens_old = -1;
			let mut active_rule = ActiveRule::new();
			active_rule.seen_tokens = rule_len;
			active_rule.handle = self.cur_rule_handle;
			self.cur_rule_handle += 1;
			rulestack.push(active_rule);
		}

		if skip
		{
			return;
		}

		let semantics : TSemantics = match self.semantics.get(&rule_id)
		{
			Some(f) => *f,
			None =>
			{
				self.error_semantics(rule_id);
				return;
			}
		};

		let mut args : Vec<Symbol> = self.symbol[self.symbol.len() - arg_len ..].to_vec();
		let active_rule = self.active_rules.get_mut(&rule_id).unwrap().last_mut().unwrap();

		if !before_shift || seen_tokens_old < (rule_len as isize - 1)
		{
			active_rule.retval = semantics(args.clone(), false, active_rule.retval);
		}

		if before_shift
		{
			args.push(self.lookahead.clone().unwrap());
			active_rule.retval = semantics(args, false, active_rule.retval);
		}
	}"#;

/// The drain of the active rule in a reduction of the generated parser.
pub const APPLY_RULE_PARTIALS: &'static str = r#"if self.use_partials
		{
			if let Some(rulestack) = self.active_rules.get_mut(&rule_id)
			{
				if let Some(active_rule) = rulestack.pop()
				{
					retval = active_rule.retval;
				}
			}
		}"#;

/// The active-rule fields of the generated parser.
pub const ACTIVE_RULES_DECL: &'static str = r#"active_rules : HashMap<usize, Vec<ActiveRule>>,
	cur_rule_handle : isize,"#;

/// The initialisation of the active-rule fields.
pub const ACTIVE_RULES_NEW: &'static str = r#"active_rules : HashMap::<usize, Vec<ActiveRule>>::new(),
			cur_rule_handle : 0,"#;

/// The reset of the active-rule fields.
pub const ACTIVE_RULES_RESET: &'static str = r#"self.active_rules.clear();
		self.cur_rule_handle = 0;"#;

/// The decimal digit `d`.
pub open spec fn digit_text(d: nat) -> Seq<char> {
    if d == 0 { "0"@ } else if d == 1 { "1"@ } else if d == 2 { "2"@ } else if d == 3 { "3"@ }
    else if d == 4 { "4"@ } else if d == 5 { "5"@ } else if d == 6 { "6"@ } else if d == 7 { "7"@ }
    else if d == 8 { "8"@ } else { "9"@ }
}

/// `n` in decimal.
pub open spec fn decimal(n: nat) -> Seq<char>
    decreases n,
{
    if n < 10 {
        digit_text(n)
    } else {
        decimal(n / 10) + digit_text(n % 10)
    }
}

/// `b` as a Rust literal.
pub open spec fn bool_text(b: bool) -> Seq<char> {
    if b { "true"@ } else { "false"@ }
}

/// `s` when `b` holds, else nothing.
pub open spec fn when(b: bool, s: Seq<char>) -> Seq<char> {
    if b { s } else { Seq::empty() }
}

/// The call of a partial action, indented by `indent`.
pub open spec fn partial_text(p: Option<PartialCall>, before_shift: bool, indent: Seq<char>) -> Seq<char> {
    match p {
        Some(c) => indent + "if self.use_partials\n"@ + indent + "{\n"@ + indent
            + "\tself.apply_partial_rule("@ + decimal(c.rule_id as nat) + ", "@ + decimal(c.len as nat)
            + ", "@ + bool_text(before_shift) + ");\n"@ + indent + "}\n"@,
        None => Seq::empty(),
    }
}

/// The case of a shifted terminal.
pub open spec fn shift_text(c: ShiftCase) -> Seq<char> {
    "\t\t\t"@ + decimal(c.term.id as nat) + " => // "@ + c.term.label@ + "\n\t\t\t{\n\t\t\t\tnext_state = Some(Parser::state_"@
        + decimal(c.next_state as nat) + ");\n"@ + partial_text(c.partial, true, "\t\t\t\t"@) + "\t\t\t},\n"@
}

/// The cases of the shifted terminals.
pub open spec fn shifts_text(cs: Seq<ShiftCase>) -> Seq<char>
    decreases cs.len(),
{
    if cs.len() == 0 { Seq::empty() } else { shifts_text(cs.drop_last()) + shift_text(cs.last()) }
}

/// The ids of the columns, separated by ` | `.
pub open spec fn ids_text(cs: Seq<Column>) -> Seq<char>
    decreases cs.len(),
{
    if cs.len() == 0 {
        Seq::empty()
    } else if cs.len() == 1 {
        decimal(cs[0].id as nat)
    } else {
        ids_text(cs.drop_last()) + " | "@ + decimal(cs.last().id as nat)
    }
}

/// The labels of the columns, separated by ` | `.
pub open spec fn labels_text(cs: Seq<Column>) -> Seq<char>
    decreases cs.len(),
{
    if cs.len() == 0 {
        Seq::empty()
    } else if cs.len() == 1 {
        cs[0].label@
    } else {
        labels_text(cs.drop_last()) + " | "@ + cs.last().label@
    }
}

/// The case of the terminals that reduce by one rule.
pub open spec fn reduce_text(g: ReduceCase) -> Seq<char> {
    "\t\t\t// "@ + labels_text(g.terms@) + "\n\t\t\t"@ + ids_text(g.terms@) + " => self.apply_rule("@
        + decimal(g.rule_id as nat) + ", "@ + decimal(g.num_rhs as nat) + ", "@ + decimal(g.lhs_id as nat)
        + "),\n"@
}

/// The cases of the reductions.
pub open spec fn reduces_text(gs: Seq<ReduceCase>) -> Seq<char>
    decreases gs.len(),
{
    if gs.len() == 0 { Seq::empty() } else { reduces_text(gs.drop_last()) + reduce_text(gs.last()) }
}

/// The case of the accepting terminals.
pub open spec fn accepts_text(cs: Seq<Column>) -> Seq<char> {
    when(
        cs.len() > 0,
        "\t\t\t// "@ + labels_text(cs) + "\n\t\t\t"@ + ids_text(cs) + " => self.accepted = true,\n"@,
    )
}

/// The case of a nonterminal jumped on.
pub open spec fn jump_text(j: JumpCase) -> Seq<char> {
    "\t\t\t\t"@ + decimal(j.nonterm.id as nat) + " => // "@ + j.nonterm.label@ + "\n\t\t\t\t{\n"@
        + partial_text(j.partial, false, "\t\t\t\t\t"@) + "\t\t\t\t\tself.state_"@ + decimal(j.next_state as nat)
        + "();\n\t\t\t\t},\n"@
}

/// The cases of the jumps.
pub open spec fn jumps_text(js: Seq<JumpCase>) -> Seq<char>
    decreases js.len(),
{
    if js.len() == 0 { Seq::empty() } else { jumps_text(js.drop_last()) + jump_text(js.last()) }
}

/// The opening of a state's procedure, up to the lookahead match.
pub open spec fn head_text(p: StatePlan) -> Seq<char> {
    "\tfn state_"@ + decimal(p.state as nat) + "(&mut self)\n\t{\n"@
        + when(p.has_shift, "\t\tlet mut next_state : Option<fn(&mut Parser)> = None;\n"@)
        + "\t\tlet sym_id : usize = self.lookahead.as_ref().unwrap().id;\n\t\tmatch sym_id\n\t\t{\n"@
}

/// The default case of the lookahead match and its end.
pub open spec fn default_text(p: StatePlan) -> Seq<char> {
    "\t\t\t_ => self.error_term("@ + decimal(p.state as nat) + ", sym_id),\n\t\t}\n"@
}

/// The call of the next state's procedure after a shift.
pub open spec fn shift_tail_text(p: StatePlan) -> Seq<char> {
    when(p.has_shift, "\t\tif next_state.is_some()\n\t\t{\n\t\t\tself.push_lookahead();\n\t\t\tnext_state.unwrap()(self);\n\t\t}\n"@)
}

/// The loop that jumps on reduced nonterminals.
pub open spec fn jump_loop_text(p: StatePlan) -> Seq<char> {
    when(
        p.has_jump,
        "\t\twhile self.dist_to_jump == 0 && self.symbol.len() > 0 && !self.accepted && !self.failed\n\t\t{\n\t\t\tlet top_sym : &Symbol = self.get_top_symbol().unwrap();\n\t\t\tif top_sym.is_term\n\t\t\t{\n\t\t\t\tbreak;\n\t\t\t}\n\t\t\tmatch top_sym.id\n\t\t\t{\n"@
            + jumps_text(p.jumps@) + "\t\t\t\t_ => self.error_nonterm("@ + decimal(p.state as nat)
            + ", top_sym.id),\n\t\t\t}\n\t\t}\n"@,
    )
}

/// The end of a state's procedure: one level closer to the jump.
pub open spec fn end_text(p: StatePlan, num_states: nat) -> Seq<char> {
    "\t\tif !self.accepted && !self.failed\n\t\t{\n\t\t\tself.dist_to_jump -= 1;\n\t\t}\n\t}\n"@
        + when(p.state as nat + 1 < num_states, "\n"@)
}

/// The procedure of one state: match the lookahead against the shift,
/// reduce and accept cases, shift into the next state's procedure, then
/// jump on reduced nonterminals until the reduction reaches an ancestor.
pub open spec fn state_text(p: StatePlan, num_states: nat) -> Seq<char> {
    head_text(p) + shifts_text(p.shifts@) + reduces_text(p.reduces@) + accepts_text(p.accepts@)
        + default_text(p) + shift_tail_text(p) + jump_loop_text(p) + end_text(p, num_states)
}

/// The procedures of the states, in order.
pub open spec fn states_text(ps: Seq<StatePlan>, num_states: nat) -> Seq<char>
    decreases ps.len(),
{
    if ps.len() == 0 { Seq::empty() } else { states_text(ps.drop_last(), num_states) + state_text(ps.last(), num_states) }
}

/// The whole recursive-ascent parser: its fixed parts, the partial-rule
/// parts when `gen_partials` is set, one procedure per state, and an
/// entry point that starts in state `start`.
pub open spec fn parser_text(ps: Seq<StatePlan>, start: nat, gen_partials: bool) -> Seq<char> {
    PART_A@ + when(gen_partials, ACTIVE_RULES_DECL@) + PART_B@ + when(gen_partials, ACTIVE_RULES_NEW@)
        + PART_C@ + when(gen_partials, APPLY_RULE_PARTIALS@) + PART_D@ + when(gen_partials, APPLY_PARTIAL_RULE@)
        + PART_E@ + states_text(ps, ps.len()) + PART_F@ + when(gen_partials, ACTIVE_RULES_RESET@) + PART_G@
        + decimal(start) + PART_H@
}

fn digit_str(d: usize) -> (r: &'static str)
    requires
        d < 10,
    ensures
        r@ == digit_text(d as nat),
{
    if d == 0 { "0" } else if d == 1 { "1" } else if d == 2 { "2" } else if d == 3 { "3" }
    else if d == 4 { "4" } else if d == 5 { "5" } else if d == 6 { "6" } else if d == 7 { "7" }
    else if d == 8 { "8" } else { "9" }
}

/// `n` written in decimal.
pub fn usize_text(n: usize) -> (r: String)
    ensures
        r@ == decimal(n as nat),
    decreases n,
{
    if n < 10 {
        String::from_str(digit_str(n))
    } else {
        let mut r = usize_text(n / 10);
        r.append(digit_str(n % 10));
        r
    }
}

/// Appends `n` in decimal.
fn append_usize(r: &mut String, n: usize)
    ensures
        final(r)@ == old(r)@ + decimal(n as nat),
{
    let d = usize_text(n);
    r.append(d.as_str());
}

/// Appends `s` when `b` holds.
fn append_when(r: &mut String, b: bool, s: &str)
    ensures
        final(r)@ == old(r)@ + when(b, s@),
{
    if b {
        r.append(s);
    } else {
        assert(old(r)@ + when(b, s@) =~= old(r)@);
    }
}

/// Appends the call of a partial action.
fn append_partial(r: &mut String, p: Option<PartialCall>, before_shift: bool, indent: &str)
    ensures
        final(r)@ == old(r)@ + partial_text(p, before_shift, indent@),
{
    match p {
        Some(c) => {
            r.append(indent);
            r.append("if self.use_partials\n");
            r.append(indent);
            r.append("{\n");
            r.append(indent);
            r.append("\tself.apply_partial_rule(");
            append_usize(r, c.rule_id);
            r.append(", ");
            append_usize(r, c.len);
            r.append(", ");
            if before_shift {
                r.append("true");
            } else {
                r.append("false");
            }
            r.append(");\n");
            r.append(indent);
            r.append("}\n");
            assert(r@ =~= old(r)@ + partial_text(p, before_shift, indent@));
        },
        None => {
            assert(r@ =~= old(r)@ + partial_text(p, before_shift, indent@));
        },
    }
}

/// Appends the ids of `cs`, separated by ` | `.
fn append_ids(r: &mut String, cs: &Vec<Column>)
    ensures
        final(r)@ == old(r)@ + ids_text(cs@),
{
    let mut i: usize = 0;
    while i < cs.len()
        invariant
            i <= cs@.len(),
            r@ == old(r)@ + ids_text(cs@.subrange(0, i as int)),
        decreases cs@.len() - i,
    {
        let ghost before = r@;
        if i > 0 {
            r.append(" | ");
        }
        append_usize(r, cs[i].id);
        proof {
            let sub = cs@.subrange(0, i + 1);
            assert(sub.drop_last() =~= cs@.subrange(0, i as int));
            if i == 0 {
                assert(ids_text(cs@.subrange(0, 0)) =~= Seq::empty());
            }
            assert(r@ =~= old(r)@ + ids_text(sub));
        }
        i = i + 1;
    }
    assert(cs@.subrange(0, cs@.len() as int) =~= cs@);
}

/// Appends the labels of `cs`, separated by ` | `.
fn append_labels(r: &mut String, cs: &Vec<Column>)
    ensures
        final(r)@ == old(r)@ + labels_text(cs@),
{
    let mut i: usize = 0;
    while i < cs.len()
        invariant
            i <= cs@.len(),
            r@ == old(r)@ + labels_text(cs@.subrange(0, i as int)),
        decreases cs@.len() - i,
    {
        if i > 0 {
            r.append(" | ");
        }
        r.append(cs[i].label.as_str());
        proof {
            let sub = cs@.subrange(0, i + 1);
            assert(sub.drop_last() =~= cs@.subrange(0, i as int));
            if i == 0 {
                assert(labels_text(cs@.subrange(0, 0)) =~= Seq::empty());
            }
            assert(r@ =~= old(r)@ + labels_text(sub));
        }
        i = i + 1;
    }
    assert(cs@.subrange(0, cs@.len() as int) =~= cs@);
}

/// Appends the shift cases.
fn append_shifts(r: &mut String, cs: &Vec<ShiftCase>)
    ensures
        final(r)@ == old(r)@ + shifts_text(cs@),
{
    let mut i: usize = 0;
    while i < cs.len()
        invariant
            i <= cs@.len(),
            r@ == old(r)@ + shifts_text(cs@.subrange(0, i as int)),
        decreases cs@.len() - i,
    {
        let ghost before = r@;
        let c = &cs[i];
        r.append("\t\t\t");
        append_usize(r, c.term.id);
        r.append(" => // ");
        r.append(c.term.label.as_str());
        r.append("\n\t\t\t{\n\t\t\t\tnext_state = Some(Parser::state_");
        append_usize(r, c.next_state);
        r.append(");\n");
        append_partial(r, c.partial, true, "\t\t\t\t");
        r.append("\t\t\t},\n");
        proof {
            assert(r@ =~= before + shift_text(*c));
            assert(cs@.subrange(0, i + 1).drop_last() =~= cs@.subrange(0, i as int));
            assert(r@ =~= old(r)@ + shifts_text(cs@.subrange(0, i + 1)));
        }
        i = i + 1;
    }
    assert(cs@.subrange(0, cs@.len() as int) =~= cs@);
}

/// Appends the reduce cases.
fn append_reduces(r: &mut String, gs: &Vec<ReduceCase>)
    ensures
        final(r)@ == old(r)@ + reduces_text(gs@),
{
    let mut i: usize = 0;
    while i < gs.len()
        invariant
            i <= gs@.len(),
            r@ == old(r)@ + reduces_text(gs@.subrange(0, i as int)),
        decreases gs@.len() - i,
    {
        let ghost before = r@;
        let g = &gs[i];
        r.append("\t\t\t// ");
        append_labels(r, &g.terms);
        r.append("\n\t\t\t");
        append_ids(r, &g.terms);
        r.append(" => self.apply_rule(");
        append_usize(r, g.rule_id);
        r.append(", ");
        append_usize(r, g.num_rhs);
        r.append(", ");
        append_usize(r, g.lhs_id);
        r.append("),\n");
        proof {
            assert(r@ =~= before + reduce_text(*g));
            assert(gs@.subrange(0, i + 1).drop_last() =~= gs@.subrange(0, i as int));
            assert(r@ =~= old(r)@ + reduces_text(gs@.subrange(0, i + 1)));
        }
        i = i + 1;
    }
    assert(gs@.subrange(0, gs@.len() as int) =~= gs@);
}

/// Appends the jump cases.
fn append_jumps(r: &mut String, js: &Vec<JumpCase>)
    ensures
        final(r)@ == old(r)@ + jumps_text(js@),
{
    let mut i: usize = 0;
    while i < js.len()
        invariant
            i <= js@.len(),
            r@ == old(r)@ + jumps_text(js@.subrange(0, i as int)),
        decreases js@.len() - i,
    {
        let ghost before = r@;
        let j = &js[i];
        r.append("\t\t\t\t");
        append_usize(r, j.nonterm.id);
        r.append(" => // ");
        r.append(j.nonterm.label.as_str());
        r.append("\n\t\t\t\t{\n");
        append_partial(r, j.partial, false, "\t\t\t\t\t");
        r.append("\t\t\t\t\tself.state_");
        append_usize(r, j.next_state);
        r.append("();\n\t\t\t\t},\n");
        proof {
            assert(r@ =~= before + jump_text(*j));
            assert(js@.subrange(0, i + 1).drop_last() =~= js@.subrange(0, i as int));
            assert(r@ =~= old(r)@ + jumps_text(js@.subrange(0, i + 1)));
        }
        i = i + 1;
    }
    assert(js@.subrange(0, js@.len() as int) =~= js@);
}

/// Appends the opening of the procedure of `p`.
fn append_head(r: &mut String, p: &StatePlan)
    ensures
        final(r)@ == old(r)@ + head_text(*p),
{
    r.append("\tfn state_");
    append_usize(r, p.state);
    r.append("(&mut self)\n\t{\n");
    append_when(r, p.has_shift, "\t\tlet mut next_state : Option<fn(&mut Parser)> = None;\n");
    r.append("\t\tlet sym_id : usize = self.lookahead.as_ref().unwrap().id;\n\t\tmatch sym_id\n\t\t{\n");
    assert(r@ =~= old(r)@ + head_text(*p));
}

/// Appends the case of the accepting terminals `cs`.
fn append_accepts(r: &mut String, cs: &Vec<Column>)
    ensures
        final(r)@ == old(r)@ + accepts_text(cs@),
{
    if cs.len() > 0 {
        r.append("\t\t\t// ");
        append_labels(r, cs);
        r.append("\n\t\t\t");
        append_ids(r, cs);
        r.append(" => self.accepted = true,\n");
    }
    assert(r@ =~= old(r)@ + accepts_text(cs@));
}

/// Appends the default case of the lookahead match.
fn append_default(r: &mut String, p: &StatePlan)
    ensures
        final(r)@ == old(r)@ + default_text(*p),
{
    r.append("\t\t\t_ => self.error_term(");
    append_usize(r, p.state);
    r.append(", sym_id),\n\t\t}\n");
    assert(r@ =~= old(r)@ + default_text(*p));
}

/// Appends the jump loop of the procedure of `p`.
fn append_jump_loop(r: &mut String, p: &StatePlan)
    ensures
        final(r)@ == old(r)@ + jump_loop_text(*p),
{
    if p.has_jump {
        r.append("\t\twhile self.dist_to_jump == 0 && self.symbol.len() > 0 && !self.accepted && !self.failed\n\t\t{\n\t\t\tlet top_sym : &Symbol = self.get_top_symbol().unwrap();\n\t\t\tif top_sym.is_term\n\t\t\t{\n\t\t\t\tbreak;\n\t\t\t}\n\t\t\tmatch top_sym.id\n\t\t\t{\n");
        append_jumps(r, &p.jumps);
        r.append("\t\t\t\t_ => self.error_nonterm(");
        append_usize(r, p.state);
        r.append(", top_sym.id),\n\t\t\t}\n\t\t}\n");
    }
    assert(r@ =~= old(r)@ + jump_loop_text(*p));
}

/// Appends the end of the procedure of `p`.
fn append_end(r: &mut String, p: &StatePlan, num_states: usize)
    ensures
        final(r)@ == old(r)@ + end_text(*p, num_states as nat),
{
    r.append("\t\tif !self.accepted && !self.failed\n\t\t{\n\t\t\tself.dist_to_jump -= 1;\n\t\t}\n\t}\n");
    let more = p.state < num_states && num_states - p.state > 1;
    append_when(r, more, "\n");
    assert(r@ =~= old(r)@ + end_text(*p, num_states as nat));
}

/// The procedure of the state that `p` plans.
pub fn state_code(p: &StatePlan, num_states: usize) -> (r: String)
    ensures
        r@ == state_text(*p, num_states as nat),
{
    let mut r = String::new();
    append_head(&mut r, p);
    assert(r@ =~= head_text(*p));
    append_shifts(&mut r, &p.shifts);
    append_reduces(&mut r, &p.reduces);
    append_accepts(&mut r, &p.accepts);
    append_default(&mut r, p);
    append_when(&mut r, p.has_shift, "\t\tif next_state.is_some()\n\t\t{\n\t\t\tself.push_lookahead();\n\t\t\tnext_state.unwrap()(self);\n\t\t}\n");
    append_jump_loop(&mut r, p);
    append_end(&mut r, p, num_states);
    r
}

/// The source of the whole recursive-ascent parser for the states that
/// `plans` plan, starting in state `start`, with the partial-rule parts
/// when `gen_partials` is set.
pub fn parser_code(plans: &Vec<StatePlan>, start: usize, gen_partials: bool) -> (r: String)
    ensures
        r@ == parser_text(plans@, start as nat, gen_partials),
{
    let n = plans.len();
    let mut r = String::from_str(PART_A);
    append_when(&mut r, gen_partials, ACTIVE_RULES_DECL);
    r.append(PART_B);
    append_when(&mut r, gen_partials, ACTIVE_RULES_NEW);
    r.append(PART_C);
    append_when(&mut r, gen_partials, APPLY_RULE_PARTIALS);
    r.append(PART_D);
    append_when(&mut r, gen_partials, APPLY_PARTIAL_RULE);
    r.append(PART_E);
    let ghost head = r@;
    let mut i: usize = 0;
    while i < n
        invariant
            n == plans@.len(),
            i <= n,
            r@ == head + states_text(plans@.subrange(0, i as int), n as nat),
        decreases n - i,
    {
        let code = state_code(&plans[i], n);
        r.append(code.as_str());
        proof {
            assert(plans@.subrange(0, i + 1).drop_last() =~= plans@.subrange(0, i as int));
            assert(r@ =~= head + states_text(plans@.subrange(0, i + 1), n as nat));
        }
        i = i + 1;
    }
    assert(plans@.subrange(0, n as int) =~= plans@);
    r.append(PART_F);
    append_when(&mut r, gen_partials, ACTIVE_RULES_RESET);
    r.append(PART_G);
    append_usize(&mut r, start);
    r.append(PART_H);
    assert(r@ =~= parser_text(plans@, start as nat, gen_partials));
    r
}

} // verus!
