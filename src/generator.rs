use vstd::prelude::*;
use crate::tables::{Tables, TableEntry, has_table_entry, get_table_id, get_table_id_str,
    get_table_index, get_semantic_table_id, id_of, index_of, label_of, semantic_of};

verus! {

/// A call of a partial action: the semantic id and the matched length.
#[derive(Clone, Copy, Debug, PartialEq, Eq, Structural)]
pub struct PartialCall {
    pub rule_id: usize,
    pub len: usize,
}

/// A terminal or nonterminal column with its id and label.
#[derive(Clone, Debug)]
pub struct Column {
    pub index: usize,
    pub id: usize,
    pub label: String,
}

/// A terminal that the state shifts, into `next_state`.
pub struct ShiftCase {
    pub term: Column,
    pub next_state: usize,
    pub partial: Option<PartialCall>,
}

/// The terminals on which the state reduces by one rule.
pub struct ReduceCase {
    pub rule: usize,
    pub rule_id: usize,
    pub num_rhs: usize,
    pub lhs_id: usize,
    pub terms: Vec<Column>,
}

/// A nonterminal on which the state jumps into `next_state`.
pub struct JumpCase {
    pub nonterm: Column,
    pub next_state: usize,
    pub partial: Option<PartialCall>,
}

/// Everything the procedure of one state in a recursive-ascent parser does.
pub struct StatePlan {
    pub state: usize,
    pub has_shift: bool,
    pub has_jump: bool,
    pub shifts: Vec<ShiftCase>,
    pub reduces: Vec<ReduceCase>,
    pub accepts: Vec<Column>,
    pub jumps: Vec<JumpCase>,
}

/// The columns `c < n` for which `keep(c)` holds, in order.
pub open spec fn cols_upto(n: int, keep: spec_fn(int) -> bool) -> Seq<usize>
    decreases n,
{
    if n <= 0 {
        Seq::empty()
    } else if keep(n - 1) {
        cols_upto(n - 1, keep).push((n - 1) as usize)
    } else {
        cols_upto(n - 1, keep)
    }
}

/// Columns on which state `s` shifts.
pub open spec fn shift_keep(t: Tables, s: int) -> spec_fn(int) -> bool {
    |c: int| t.shift_at(s, c) != t.err
}

/// Columns on which state `s` accepts.
pub open spec fn accept_keep(t: Tables, s: int) -> spec_fn(int) -> bool {
    |c: int| t.shift_at(s, c) == t.err && t.reduce_at(s, c) == t.acc
}

/// Columns on which state `s` reduces by rule `r`.
pub open spec fn reduce_keep(t: Tables, s: int, r: usize) -> spec_fn(int) -> bool {
    |c: int| t.shift_at(s, c) == t.err && t.reduce_at(s, c) != t.acc && t.reduce_at(s, c) == r
}

/// Nonterminal columns on which state `s` jumps.
pub open spec fn jump_keep(t: Tables, s: int) -> spec_fn(int) -> bool {
    |n: int| t.jump_at(s, n) != t.err
}

/// Whether column `c` of state `s` reduces by a rule.
pub open spec fn reduces_at(t: Tables, s: int, c: int) -> bool {
    t.shift_at(s, c) == t.err && t.reduce_at(s, c) != t.err && t.reduce_at(s, c) != t.acc
}

/// `col` names column `index` of `entries` with its id and label.
pub open spec fn column_ok(entries: Seq<TableEntry>, col: Column, index: usize) -> bool {
    &&& col.index == index
    &&& id_of(entries, index) == Some(col.id)
    &&& col.label@ == label_of(entries, index)
}

/// `cols` name the columns `idx`, in order.
pub open spec fn columns_ok(entries: Seq<TableEntry>, cols: Seq<Column>, idx: Seq<usize>) -> bool {
    &&& cols.len() == idx.len()
    &&& forall|i: int| 0 <= i < idx.len() ==> column_ok(entries, #[trigger] cols[i], idx[i])
}

/// The partial action before shifting column `c` in state `s`.
pub open spec fn term_partial(t: Tables, s: int, c: int, gen_partials: bool) -> Option<PartialCall> {
    let pr = t.partials_rule_term@[s]@[c];
    if gen_partials && pr != t.err {
        Some(
            PartialCall {
                rule_id: semantic_of(t.semantic_idx@, pr)->0,
                len: t.partials_matchlen_term@[s]@[c],
            },
        )
    } else {
        None
    }
}

/// The partial action before jumping on column `n` in state `s`.
pub open spec fn jump_partial(t: Tables, s: int, n: int, gen_partials: bool) -> Option<PartialCall> {
    let lhs = t.partials_lhs_nonterm@[s]@[n];
    if gen_partials && lhs != t.err {
        let li = index_of(t.nonterm_idx@, lhs)->0;
        let pr = t.partials_rule_nonterm@[s]@[li as int];
        if pr != t.err {
            Some(
                PartialCall {
                    rule_id: semantic_of(t.semantic_idx@, pr)->0,
                    len: t.partials_matchlen_nonterm@[s]@[li as int],
                },
            )
        } else {
            None
        }
    } else {
        None
    }
}

/// Every id, label and semantic id that the plan of state `s` needs is in
/// the maps.
pub open spec fn plan_defined(t: Tables, s: int, gen_partials: bool) -> bool {
    &&& forall|c: usize|
        c < t.num_terms() && (t.shift_at(s, c as int) != t.err || t.reduce_at(s, c as int) != t.err)
            ==> #[trigger] id_of(t.term_idx@, c) is Some
    &&& forall|c: usize|
        c < t.num_terms() && t.shift_at(s, c as int) != t.err && gen_partials
            && t.partials_rule_term@[s]@[c as int] != t.err ==> semantic_of(
            t.semantic_idx@,
            #[trigger] t.partials_rule_term@[s]@[c as int],
        ) is Some
    &&& forall|c: usize|
        c < t.num_terms() && #[trigger] reduces_at(t, s, c as int) ==> semantic_of(
            t.semantic_idx@,
            t.reduce_at(s, c as int),
        ) is Some && id_of(t.nonterm_idx@, t.lhs_idx@[t.reduce_at(s, c as int) as int]) is Some
    &&& forall|n: usize|
        n < t.num_nonterms() && t.jump_at(s, n as int) != t.err ==> {
            &&& #[trigger] id_of(t.nonterm_idx@, n) is Some
            &&& gen_partials && t.partials_lhs_nonterm@[s]@[n as int] != t.err ==> {
                let lhs = t.partials_lhs_nonterm@[s]@[n as int];
                &&& index_of(t.nonterm_idx@, lhs) is Some
                &&& t.partials_rule_nonterm@[s]@[index_of(t.nonterm_idx@, lhs)->0 as int] != t.err
                    ==> semantic_of(
                    t.semantic_idx@,
                    t.partials_rule_nonterm@[s]@[index_of(t.nonterm_idx@, lhs)->0 as int],
                ) is Some
            }
        }
}

/// `g` gathers the terminals on which state `s` reduces by `g.rule`.
pub open spec fn reduce_case_ok(t: Tables, s: int, g: ReduceCase) -> bool {
    reduce_case_upto(t, s, g, t.num_terms() as int)
}

/// `g` gathers the terminals before column `upto` on which state `s`
/// reduces by `g.rule`.
pub open spec fn reduce_case_upto(t: Tables, s: int, g: ReduceCase, upto: int) -> bool {
    &&& g.rule < t.num_rules()
    &&& g.rule != t.acc
    &&& semantic_of(t.semantic_idx@, g.rule) == Some(g.rule_id)
    &&& g.num_rhs == t.num_rhs_syms@[g.rule as int]
    &&& id_of(t.nonterm_idx@, t.lhs_idx@[g.rule as int]) == Some(g.lhs_id)
    &&& columns_ok(t.term_idx@, g.terms@, cols_upto(upto, reduce_keep(t, s, g.rule)))
}

/// `xs` are the shift cases of state `s` before column `upto`.
pub open spec fn shifts_ok(t: Tables, s: int, gen_partials: bool, xs: Seq<ShiftCase>, upto: int) -> bool {
    &&& xs.len() == cols_upto(upto, shift_keep(t, s)).len()
    &&& forall|i: int|
        0 <= i < xs.len() ==> {
            let c = cols_upto(upto, shift_keep(t, s))[i];
            &&& column_ok(t.term_idx@, (#[trigger] xs[i]).term, c)
            &&& xs[i].next_state == t.shift_at(s, c as int)
            &&& xs[i].partial == term_partial(t, s, c as int, gen_partials)
        }
}

/// `xs` are the jump cases of state `s` before column `upto`.
pub open spec fn jumps_ok(t: Tables, s: int, gen_partials: bool, xs: Seq<JumpCase>, upto: int) -> bool {
    &&& xs.len() == cols_upto(upto, jump_keep(t, s)).len()
    &&& forall|i: int|
        0 <= i < xs.len() ==> {
            let n = cols_upto(upto, jump_keep(t, s))[i];
            &&& column_ok(t.nonterm_idx@, (#[trigger] xs[i]).nonterm, n)
            &&& xs[i].next_state == t.jump_at(s, n as int)
            &&& xs[i].partial == jump_partial(t, s, n as int, gen_partials)
        }
}

/// The reduce groups of state `s`: one per rule that it reduces by.
pub open spec fn reduces_ok(t: Tables, s: int, gs: Seq<ReduceCase>, upto: int) -> bool {
    &&& forall|g: int| 0 <= g < gs.len() ==> #[trigger] gs[g].rule < t.num_rules() && gs[g].rule != t.acc
    &&& forall|g1: int, g2: int|
        0 <= g1 < gs.len() && 0 <= g2 < gs.len() && g1 != g2 ==> (#[trigger] gs[g1]).rule != (
        #[trigger] gs[g2]).rule
    &&& forall|c: int|
        0 <= c < upto && #[trigger] reduces_at(t, s, c) ==> exists|g: int|
            0 <= g < gs.len() && (#[trigger] gs[g]).rule == t.reduce_at(s, c)
}

/// `p` is the plan of state `s`.
pub open spec fn plan_ok(t: Tables, s: int, gen_partials: bool, p: StatePlan) -> bool {
    let nt = t.num_terms() as int;
    let nn = t.num_nonterms() as int;
    &&& p.state == s
    &&& p.has_shift == exists|c: int| 0 <= c < nt && t.shift_at(s, c) != t.err
    &&& p.has_jump == exists|n: int| 0 <= n < nn && t.jump_at(s, n) != t.err
    &&& shifts_ok(t, s, gen_partials, p.shifts@, nt)
    &&& columns_ok(t.term_idx@, p.accepts@, cols_upto(nt, accept_keep(t, s)))
    &&& reduces_ok(t, s, p.reduces@, nt)
    &&& forall|g: int| 0 <= g < p.reduces@.len() ==> reduce_case_ok(t, s, #[trigger] p.reduces@[g])
    &&& jumps_ok(t, s, gen_partials, p.jumps@, nn)
}

/// No column before `n` is kept: none is listed.
proof fn lemma_cols_none(n: int, keep: spec_fn(int) -> bool)
    requires
        forall|c: int| 0 <= c < n ==> !#[trigger] keep(c),
    ensures
        cols_upto(n, keep) == Seq::<usize>::empty(),
    decreases n,
{
    if n > 0 {
        lemma_cols_none(n - 1, keep);
    }
}

/// The group of `rule` among `gs`, if there is one.
fn find_group(gs: &Vec<ReduceCase>, rule: usize) -> (r: Option<usize>)
    ensures
        r matches Some(g) ==> g < gs@.len() && gs@[g as int].rule == rule,
        r is None ==> forall|g: int| 0 <= g < gs@.len() ==> (#[trigger] gs@[g]).rule != rule,
{
    let mut g: usize = 0;
    while g < gs.len()
        invariant
            g <= gs@.len(),
            forall|h: int| 0 <= h < g ==> (#[trigger] gs@[h]).rule != rule,
        decreases gs@.len() - g,
    {
        if gs[g].rule == rule {
            return Some(g);
        }
        g = g + 1;
    }
    None
}

/// The terminal cases of state `s`: shifts, reduce groups and accepts.
fn plan_terms(t: &Tables, s: usize, gen_partials: bool) -> (r: Option<
    (Vec<ShiftCase>, Vec<ReduceCase>, Vec<Column>),
>)
    requires
        t.wf(),
        s < t.num_states(),
    ensures
        r matches Some(p) ==> {
            let nt = t.num_terms() as int;
            &&& shifts_ok(*t, s as int, gen_partials, p.0@, nt)
            &&& reduces_ok(*t, s as int, p.1@, nt)
            &&& forall|g: int| 0 <= g < p.1@.len() ==> reduce_case_ok(*t, s as int, #[trigger] p.1@[g])
            &&& columns_ok(t.term_idx@, p.2@, cols_upto(nt, accept_keep(*t, s as int)))
        },
        r is None ==> !plan_defined(*t, s as int, gen_partials),
{
    let ghost si = s as int;
    let err = t.err;
    let nt = t.shift[s].len();
    let mut shifts: Vec<ShiftCase> = Vec::new();
    let mut reduces: Vec<ReduceCase> = Vec::new();
    let mut accepts: Vec<Column> = Vec::new();
    let mut i: usize = 0;
    while i < nt
        invariant
            t.wf(),
            s < t.num_states(),
            si == s as int,
            err == t.err,
            nt == t.num_terms(),
            i <= nt,
            shifts_ok(*t, si, gen_partials, shifts@, i as int),
            reduces_ok(*t, si, reduces@, i as int),
            forall|g: int| 0 <= g < reduces@.len() ==> reduce_case_upto(*t, si, #[trigger] reduces@[g], i as int),
            columns_ok(t.term_idx@, accepts@, cols_upto(i as int, accept_keep(*t, si))),
        decreases nt - i,
    {
        assert(t.shift@[si]@.len() == nt);
        assert(t.reduce@[si]@.len() == nt);
        let ns = t.shift[s][i];
        let rd = t.reduce[s][i];
        let ghost ii = i as int;
        assert(t.shift_at(si, ii) == ns && t.reduce_at(si, ii) == rd);
        if ns != err {
            let (id, label) = match get_table_id_str(&t.term_idx, i) {
                None => {
                    return None;
                },
                Some(p) => p,
            };
            let mut partial: Option<PartialCall> = None;
            if gen_partials {
                assert(t.partials_rule_term@[si]@.len() == nt);
                assert(t.partials_matchlen_term@[si]@.len() == nt);
                let pr = t.partials_rule_term[s][i];
                if pr != err {
                    match get_semantic_table_id(&t.semantic_idx, pr) {
                        None => {
                            return None;
                        },
                        Some(rule_id) => {
                            partial = Some(PartialCall { rule_id, len: t.partials_matchlen_term[s][i] });
                        },
                    }
                }
            }
            let ghost old_shifts = shifts@;
            shifts.push(ShiftCase { term: Column { index: i, id, label }, next_state: ns, partial });
            proof {
                assert(cols_upto(ii + 1, shift_keep(*t, si)) == cols_upto(ii, shift_keep(*t, si)).push(i));
                assert forall|k: int| 0 <= k < shifts@.len() implies {
                    let c = cols_upto(ii + 1, shift_keep(*t, si))[k];
                    &&& column_ok(t.term_idx@, (#[trigger] shifts@[k]).term, c)
                    &&& shifts@[k].next_state == t.shift_at(si, c as int)
                    &&& shifts@[k].partial == term_partial(*t, si, c as int, gen_partials)
                } by {
                    if k < old_shifts.len() {
                        assert(shifts@[k] == old_shifts[k]);
                    }
                }
                assert(cols_upto(ii + 1, accept_keep(*t, si)) == cols_upto(ii, accept_keep(*t, si)));
                assert forall|g: int| 0 <= g < reduces@.len() implies reduce_case_upto(*t, si, #[trigger] reduces@[g], ii + 1) by {
                    assert(cols_upto(ii + 1, reduce_keep(*t, si, reduces@[g].rule)) == cols_upto(ii, reduce_keep(*t, si, reduces@[g].rule)));
                }
                assert(!reduces_at(*t, si, ii));
            }
        } else if rd != err {
            let (id, label) = match get_table_id_str(&t.term_idx, i) {
                None => {
                    return None;
                },
                Some(p) => p,
            };
            let col = Column { index: i, id, label };
            if rd == t.acc {
                let ghost old_acc = accepts@;
                accepts.push(col);
                proof {
                    assert(cols_upto(ii + 1, accept_keep(*t, si)) == cols_upto(ii, accept_keep(*t, si)).push(i));
                    assert forall|k: int| 0 <= k < accepts@.len() implies column_ok(t.term_idx@, #[trigger] accepts@[k], cols_upto(ii + 1, accept_keep(*t, si))[k]) by {
                        if k < old_acc.len() {
                            assert(accepts@[k] == old_acc[k]);
                        }
                    }
                    assert(cols_upto(ii + 1, shift_keep(*t, si)) == cols_upto(ii, shift_keep(*t, si)));
                    assert forall|g: int| 0 <= g < reduces@.len() implies reduce_case_upto(*t, si, #[trigger] reduces@[g], ii + 1) by {
                        assert(cols_upto(ii + 1, reduce_keep(*t, si, reduces@[g].rule)) == cols_upto(ii, reduce_keep(*t, si, reduces@[g].rule)));
                    }
                    assert(!reduces_at(*t, si, ii));
                }
            } else {
                assert(reduces_at(*t, si, ii));
                let ghost old_red = reduces@;
                match find_group(&reduces, rd) {
                    Some(g) => {
                        let ghost old_terms = reduces@[g as int].terms@;
                        reduces[g].terms.push(col);
                        proof {
                            assert forall|h: int| 0 <= h < reduces@.len() implies reduce_case_upto(*t, si, #[trigger] reduces@[h], ii + 1) by {
                                let kh = reduce_keep(*t, si, reduces@[h].rule);
                                if h == g as int {
                                    assert(cols_upto(ii + 1, kh) == cols_upto(ii, kh).push(i));
                                    assert forall|k: int| 0 <= k < reduces@[h].terms@.len() implies column_ok(t.term_idx@, #[trigger] reduces@[h].terms@[k], cols_upto(ii + 1, kh)[k]) by {
                                        if k < old_terms.len() {
                                            assert(reduces@[h].terms@[k] == old_terms[k]);
                                        }
                                    }
                                } else {
                                    assert(reduces@[h] == old_red[h]);
                                    assert(old_red[h].rule != rd);
                                    assert(cols_upto(ii + 1, kh) == cols_upto(ii, kh));
                                }
                            }
                            assert forall|g1: int, g2: int| 0 <= g1 < reduces@.len() && 0 <= g2 < reduces@.len() && g1 != g2 implies (#[trigger] reduces@[g1]).rule != (#[trigger] reduces@[g2]).rule by {
                                assert(reduces@[g1].rule == old_red[g1].rule);
                                assert(reduces@[g2].rule == old_red[g2].rule);
                            }
                            assert forall|c: int| 0 <= c < ii + 1 && #[trigger] reduces_at(*t, si, c) implies exists|h: int| 0 <= h < reduces@.len() && (#[trigger] reduces@[h]).rule == t.reduce_at(si, c) by {
                                if c < ii {
                                    let h = choose|h: int| 0 <= h < old_red.len() && (#[trigger] old_red[h]).rule == t.reduce_at(si, c);
                                    assert(reduces@[h].rule == old_red[h].rule);
                                } else {
                                    assert(reduces@[g as int].rule == rd);
                                }
                            }
                        }
                    },
                    None => {
                        let rule_id = match get_semantic_table_id(&t.semantic_idx, rd) {
                            None => {
                                return None;
                            },
                            Some(x) => x,
                        };
                        let lhs_id = match get_table_id(&t.nonterm_idx, t.lhs_idx[rd]) {
                            None => {
                                return None;
                            },
                            Some(x) => x,
                        };
                        let mut terms: Vec<Column> = Vec::new();
                        terms.push(col);
                        reduces.push(ReduceCase { rule: rd, rule_id, num_rhs: t.num_rhs_syms[rd], lhs_id, terms });
                        proof {
                            let kn = reduce_keep(*t, si, rd);
                            assert forall|c: int| 0 <= c < ii implies !#[trigger] kn(c) by {
                                if kn(c) {
                                    assert(reduces_at(*t, si, c));
                                    let h = choose|h: int| 0 <= h < old_red.len() && (#[trigger] old_red[h]).rule == t.reduce_at(si, c);
                                }
                            }
                            lemma_cols_none(ii, kn);
                            assert(cols_upto(ii + 1, kn) == seq![i]);
                            assert forall|h: int| 0 <= h < reduces@.len() implies reduce_case_upto(*t, si, #[trigger] reduces@[h], ii + 1) by {
                                let kh = reduce_keep(*t, si, reduces@[h].rule);
                                if h < old_red.len() {
                                    assert(reduces@[h] == old_red[h]);
                                    assert(old_red[h].rule != rd);
                                    assert(cols_upto(ii + 1, kh) == cols_upto(ii, kh));
                                }
                            }
                            assert forall|c: int| 0 <= c < ii + 1 && #[trigger] reduces_at(*t, si, c) implies exists|h: int| 0 <= h < reduces@.len() && (#[trigger] reduces@[h]).rule == t.reduce_at(si, c) by {
                                if c < ii {
                                    let h = choose|h: int| 0 <= h < old_red.len() && (#[trigger] old_red[h]).rule == t.reduce_at(si, c);
                                    assert(reduces@[h] == old_red[h]);
                                } else {
                                    assert(reduces@[old_red.len() as int].rule == rd);
                                }
                            }
                            assert forall|g1: int, g2: int| 0 <= g1 < reduces@.len() && 0 <= g2 < reduces@.len() && g1 != g2 implies (#[trigger] reduces@[g1]).rule != (#[trigger] reduces@[g2]).rule by {
                                if g1 < old_red.len() {
                                    assert(reduces@[g1] == old_red[g1]);
                                }
                                if g2 < old_red.len() {
                                    assert(reduces@[g2] == old_red[g2]);
                                }
                            }
                        }
                    },
                }
                proof {
                    assert(cols_upto(ii + 1, shift_keep(*t, si)) == cols_upto(ii, shift_keep(*t, si)));
                    assert(cols_upto(ii + 1, accept_keep(*t, si)) == cols_upto(ii, accept_keep(*t, si)));
                }
            }
        } else {
            proof {
                assert(cols_upto(ii + 1, shift_keep(*t, si)) == cols_upto(ii, shift_keep(*t, si)));
                assert(cols_upto(ii + 1, accept_keep(*t, si)) == cols_upto(ii, accept_keep(*t, si)));
                assert forall|g: int| 0 <= g < reduces@.len() implies reduce_case_upto(*t, si, #[trigger] reduces@[g], ii + 1) by {
                    assert(cols_upto(ii + 1, reduce_keep(*t, si, reduces@[g].rule)) == cols_upto(ii, reduce_keep(*t, si, reduces@[g].rule)));
                }
                assert(!reduces_at(*t, si, ii));
            }
        }
        i = i + 1;
    }
    Some((shifts, reduces, accepts))
}

/// The jump cases of state `s`.
fn plan_jumps(t: &Tables, s: usize, gen_partials: bool) -> (r: Option<Vec<JumpCase>>)
    requires
        t.wf(),
        s < t.num_states(),
    ensures
        r matches Some(xs) ==> jumps_ok(*t, s as int, gen_partials, xs@, t.num_nonterms() as int),
        r is None ==> !plan_defined(*t, s as int, gen_partials),
{
    let ghost si = s as int;
    let err = t.err;
    let nn = t.jump[s].len();
    let mut jumps: Vec<JumpCase> = Vec::new();
    let mut n: usize = 0;
    while n < nn
        invariant
            t.wf(),
            s < t.num_states(),
            si == s as int,
            err == t.err,
            nn == t.num_nonterms(),
            n <= nn,
            jumps_ok(*t, si, gen_partials, jumps@, n as int),
        decreases nn - n,
    {
        let ghost ni = n as int;
        assert(t.jump@[si]@.len() == nn);
        let target = t.jump[s][n];
        assert(t.jump_at(si, ni) == target);
        if target != err {
            let (id, label) = match get_table_id_str(&t.nonterm_idx, n) {
                None => {
                    return None;
                },
                Some(p) => p,
            };
            let mut partial: Option<PartialCall> = None;
            if gen_partials {
                assert(t.partials_lhs_nonterm@[si]@.len() == nn);
                let lhs_id = t.partials_lhs_nonterm[s][n];
                if lhs_id != err {
                    let lhs_idx = match get_table_index(&t.nonterm_idx, lhs_id) {
                        None => {
                            return None;
                        },
                        Some(x) => x,
                    };
                    proof {
                        let k = choose|k: int| 0 <= k < t.nonterm_idx@.len() && (#[trigger] t.nonterm_idx@[k]).id == lhs_id;
                        assert(t.nonterm_idx@[k].index < nn);
                    }
                    assert(t.partials_rule_nonterm@[si]@.len() == nn);
                    assert(t.partials_matchlen_nonterm@[si]@.len() == nn);
                    let pr = t.partials_rule_nonterm[s][lhs_idx];
                    if pr != err {
                        match get_semantic_table_id(&t.semantic_idx, pr) {
                            None => {
                                return None;
                            },
                            Some(rule_id) => {
                                partial = Some(PartialCall { rule_id, len: t.partials_matchlen_nonterm[s][lhs_idx] });
                            },
                        }
                    }
                }
            }
            let ghost old_jumps = jumps@;
            jumps.push(JumpCase { nonterm: Column { index: n, id, label }, next_state: target, partial });
            proof {
                assert(cols_upto(ni + 1, jump_keep(*t, si)) == cols_upto(ni, jump_keep(*t, si)).push(n));
                assert forall|k: int| 0 <= k < jumps@.len() implies {
                    let c = cols_upto(ni + 1, jump_keep(*t, si))[k];
                    &&& column_ok(t.nonterm_idx@, (#[trigger] jumps@[k]).nonterm, c)
                    &&& jumps@[k].next_state == t.jump_at(si, c as int)
                    &&& jumps@[k].partial == jump_partial(*t, si, c as int, gen_partials)
                } by {
                    if k < old_jumps.len() {
                        assert(jumps@[k] == old_jumps[k]);
                    }
                }
            }
        } else {
            proof {
                assert(cols_upto(ni + 1, jump_keep(*t, si)) == cols_upto(ni, jump_keep(*t, si)));
            }
        }
        n = n + 1;
    }
    Some(jumps)
}

/// The plan of the procedure for state `s`: which terminals it shifts,
/// reduces on or accepts, which nonterminals it jumps on, and the partial
/// actions to call on the way when `gen_partials` is set. `None` when the
/// tables lack an id or a semantic id that the plan needs.
pub fn plan_state(t: &Tables, s: usize, gen_partials: bool) -> (r: Option<StatePlan>)
    requires
        t.wf(),
        s < t.num_states(),
    ensures
        r matches Some(p) ==> plan_ok(*t, s as int, gen_partials, p),
        r is None ==> !plan_defined(*t, s as int, gen_partials),
{
    let has_shift = has_table_entry(&t.shift[s], t.err);
    let has_jump = has_table_entry(&t.jump[s], t.err);
    proof {
        let si = s as int;
        assert(t.shift@[si]@.len() == t.num_terms());
        assert(t.jump@[si]@.len() == t.num_nonterms());
        if has_shift {
            let c = choose|c: int| 0 <= c < t.shift@[si]@.len() && t.shift@[si]@[c] != t.err;
            assert(t.shift_at(si, c) != t.err);
        }
        if has_jump {
            let n = choose|n: int| 0 <= n < t.jump@[si]@.len() && t.jump@[si]@[n] != t.err;
            assert(t.jump_at(si, n) != t.err);
        }
    }
    let (shifts, reduces, accepts) = match plan_terms(t, s, gen_partials) {
        None => {
            return None;
        },
        Some(p) => p,
    };
    let jumps = match plan_jumps(t, s, gen_partials) {
        None => {
            return None;
        },
        Some(x) => x,
    };
    Some(StatePlan { state: s, has_shift, has_jump, shifts, reduces, accepts, jumps })
}

/// The plans of all states, in order. `None` when the plan of some state
/// is not defined.
pub fn create_states(t: &Tables, gen_partials: bool) -> (r: Option<Vec<StatePlan>>)
    requires
        t.wf(),
    ensures
        r matches Some(v) ==> v@.len() == t.num_states() && forall|s: int|
            0 <= s < v@.len() ==> plan_ok(*t, s, gen_partials, #[trigger] v@[s]),
        r is None ==> exists|s: int| 0 <= s < t.num_states() && !plan_defined(*t, s, gen_partials),
{
    let num_states = t.shift.len();
    let mut states: Vec<StatePlan> = Vec::new();
    let mut s: usize = 0;
    while s < num_states
        invariant
            t.wf(),
            num_states == t.num_states(),
            s <= num_states,
            states@.len() == s,
            forall|k: int| 0 <= k < s ==> plan_ok(*t, k, gen_partials, #[trigger] states@[k]),
        decreases num_states - s,
    {
        match plan_state(t, s, gen_partials) {
            None => {
                return None;
            },
            Some(p) => {
                let ghost old_states = states@;
                states.push(p);
                proof {
                    assert forall|k: int| 0 <= k < s + 1 implies plan_ok(*t, k, gen_partials, #[trigger] states@[k]) by {
                        if k < s {
                            assert(states@[k] == old_states[k]);
                        }
                    }
                }
            },
        }
        s = s + 1;
    }
    Some(states)
}

/// The listed columns are exactly the kept columns below `n`.
proof fn lemma_cols_member(n: int, keep: spec_fn(int) -> bool)
    requires
        0 <= n <= usize::MAX,
    ensures
        forall|i: int|
            0 <= i < cols_upto(n, keep).len() ==> 0 <= #[trigger] cols_upto(n, keep)[i] < n && keep(
                cols_upto(n, keep)[i] as int,
            ),
        forall|c: int|
            0 <= c < n && #[trigger] keep(c) ==> exists|i: int|
                0 <= i < cols_upto(n, keep).len() && cols_upto(n, keep)[i] == c,
    decreases n,
{
    if n > 0 {
        lemma_cols_member(n - 1, keep);
        let prev = cols_upto(n - 1, keep);
        if keep(n - 1) {
            assert(cols_upto(n, keep) == prev.push((n - 1) as usize));
            assert forall|c: int| 0 <= c < n && #[trigger] keep(c) implies exists|i: int|
                0 <= i < cols_upto(n, keep).len() && cols_upto(n, keep)[i] == c by {
                if c < n - 1 {
                    let i = choose|i: int| 0 <= i < prev.len() && prev[i] == c;
                    assert(cols_upto(n, keep)[i] == c);
                } else {
                    assert(cols_upto(n, keep)[prev.len() as int] == c);
                }
            }
        } else {
            assert(cols_upto(n, keep) == prev);
        }
    }
}

/// On every lookahead column, the procedure planned for state `s` has a
/// shift case into the table's target exactly where the table shifts, an
/// accept case exactly where it accepts without a shift, and a reduce case
/// by the table's rule exactly where it reduces without a shift. Where a
/// column has no conflict this is the driver's action; on a conflict the
/// driver fails while the plan shifts.
pub proof fn lemma_plan_agrees_with_driver(t: Tables, s: int, gen_partials: bool, p: StatePlan, c: int)
    requires
        t.wf(),
        0 <= s < t.num_states(),
        0 <= c < t.num_terms(),
        t.num_terms() <= usize::MAX,
        plan_ok(t, s, gen_partials, p),
    ensures
        (exists|i: int|
            0 <= i < p.shifts@.len() && (#[trigger] p.shifts@[i]).term.index == c
                && p.shifts@[i].next_state == t.shift_at(s, c)) <==> t.shift_at(s, c) != t.err,
        (exists|i: int| 0 <= i < p.accepts@.len() && (#[trigger] p.accepts@[i]).index == c) <==> (
        t.shift_at(s, c) == t.err && t.reduce_at(s, c) == t.acc),
        (exists|g: int, i: int|
            0 <= g < p.reduces@.len() && 0 <= i < p.reduces@[g].terms@.len() && (
            #[trigger] p.reduces@[g].terms@[i]).index == c && p.reduces@[g].rule == t.reduce_at(s, c))
            <==> reduces_at(t, s, c),
{
    let nt = t.num_terms() as int;
    let ks = shift_keep(t, s);
    let ka = accept_keep(t, s);
    lemma_cols_member(nt, ks);
    lemma_cols_member(nt, ka);
    if t.shift_at(s, c) != t.err {
        assert(ks(c));
        let i = choose|i: int| 0 <= i < cols_upto(nt, ks).len() && cols_upto(nt, ks)[i] == c;
        assert(column_ok(t.term_idx@, p.shifts@[i].term, cols_upto(nt, ks)[i]));
    }
    if exists|i: int| 0 <= i < p.shifts@.len() && (#[trigger] p.shifts@[i]).term.index == c
        && p.shifts@[i].next_state == t.shift_at(s, c) {
        let i = choose|i: int| 0 <= i < p.shifts@.len() && (#[trigger] p.shifts@[i]).term.index == c
            && p.shifts@[i].next_state == t.shift_at(s, c);
        assert(column_ok(t.term_idx@, p.shifts@[i].term, cols_upto(nt, ks)[i]));
        assert(ks(cols_upto(nt, ks)[i] as int));
    }
    if t.shift_at(s, c) == t.err && t.reduce_at(s, c) == t.acc {
        assert(ka(c));
        let i = choose|i: int| 0 <= i < cols_upto(nt, ka).len() && cols_upto(nt, ka)[i] == c;
        assert(column_ok(t.term_idx@, p.accepts@[i], cols_upto(nt, ka)[i]));
    }
    if exists|i: int| 0 <= i < p.accepts@.len() && (#[trigger] p.accepts@[i]).index == c {
        let i = choose|i: int| 0 <= i < p.accepts@.len() && (#[trigger] p.accepts@[i]).index == c;
        assert(column_ok(t.term_idx@, p.accepts@[i], cols_upto(nt, ka)[i]));
        assert(ka(cols_upto(nt, ka)[i] as int));
    }
    if reduces_at(t, s, c) {
        let g = choose|g: int| 0 <= g < p.reduces@.len() && (#[trigger] p.reduces@[g]).rule == t.reduce_at(s, c);
        let kr = reduce_keep(t, s, p.reduces@[g].rule);
        assert(reduce_case_ok(t, s, p.reduces@[g]));
        lemma_cols_member(nt, kr);
        assert(kr(c));
        let i = choose|i: int| 0 <= i < cols_upto(nt, kr).len() && cols_upto(nt, kr)[i] == c;
        assert(column_ok(t.term_idx@, p.reduces@[g].terms@[i], cols_upto(nt, kr)[i]));
    }
    if exists|g: int, i: int|
        0 <= g < p.reduces@.len() && 0 <= i < p.reduces@[g].terms@.len() && (
        #[trigger] p.reduces@[g].terms@[i]).index == c && p.reduces@[g].rule == t.reduce_at(s, c) {
        let (g, i) = choose|g: int, i: int|
            0 <= g < p.reduces@.len() && 0 <= i < p.reduces@[g].terms@.len() && (
            #[trigger] p.reduces@[g].terms@[i]).index == c && p.reduces@[g].rule == t.reduce_at(s, c);
        let kr = reduce_keep(t, s, p.reduces@[g].rule);
        assert(reduce_case_ok(t, s, p.reduces@[g]));
        lemma_cols_member(nt, kr);
        assert(column_ok(t.term_idx@, p.reduces@[g].terms@[i], cols_upto(nt, kr)[i]));
        assert(kr(cols_upto(nt, kr)[i] as int));
        assert(p.reduces@[g].rule != t.err);
    }
}

} // verus!
