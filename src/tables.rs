use vstd::prelude::*;

verus! {

/// One entry of an id/index map: a symbol id, its column in the tables and a
/// label for diagnostics and generated comments.
#[derive(Clone, Debug)]
pub struct TableEntry {
    pub id: usize,
    pub index: usize,
    pub label: String,
}

/// Precomputed LALR(1) tables, indexed by state.
pub struct Tables {
    /// `shift[state][term]`: the state to shift into, or `err`.
    pub shift: Vec<Vec<usize>>,
    /// `reduce[state][term]`: the rule to reduce by, `acc` or `err`.
    pub reduce: Vec<Vec<usize>>,
    /// `jump[state][nonterm]`: the state after a reduction, or `err`.
    pub jump: Vec<Vec<usize>>,
    /// Length of each rule's right-hand side.
    pub num_rhs_syms: Vec<usize>,
    /// Nonterminal index of each rule's left-hand side.
    pub lhs_idx: Vec<usize>,
    /// Terminal ids and their column indices.
    pub term_idx: Vec<TableEntry>,
    /// Nonterminal ids and their column indices.
    pub nonterm_idx: Vec<TableEntry>,
    /// `(semantic id, rule index)` pairs.
    pub semantic_idx: Vec<(usize, usize)>,
    /// Rule whose partial action runs before shifting `term` in `state`, or `err`.
    pub partials_rule_term: Vec<Vec<usize>>,
    /// Rule whose partial action runs before jumping on `nonterm` in `state`, or `err`.
    pub partials_rule_nonterm: Vec<Vec<usize>>,
    /// Symbols already matched by the rule of `partials_rule_term`.
    pub partials_matchlen_term: Vec<Vec<usize>>,
    /// Symbols already matched by the rule of `partials_rule_nonterm`.
    pub partials_matchlen_nonterm: Vec<Vec<usize>>,
    /// Left-hand-side id keying the nonterminal partial action, or `err`.
    pub partials_lhs_nonterm: Vec<Vec<usize>>,
    pub err: usize,
    pub acc: usize,
    pub start: usize,
    pub end: usize,
}

/// Every row of `rows` has `n` columns.
pub open spec fn rows_of_len(rows: Seq<Vec<usize>>, n: nat) -> bool {
    forall|s: int| 0 <= s < rows.len() ==> (#[trigger] rows[s])@.len() == n
}

/// The index that `entries` gives to `id`, if any.
pub open spec fn index_of(entries: Seq<TableEntry>, id: usize) -> Option<usize> {
    if exists|i: int| 0 <= i < entries.len() && (#[trigger] entries[i]).id == id {
        let i = choose|i: int| 0 <= i < entries.len() && (#[trigger] entries[i]).id == id;
        Some(entries[i].index)
    } else {
        None
    }
}

/// The id that `entries` gives to `index`, if any.
pub open spec fn id_of(entries: Seq<TableEntry>, index: usize) -> Option<usize> {
    if exists|i: int| 0 <= i < entries.len() && (#[trigger] entries[i]).index == index {
        let i = choose|i: int| 0 <= i < entries.len() && (#[trigger] entries[i]).index == index;
        Some(entries[i].id)
    } else {
        None
    }
}

/// The semantic id of rule `index`, if any.
pub open spec fn semantic_of(entries: Seq<(usize, usize)>, index: usize) -> Option<usize> {
    if exists|i: int| 0 <= i < entries.len() && (#[trigger] entries[i]).1 == index {
        let i = choose|i: int| 0 <= i < entries.len() && (#[trigger] entries[i]).1 == index;
        Some(entries[i].0)
    } else {
        None
    }
}

/// The label of the entry with `index`.
pub open spec fn label_of(entries: Seq<TableEntry>, index: usize) -> Seq<char> {
    let i = choose|i: int| 0 <= i < entries.len() && (#[trigger] entries[i]).index == index;
    entries[i].label@
}

/// No two entries share an id, and no two share an index.
pub open spec fn entries_unique(entries: Seq<TableEntry>) -> bool {
    forall|i: int, j: int|
        0 <= i < entries.len() && 0 <= j < entries.len() && i != j ==> (#[trigger] entries[i]).id
            != (#[trigger] entries[j]).id && entries[i].index != entries[j].index
}

/// No two rules share a position in the semantic map.
pub open spec fn semantics_unique(entries: Seq<(usize, usize)>) -> bool {
    forall|i: int, j: int|
        0 <= i < entries.len() && 0 <= j < entries.len() && i != j ==> (#[trigger] entries[i]).1
            != (#[trigger] entries[j]).1
}

impl Tables {
    pub open spec fn num_states(&self) -> nat {
        self.shift@.len()
    }

    pub open spec fn num_terms(&self) -> nat {
        self.shift@[0]@.len()
    }

    pub open spec fn num_nonterms(&self) -> nat {
        self.jump@[0]@.len()
    }

    pub open spec fn num_rules(&self) -> nat {
        self.num_rhs_syms@.len()
    }

    pub open spec fn shift_at(&self, s: int, t: int) -> usize {
        self.shift@[s]@[t]
    }

    pub open spec fn reduce_at(&self, s: int, t: int) -> usize {
        self.reduce@[s]@[t]
    }

    pub open spec fn jump_at(&self, s: int, n: int) -> usize {
        self.jump@[s]@[n]
    }

    /// The shape the driver relies on: every row has the width of its
    /// kind, every target state exists, every rule index is in range, and
    /// the id/index maps are one to one with indices inside the tables.
    pub open spec fn wf(&self) -> bool {
        let ns = self.num_states();
        let nt = self.num_terms();
        let nn = self.num_nonterms();
        &&& ns > 0
        &&& self.jump@.len() == ns
        &&& self.reduce@.len() == ns
        &&& self.partials_rule_term@.len() == ns
        &&& self.partials_rule_nonterm@.len() == ns
        &&& self.partials_matchlen_term@.len() == ns
        &&& self.partials_matchlen_nonterm@.len() == ns
        &&& self.partials_lhs_nonterm@.len() == ns
        &&& rows_of_len(self.shift@, nt)
        &&& rows_of_len(self.reduce@, nt)
        &&& rows_of_len(self.partials_rule_term@, nt)
        &&& rows_of_len(self.partials_matchlen_term@, nt)
        &&& rows_of_len(self.jump@, nn)
        &&& rows_of_len(self.partials_rule_nonterm@, nn)
        &&& rows_of_len(self.partials_matchlen_nonterm@, nn)
        &&& rows_of_len(self.partials_lhs_nonterm@, nn)
        &&& self.lhs_idx@.len() == self.num_rules()
        &&& self.start < ns
        &&& self.err >= ns
        &&& self.err >= self.num_rules()
        &&& self.err != self.acc
        &&& forall|s: int, t: int|
            0 <= s < ns && 0 <= t < nt ==> {
                &&& #[trigger] self.shift_at(s, t) == self.err || self.shift_at(s, t) < ns
                &&& self.reduce_at(s, t) == self.err || self.reduce_at(s, t) == self.acc
                    || self.reduce_at(s, t) < self.num_rules()
            }
        &&& forall|s: int, n: int|
            0 <= s < ns && 0 <= n < nn ==> #[trigger] self.jump_at(s, n) == self.err
                || self.jump_at(s, n) < ns
        &&& forall|r: int| 0 <= r < self.num_rules() ==> #[trigger] self.lhs_idx@[r] < nn
        &&& forall|i: int|
            0 <= i < self.term_idx@.len() ==> (#[trigger] self.term_idx@[i]).index < nt
        &&& forall|i: int|
            0 <= i < self.nonterm_idx@.len() ==> (#[trigger] self.nonterm_idx@[i]).index < nn
        &&& entries_unique(self.term_idx@)
        &&& entries_unique(self.nonterm_idx@)
        &&& semantics_unique(self.semantic_idx@)
    }
}

/// In a one-to-one map, the entry at `i` is what both lookups find.
pub proof fn lemma_entry_found(entries: Seq<TableEntry>, i: int)
    requires
        entries_unique(entries),
        0 <= i < entries.len(),
    ensures
        id_of(entries, entries[i].index) == Some(entries[i].id),
        label_of(entries, entries[i].index) == entries[i].label@,
        index_of(entries, entries[i].id) == Some(entries[i].index),
{
    assert(entries[i].index == entries[i].index);
    assert(entries[i].id == entries[i].id);
}

/// In a map with unique rule positions, the entry at `i` is what the lookup finds.
pub proof fn lemma_semantic_found(entries: Seq<(usize, usize)>, i: int)
    requires
        semantics_unique(entries),
        0 <= i < entries.len(),
    ensures
        semantic_of(entries, entries[i].1) == Some(entries[i].0),
{
    assert(entries[i].1 == entries[i].1);
}

/// Whether a table row holds any entry other than `err`.
pub fn has_table_entry(row: &Vec<usize>, err: usize) -> (r: bool)
    ensures
        r == exists|i: int| 0 <= i < row@.len() && row@[i] != err,
{
    let mut i: usize = 0;
    while i < row.len()
        invariant
            i <= row@.len(),
            forall|j: int| 0 <= j < i ==> row@[j] == err,
        decreases row@.len() - i,
    {
        if row[i] != err {
            return true;
        }
        i = i + 1;
    }
    false
}

/// The id that `tab` gives to the column `idx`.
pub fn get_table_id(tab: &Vec<TableEntry>, idx: usize) -> (r: Option<usize>)
    requires
        entries_unique(tab@),
    ensures
        r == id_of(tab@, idx),
{
    let mut i: usize = 0;
    while i < tab.len()
        invariant
            i <= tab@.len(),
            entries_unique(tab@),
            forall|j: int| 0 <= j < i ==> (#[trigger] tab@[j]).index != idx,
        decreases tab@.len() - i,
    {
        if tab[i].index == idx {
            proof {
                lemma_entry_found(tab@, i as int);
            }
            return Some(tab[i].id);
        }
        i = i + 1;
    }
    None
}

/// The column that `tab` gives to the id `id`.
pub fn get_table_index(tab: &Vec<TableEntry>, id: usize) -> (r: Option<usize>)
    requires
        entries_unique(tab@),
    ensures
        r == index_of(tab@, id),
{
    let mut i: usize = 0;
    while i < tab.len()
        invariant
            i <= tab@.len(),
            entries_unique(tab@),
            forall|j: int| 0 <= j < i ==> (#[trigger] tab@[j]).id != id,
        decreases tab@.len() - i,
    {
        if tab[i].id == id {
            proof {
                lemma_entry_found(tab@, i as int);
            }
            return Some(tab[i].index);
        }
        i = i + 1;
    }
    None
}

/// The id and the label that `tab` gives to the column `idx`.
pub fn get_table_id_str(tab: &Vec<TableEntry>, idx: usize) -> (r: Option<(usize, String)>)
    requires
        entries_unique(tab@),
    ensures
        r is None <==> id_of(tab@, idx) is None,
        r matches Some(p) ==> Some(p.0) == id_of(tab@, idx) && p.1@ == label_of(tab@, idx),
{
    let mut i: usize = 0;
    while i < tab.len()
        invariant
            i <= tab@.len(),
            entries_unique(tab@),
            forall|j: int| 0 <= j < i ==> (#[trigger] tab@[j]).index != idx,
        decreases tab@.len() - i,
    {
        if tab[i].index == idx {
            proof {
                lemma_entry_found(tab@, i as int);
            }
            return Some((tab[i].id, tab[i].label.clone()));
        }
        i = i + 1;
    }
    None
}

/// The semantic id of the rule with index `idx`.
pub fn get_semantic_table_id(tab: &Vec<(usize, usize)>, idx: usize) -> (r: Option<usize>)
    requires
        semantics_unique(tab@),
    ensures
        r == semantic_of(tab@, idx),
{
    let mut i: usize = 0;
    while i < tab.len()
        invariant
            i <= tab@.len(),
            semantics_unique(tab@),
            forall|j: int| 0 <= j < i ==> (#[trigger] tab@[j]).1 != idx,
        decreases tab@.len() - i,
    {
        if tab[i].1 == idx {
            proof {
                lemma_semantic_found(tab@, i as int);
            }
            return Some(tab[i].0);
        }
        i = i + 1;
    }
    None
}

/// Whether every row of `rows` has `n` columns.
fn rows_have_len(rows: &Vec<Vec<usize>>, n: usize) -> (r: bool)
    ensures
        r == rows_of_len(rows@, n as nat),
{
    let mut i: usize = 0;
    while i < rows.len()
        invariant
            i <= rows@.len(),
            forall|s: int| 0 <= s < i ==> (#[trigger] rows@[s])@.len() == n,
        decreases rows@.len() - i,
    {
        if rows[i].len() != n {
            return false;
        }
        i = i + 1;
    }
    true
}

/// Whether every cell of `rows` is `err`, `acc` or below `bound`.
fn cells_below(rows: &Vec<Vec<usize>>, err: usize, acc: usize, bound: usize) -> (r: bool)
    ensures
        r == forall|s: int, c: int|
            0 <= s < rows@.len() && 0 <= c < rows@[s]@.len() ==> #[trigger] rows@[s]@[c] == err
                || rows@[s]@[c] == acc || rows@[s]@[c] < bound,
{
    let mut i: usize = 0;
    while i < rows.len()
        invariant
            i <= rows@.len(),
            forall|s: int, c: int|
                0 <= s < i && 0 <= c < rows@[s]@.len() ==> #[trigger] rows@[s]@[c] == err
                    || rows@[s]@[c] == acc || rows@[s]@[c] < bound,
        decreases rows@.len() - i,
    {
        let row = &rows[i];
        let mut j: usize = 0;
        while j < row.len()
            invariant
                i < rows@.len(),
                row@ == rows@[i as int]@,
                j <= row@.len(),
                forall|s: int, c: int|
                    0 <= s < i && 0 <= c < rows@[s]@.len() ==> #[trigger] rows@[s]@[c] == err
                        || rows@[s]@[c] == acc || rows@[s]@[c] < bound,
                forall|c: int| 0 <= c < j ==> #[trigger] row@[c] == err || row@[c] == acc || row@[c] < bound,
            decreases row@.len() - j,
        {
            let v = row[j];
            if v != err && v != acc && v >= bound {
                assert(rows@[i as int]@[j as int] == v);
                return false;
            }
            j = j + 1;
        }
        i = i + 1;
    }
    true
}

/// Whether no two entries share an id or an index.
fn entries_are_unique(entries: &Vec<TableEntry>) -> (r: bool)
    ensures
        r == entries_unique(entries@),
{
    let mut i: usize = 0;
    while i < entries.len()
        invariant
            i <= entries@.len(),
            forall|a: int, b: int|
                0 <= a < i && 0 <= b < entries@.len() && a != b ==> (#[trigger] entries@[a]).id
                    != (#[trigger] entries@[b]).id && entries@[a].index != entries@[b].index,
        decreases entries@.len() - i,
    {
        let mut j: usize = 0;
        while j < entries.len()
            invariant
                i < entries@.len(),
                j <= entries@.len(),
                forall|a: int, b: int|
                    0 <= a < i && 0 <= b < entries@.len() && a != b ==> (#[trigger] entries@[a]).id
                        != (#[trigger] entries@[b]).id && entries@[a].index != entries@[b].index,
                forall|b: int|
                    0 <= b < j && b != i ==> entries@[i as int].id != (#[trigger] entries@[b]).id
                        && entries@[i as int].index != entries@[b].index,
            decreases entries@.len() - j,
        {
            if j != i && (entries[i].id == entries[j].id || entries[i].index == entries[j].index) {
                return false;
            }
            j = j + 1;
        }
        i = i + 1;
    }
    proof {
        assert forall|a: int, b: int|
            0 <= a < entries@.len() && 0 <= b < entries@.len() && a != b implies (#[trigger] entries@[a]).id
                != (#[trigger] entries@[b]).id && entries@[a].index != entries@[b].index by {
        }
    }
    true
}

/// Whether no two rules share a position in the semantic map.
fn semantics_are_unique(entries: &Vec<(usize, usize)>) -> (r: bool)
    ensures
        r == semantics_unique(entries@),
{
    let mut i: usize = 0;
    while i < entries.len()
        invariant
            i <= entries@.len(),
            forall|a: int, b: int|
                0 <= a < i && 0 <= b < entries@.len() && a != b ==> (#[trigger] entries@[a]).1
                    != (#[trigger] entries@[b]).1,
        decreases entries@.len() - i,
    {
        let mut j: usize = 0;
        while j < entries.len()
            invariant
                i < entries@.len(),
                j <= entries@.len(),
                forall|a: int, b: int|
                    0 <= a < i && 0 <= b < entries@.len() && a != b ==> (#[trigger] entries@[a]).1
                        != (#[trigger] entries@[b]).1,
                forall|b: int| 0 <= b < j && b != i ==> entries@[i as int].1 != (#[trigger] entries@[b]).1,
            decreases entries@.len() - j,
        {
            if j != i && entries[i].1 == entries[j].1 {
                return false;
            }
            j = j + 1;
        }
        i = i + 1;
    }
    true
}

/// Whether every entry's index is below `bound`.
fn indices_below(entries: &Vec<TableEntry>, bound: usize) -> (r: bool)
    ensures
        r == forall|i: int| 0 <= i < entries@.len() ==> (#[trigger] entries@[i]).index < bound,
{
    let mut i: usize = 0;
    while i < entries.len()
        invariant
            i <= entries@.len(),
            forall|k: int| 0 <= k < i ==> (#[trigger] entries@[k]).index < bound,
        decreases entries@.len() - i,
    {
        if entries[i].index >= bound {
            return false;
        }
        i = i + 1;
    }
    true
}

/// Whether every value of `v` is below `bound`.
fn values_below(v: &Vec<usize>, bound: usize) -> (r: bool)
    ensures
        r == forall|i: int| 0 <= i < v@.len() ==> #[trigger] v@[i] < bound,
{
    let mut i: usize = 0;
    while i < v.len()
        invariant
            i <= v@.len(),
            forall|k: int| 0 <= k < i ==> #[trigger] v@[k] < bound,
        decreases v@.len() - i,
    {
        if v[i] >= bound {
            return false;
        }
        i = i + 1;
    }
    true
}

impl Tables {
    /// Whether the tables have the shape that the driver and the planner
    /// rely on.
    pub fn is_well_formed(&self) -> (r: bool)
        ensures
            r == self.wf(),
    {
        let ns = self.shift.len();
        if ns == 0 || self.jump.len() != ns || self.reduce.len() != ns
            || self.partials_rule_term.len() != ns || self.partials_rule_nonterm.len() != ns
            || self.partials_matchlen_term.len() != ns || self.partials_matchlen_nonterm.len() != ns
            || self.partials_lhs_nonterm.len() != ns {
            return false;
        }
        let nt = self.shift[0].len();
        let nn = self.jump[0].len();
        let nr = self.num_rhs_syms.len();
        if !rows_have_len(&self.shift, nt) || !rows_have_len(&self.reduce, nt)
            || !rows_have_len(&self.partials_rule_term, nt)
            || !rows_have_len(&self.partials_matchlen_term, nt) || !rows_have_len(&self.jump, nn)
            || !rows_have_len(&self.partials_rule_nonterm, nn)
            || !rows_have_len(&self.partials_matchlen_nonterm, nn)
            || !rows_have_len(&self.partials_lhs_nonterm, nn) {
            return false;
        }
        if self.lhs_idx.len() != nr || self.start >= ns || self.err < ns || self.err < nr
            || self.err == self.acc {
            return false;
        }
        let shifts_ok = cells_below(&self.shift, self.err, self.err, ns);
        let reduces_ok = cells_below(&self.reduce, self.err, self.acc, nr);
        let jumps_ok = cells_below(&self.jump, self.err, self.err, ns);
        let lhs_ok = values_below(&self.lhs_idx, nn);
        let terms_ok = indices_below(&self.term_idx, nt);
        let nonterms_ok = indices_below(&self.nonterm_idx, nn);
        let r = shifts_ok && reduces_ok && jumps_ok && lhs_ok && terms_ok && nonterms_ok
            && entries_are_unique(&self.term_idx) && entries_are_unique(&self.nonterm_idx)
            && semantics_are_unique(&self.semantic_idx);
        proof {
            if shifts_ok && reduces_ok {
                assert forall|s: int, t: int| 0 <= s < ns && 0 <= t < nt implies {
                    &&& #[trigger] self.shift_at(s, t) == self.err || self.shift_at(s, t) < ns
                    &&& self.reduce_at(s, t) == self.err || self.reduce_at(s, t) == self.acc
                        || self.reduce_at(s, t) < self.num_rules()
                } by {
                    assert(self.shift@[s]@.len() == nt);
                    assert(self.reduce@[s]@.len() == nt);
                    assert(self.shift@[s]@[t] == self.shift_at(s, t));
                }
            }
            if !shifts_ok {
                let (s, t) = choose|s: int, t: int|
                    0 <= s < self.shift@.len() && 0 <= t < self.shift@[s]@.len() && !(#[trigger] self.shift@[s]@[t] == self.err || self.shift@[s]@[t] < ns);
                assert(!(self.shift_at(s, t) == self.err || self.shift_at(s, t) < ns));
            }
            if !reduces_ok {
                let (s, t) = choose|s: int, t: int|
                    0 <= s < self.reduce@.len() && 0 <= t < self.reduce@[s]@.len() && !(#[trigger] self.reduce@[s]@[t] == self.err || self.reduce@[s]@[t] == self.acc || self.reduce@[s]@[t] < nr);
                assert(self.reduce@[s]@.len() == nt);
                assert(self.shift_at(s, t) == self.shift@[s]@[t]);
                assert(!(self.reduce_at(s, t) == self.err || self.reduce_at(s, t) == self.acc || self.reduce_at(s, t) < nr));
            }
            if jumps_ok {
                assert forall|s: int, n: int| 0 <= s < ns && 0 <= n < nn implies #[trigger] self.jump_at(s, n) == self.err
                    || self.jump_at(s, n) < ns by {
                    assert(self.jump@[s]@.len() == nn);
                }
            } else {
                let (s, n) = choose|s: int, n: int|
                    0 <= s < self.jump@.len() && 0 <= n < self.jump@[s]@.len() && !(#[trigger] self.jump@[s]@[n] == self.err || self.jump@[s]@[n] < ns);
                assert(!(self.jump_at(s, n) == self.err || self.jump_at(s, n) < ns));
            }
            if r {
                assert(self.wf());
            } else {
                if !lhs_ok {
                    let q = choose|q: int| 0 <= q < self.lhs_idx@.len() && !(#[trigger] self.lhs_idx@[q] < nn);
                    assert(!(self.lhs_idx@[q] < nn));
                }
                if !terms_ok {
                    let q = choose|q: int| 0 <= q < self.term_idx@.len() && !((#[trigger] self.term_idx@[q]).index < nt);
                    assert(!(self.term_idx@[q].index < nt));
                }
                if !nonterms_ok {
                    let q = choose|q: int| 0 <= q < self.nonterm_idx@.len() && !((#[trigger] self.nonterm_idx@[q]).index < nn);
                    assert(!(self.nonterm_idx@[q].index < nn));
                }
                assert(!self.wf());
            }
        }
        r
    }
}

} // verus!
