//! The template store: the templates found so far, and the insertion of a
//! line into them.
use vstd::prelude::*;

use crate::object::{
    lcs_len, lemma_lcs_len_empty_candidate, lemma_merged_single_gaps, owned_tokens, single_gaps, template_text, token_views,
    LcsObject, TemplateModel,
};
use crate::text::{decimal, decimal_string};
use crate::tokenizer::{tokenize, tokens_of};
use crate::{LcsDelimiters, LcsSeq, LineId};

verus! {

/// Whether a template of `len` tokens is close enough in size to a line of
/// `n` tokens to be compared with it: between half and twice as long.
pub open spec fn in_window(len: int, n: int) -> bool {
    n / 2 <= len && len <= n * 2
}

/// The candidate search over the first `k` templates: the best template so
/// far and its common-subsequence length. A template in the size window
/// becomes the best when its length reaches half the line's token count and
/// exceeds the best so far; on a tie the earlier template stays.
pub open spec fn search(ts: Seq<TemplateModel>, cand: Seq<Seq<char>>, k: int) -> (Option<int>, nat)
    decreases k,
{
    if k <= 0 {
        (None, 0)
    } else {
        let (best, best_len) = search(ts, cand, k - 1);
        let t = ts[k - 1];
        if !in_window(t.tokens.len() as int, cand.len() as int) {
            (best, best_len)
        } else {
            let l = lcs_len(t.tokens, cand);
            if l >= cand.len() / 2 && l > best_len {
                (Some(k - 1), l)
            } else {
                (best, best_len)
            }
        }
    }
}

/// The index of the template that a line with tokens `cand` joins, if any.
pub open spec fn best_match(ts: Seq<TemplateModel>, cand: Seq<Seq<char>>) -> Option<int> {
    search(ts, cand, ts.len() as int).0
}

/// The number of lines absorbed by the templates `ts` together.
pub open spec fn total_ids(ts: Seq<TemplateModel>) -> int
    decreases ts.len(),
{
    if ts.len() == 0 {
        0
    } else {
        total_ids(ts.drop_last()) + ts.last().ids.len()
    }
}

/// One template of a store as text, with its position.
pub open spec fn block_text(i: nat, t: TemplateModel) -> Seq<char> {
    "\tObject "@ + decimal(i) + ":\n\t\t"@ + template_text(t) + "\n"@
}

/// The templates `ts` as text, one block each, in order.
pub open spec fn blocks_text(ts: Seq<TemplateModel>) -> Seq<char>
    decreases ts.len(),
{
    if ts.len() == 0 {
        Seq::empty()
    } else {
        blocks_text(ts.drop_last()) + block_text((ts.len() - 1) as nat, ts.last())
    }
}

/// A store as text: the number of templates, each template, and a footer
/// with the lines the templates absorbed together against the identifiers
/// issued.
pub open spec fn store_text(m: StoreModel) -> Seq<char> {
    "\t"@ + decimal(m.templates.len()) + " Objects in the LCSMap\n\n"@ + blocks_text(m.templates)
        + "\n\t"@ + decimal(total_ids(m.templates) as nat) + " total entries found, "@ + decimal(
        m.next_id as nat,
    ) + " expected."@
}

/// The store after the lines `lines` were inserted into `m`, in order.
pub open spec fn replay(m: StoreModel, lines: Seq<Seq<char>>) -> StoreModel
    decreases lines.len(),
{
    if lines.len() == 0 {
        m
    } else {
        replay(m, lines.drop_last()).insert_line(lines.last())
    }
}

/// What a store is: its templates in order of discovery, the next line
/// identifier, and the delimiters its lines are split at.
pub struct StoreModel {
    pub templates: Seq<TemplateModel>,
    pub next_id: LineId,
    pub delimiters: Seq<char>,
}

impl TemplateModel {
    /// The template's lines are there, strictly increasing, and all below `n`.
    pub open spec fn ids_below(self, n: LineId) -> bool {
        &&& self.ids.len() > 0
        &&& forall|a: int, b: int| 0 <= a < b < self.ids.len() ==> self.ids[a] < self.ids[b]
        &&& forall|a: int| 0 <= a < self.ids.len() ==> self.ids[a] < n
    }
}

impl StoreModel {
    /// A store with no template and no line yet.
    pub open spec fn empty(delimiters: Seq<char>) -> StoreModel {
        StoreModel { templates: Seq::empty(), next_id: 0, delimiters }
    }

    /// Every line issued so far is counted in exactly one template's lines,
    /// and each template's lines are in order.
    pub open spec fn wf(self) -> bool {
        &&& total_ids(self.templates) == self.next_id
        &&& forall|i: int| 0 <= i < self.templates.len() ==> #[trigger] self.templates[i].ids_below(self.next_id)
    }

    /// No template holds two wildcards next to each other.
    pub open spec fn single_gaps(self) -> bool {
        forall|i: int| 0 <= i < self.templates.len() ==> single_gaps(#[trigger] self.templates[i].tokens)
    }

    /// The store after the line `line` was inserted.
    pub open spec fn insert_line(self, line: Seq<char>) -> StoreModel {
        let cand = tokens_of(line, self.delimiters);
        StoreModel {
            templates: match best_match(self.templates, cand) {
                Some(i) => self.templates.update(i, self.templates[i].absorb(cand, self.next_id)),
                None => self.templates.push(TemplateModel::founded(cand, self.next_id)),
            },
            next_id: (self.next_id + 1) as LineId,
            delimiters: self.delimiters,
        }
    }
}

/// A store of templates.
#[derive(Debug, PartialEq)]
pub struct LcsMap {
    pub seq: Vec<LcsObject>,
    pub line_id: LineId,
    pub delimiters: LcsDelimiters,
}

impl View for LcsMap {
    type V = StoreModel;

    open spec fn view(&self) -> StoreModel {
        StoreModel {
            templates: self.seq@.map_values(|o: LcsObject| o@),
            next_id: self.line_id,
            delimiters: self.delimiters@,
        }
    }
}

proof fn lemma_search_bounds(ts: Seq<TemplateModel>, cand: Seq<Seq<char>>, k: int)
    ensures
        search(ts, cand, k).0 matches Some(b) ==> 0 <= b < k,
    decreases k,
{
    if k > 0 {
        lemma_search_bounds(ts, cand, k - 1);
    }
}

proof fn lemma_total_ids_push(ts: Seq<TemplateModel>, t: TemplateModel)
    ensures
        total_ids(ts.push(t)) == total_ids(ts) + t.ids.len(),
{
    assert(ts.push(t).drop_last() =~= ts);
}

proof fn lemma_total_ids_update(ts: Seq<TemplateModel>, i: int, t: TemplateModel)
    requires
        0 <= i < ts.len(),
    ensures
        total_ids(ts.update(i, t)) == total_ids(ts) - ts[i].ids.len() + t.ids.len(),
    decreases ts.len(),
{
    if i == ts.len() - 1 {
        assert(ts.update(i, t).drop_last() =~= ts.drop_last());
    } else {
        lemma_total_ids_update(ts.drop_last(), i, t);
        assert(ts.update(i, t).drop_last() =~= ts.drop_last().update(i, t));
    }
}

proof fn lemma_total_ids_take(ts: Seq<TemplateModel>, k: int)
    requires
        0 <= k < ts.len(),
    ensures
        total_ids(ts.take(k + 1)) == total_ids(ts.take(k)) + ts[k].ids.len(),
        blocks_text(ts.take(k + 1)) == blocks_text(ts.take(k)) + block_text(k as nat, ts[k]),
{
    assert(ts.take(k + 1).drop_last() =~= ts.take(k));
}

proof fn lemma_total_ids_prefix(ts: Seq<TemplateModel>, k: int)
    requires
        0 <= k <= ts.len(),
    ensures
        total_ids(ts.take(k)) <= total_ids(ts),
    decreases ts.len() - k,
{
    if k == ts.len() {
        assert(ts.take(k) =~= ts);
    } else {
        lemma_total_ids_take(ts, k);
        lemma_total_ids_prefix(ts, k + 1);
    }
}

/// Each insertion adds exactly one line to the lines absorbed by all
/// templates together, whatever the store held before.
pub proof fn lemma_insert_adds_one_line(m: StoreModel, line: Seq<char>)
    ensures
        total_ids(m.insert_line(line).templates) == total_ids(m.templates) + 1,
{
    let cand = tokens_of(line, m.delimiters);
    lemma_search_bounds(m.templates, cand, m.templates.len() as int);
    match best_match(m.templates, cand) {
        Some(i) => {
            lemma_total_ids_update(m.templates, i, m.templates[i].absorb(cand, m.next_id));
        },
        None => {
            lemma_total_ids_push(m.templates, TemplateModel::founded(cand, m.next_id));
        },
    }
}

proof fn lemma_search_empty_candidate(ts: Seq<TemplateModel>, k: int)
    requires
        k <= ts.len(),
    ensures
        search(ts, Seq::empty(), k).0 is None,
        search(ts, Seq::empty(), k).1 == 0,
    decreases k,
{
    if k > 0 {
        lemma_search_empty_candidate(ts, k - 1);
        lemma_lcs_len_empty_candidate(ts[k - 1].tokens);
    }
}

/// A line with no tokens (an empty or blank line) matches no template: it
/// founds a new template with no tokens.
pub proof fn lemma_blank_line_founds_template(m: StoreModel, line: Seq<char>)
    requires
        tokens_of(line, m.delimiters).len() == 0,
    ensures
        m.insert_line(line).templates == m.templates.push(
            TemplateModel::founded(Seq::empty(), m.next_id),
        ),
{
    assert(tokens_of(line, m.delimiters) =~= Seq::<Seq<char>>::empty());
    lemma_search_empty_candidate(m.templates, m.templates.len() as int);
}

/// Inserting a line into a well-formed store keeps it well formed: in
/// particular the lines absorbed by all templates together still number
/// exactly the identifiers issued.
pub proof fn lemma_insert_keeps_wf(m: StoreModel, line: Seq<char>)
    requires
        m.wf(),
        m.next_id < usize::MAX,
    ensures
        m.insert_line(line).wf(),
        total_ids(m.insert_line(line).templates) == m.insert_line(line).next_id,
{
    let cand = tokens_of(line, m.delimiters);
    let n = m.insert_line(line);
    lemma_search_bounds(m.templates, cand, m.templates.len() as int);
    match best_match(m.templates, cand) {
        Some(i) => {
            let t = m.templates[i].absorb(cand, m.next_id);
            lemma_total_ids_update(m.templates, i, t);
            assert(m.templates[i].ids_below(m.next_id));
            assert(t.ids.last() == m.next_id);
            assert forall|j: int| 0 <= j < n.templates.len() implies #[trigger] n.templates[j].ids_below(n.next_id) by {
                assert(m.templates[j].ids_below(m.next_id));
            }
        },
        None => {
            let t = TemplateModel::founded(cand, m.next_id);
            lemma_total_ids_push(m.templates, t);
            assert forall|j: int| 0 <= j < n.templates.len() implies #[trigger] n.templates[j].ids_below(n.next_id) by {
                if j < m.templates.len() {
                    assert(m.templates[j].ids_below(m.next_id));
                }
            }
        },
    }
}

/// Inserting a line whose own tokens hold no two wildcards next to each
/// other keeps every template free of adjacent wildcards.
pub proof fn lemma_insert_keeps_single_gaps(m: StoreModel, line: Seq<char>)
    requires
        m.single_gaps(),
        single_gaps(tokens_of(line, m.delimiters)),
    ensures
        m.insert_line(line).single_gaps(),
{
    let cand = tokens_of(line, m.delimiters);
    let n = m.insert_line(line);
    lemma_search_bounds(m.templates, cand, m.templates.len() as int);
    if let Some(i) = best_match(m.templates, cand) {
        lemma_merged_single_gaps(m.templates[i].tokens, cand);
    }
    assert forall|j: int| 0 <= j < n.templates.len() implies single_gaps(#[trigger] n.templates[j].tokens) by {
        if j < m.templates.len() {
            assert(single_gaps(m.templates[j].tokens));
        }
    }
}

/// After any sequence of insertions into a fresh store, the store is well
/// formed: the lines absorbed by all templates together number exactly the
/// identifiers issued, one per line.
pub proof fn lemma_replay_keeps_wf(d: Seq<char>, lines: Seq<Seq<char>>)
    requires
        lines.len() < usize::MAX,
    ensures
        replay(StoreModel::empty(d), lines).wf(),
        replay(StoreModel::empty(d), lines).next_id == lines.len(),
        total_ids(replay(StoreModel::empty(d), lines).templates) == lines.len(),
    decreases lines.len(),
{
    if lines.len() == 0 {
        assert(total_ids(Seq::<TemplateModel>::empty()) == 0);
    } else {
        lemma_replay_keeps_wf(d, lines.drop_last());
        lemma_insert_keeps_wf(replay(StoreModel::empty(d), lines.drop_last()), lines.last());
    }
}

/// Building a store afresh from the same lines, in the same order and with
/// the same delimiters, gives the same text character for character.
pub proof fn lemma_replay_text_reproducible(d: Seq<char>, e: Seq<char>, lines: Seq<Seq<char>>)
    requires
        d == e,
    ensures
        store_text(replay(StoreModel::empty(d), lines)) == store_text(
            replay(StoreModel::empty(e), lines),
        ),
{
}

/// Inserting a line never removes a template, and never takes a line away
/// from one: each template's lines before are a prefix of its lines after.
pub proof fn lemma_insert_monotone(m: StoreModel, line: Seq<char>)
    ensures
        m.insert_line(line).templates.len() >= m.templates.len(),
        forall|i: int|
            0 <= i < m.templates.len() ==> (#[trigger] m.templates[i]).ids.is_prefix_of(
                m.insert_line(line).templates[i].ids,
            ),
{
    let cand = tokens_of(line, m.delimiters);
    let n = m.insert_line(line);
    lemma_search_bounds(m.templates, cand, m.templates.len() as int);
    assert forall|i: int| 0 <= i < m.templates.len() implies (#[trigger] m.templates[i]).ids.is_prefix_of(
        n.templates[i].ids,
    ) by {
        assert(m.templates[i].ids =~= n.templates[i].ids.subrange(0, m.templates[i].ids.len() as int));
    }
}

impl Default for LcsMap {
    /// An empty store with no delimiters.
    fn default() -> (r: LcsMap)
        ensures
            r@ == StoreModel::empty(Seq::empty()),
    {
        let r = LcsMap { seq: Vec::new(), line_id: 0, delimiters: Vec::new() };
        assert(r@.templates =~= Seq::<TemplateModel>::empty());
        r
    }
}

impl LcsMap {
    /// An empty store that splits lines at spaces.
    pub fn new() -> (r: LcsMap)
        ensures
            r@ == StoreModel::empty(seq![' ']),
            r@.wf(),
    {
        let r = LcsMap { seq: Vec::new(), line_id: 0, delimiters: vec![' '] };
        assert(r@.templates =~= Seq::<TemplateModel>::empty());
        assert(r.delimiters@ =~= seq![' ']);
        r
    }

    /// An empty store that splits lines at the given delimiters.
    pub fn with_delimiters(delimiters: Vec<char>) -> (r: LcsMap)
        ensures
            r@ == StoreModel::empty(delimiters@),
            r@.wf(),
    {
        let r = LcsMap { seq: Vec::new(), line_id: 0, delimiters };
        assert(r@.templates =~= Seq::<TemplateModel>::empty());
        r
    }

    /// The index of the template that a line with tokens `tokenized` joins,
    /// if any.
    pub fn best_match_index(&self, tokenized: &LcsSeq) -> (r: Option<usize>)
        ensures
            match r {
                Some(i) => best_match(self@.templates, token_views(tokenized@)) == Some(i as int),
                None => best_match(self@.templates, token_views(tokenized@)) is None,
            },
    {
        let ghost ts = self@.templates;
        let ghost cand = token_views(tokenized@);
        let n = tokenized.len();
        let mut best: Option<usize> = None;
        let mut best_len: usize = 0;
        let mut k: usize = 0;
        while k < self.seq.len()
            invariant
                k <= self.seq@.len(),
                ts == self@.templates,
                cand == token_views(tokenized@),
                n == cand.len(),
                search(ts, cand, k as int).1 == best_len as nat,
                match best {
                    Some(b) => search(ts, cand, k as int).0 == Some(b as int),
                    None => search(ts, cand, k as int).0 is None,
                },
            decreases self.seq@.len() - k,
        {
            let obj = &self.seq[k];
            assert(ts[k as int] == obj@);
            let len = obj.length();
            if len >= n / 2 && (len <= n || len - n <= n) {
                let l = obj.get_lcs(tokenized);
                if l >= n / 2 && l > best_len {
                    best = Some(k);
                    best_len = l;
                }
            }
            k += 1;
        }
        best
    }

    /// The template that a line with tokens `tokenized` would join, if any.
    pub fn get_match(&self, tokenized: &LcsSeq) -> (r: Option<&LcsObject>)
        ensures
            r == match best_match(self@.templates, token_views(tokenized@)) {
                Some(i) => Some(&self.seq@[i]),
                None => None,
            },
    {
        proof {
            lemma_search_bounds(
                self@.templates,
                token_views(tokenized@),
                self@.templates.len() as int,
            );
        }
        match self.best_match_index(tokenized) {
            Some(i) => Some(&self.seq[i]),
            None => None,
        }
    }

    /// The template that a line with tokens `tokenized` would join, if any,
    /// for the caller to change in place.
    pub fn get_match_mut(&mut self, tokenized: &LcsSeq) -> (r: Option<&mut LcsObject>)
        ensures
            match best_match(old(self)@.templates, token_views(tokenized@)) {
                Some(i) => {
                    &&& r.is_some()
                    &&& *r.unwrap() == old(self).seq@[i]
                    &&& final(self).seq@ == old(self).seq@.update(i, *final(r.unwrap()))
                    &&& final(self).line_id == old(self).line_id
                    &&& final(self).delimiters == old(self).delimiters
                },
                None => r.is_none() && *final(self) == *old(self),
            },
    {
        proof {
            lemma_search_bounds(
                self@.templates,
                token_views(tokenized@),
                self@.templates.len() as int,
            );
        }
        match self.best_match_index(tokenized) {
            Some(i) => Some(&mut self.seq[i]),
            None => None,
        }
    }

    /// Inserts a line: it gets the next identifier, and joins the template
    /// it matches best, or founds a new one.
    pub fn insert(&mut self, entry: &str)
        requires
            old(self).line_id < usize::MAX,
        ensures
            final(self)@ == old(self)@.insert_line(entry@),
            final(self).line_id == old(self).line_id + 1,
            total_ids(final(self)@.templates) == total_ids(old(self)@.templates) + 1,
            old(self)@.wf() ==> final(self)@.wf(),
            final(self)@.templates.len() >= old(self)@.templates.len(),
            forall|i: int|
                0 <= i < old(self)@.templates.len() ==> (#[trigger] old(self)@.templates[i]).ids.is_prefix_of(
                    final(self)@.templates[i].ids,
                ),
            old(self)@.single_gaps() && single_gaps(tokens_of(entry@, old(self).delimiters@))
                ==> final(self)@.single_gaps(),
            tokens_of(entry@, old(self).delimiters@).len() == 0 ==> final(self)@.templates
                == old(self)@.templates.push(TemplateModel::founded(Seq::empty(), old(self).line_id)),
    {
        let pieces = tokenize(entry, self.delimiters.as_slice());
        let tokenized = owned_tokens(pieces.as_slice());
        let line_id = self.line_id;
        let ghost before = self@;
        let ghost cand = token_views(tokenized@);
        proof {
            lemma_search_bounds(before.templates, cand, before.templates.len() as int);
        }
        match self.best_match_index(&tokenized) {
            None => {
                let obj = LcsObject::new(tokenized, line_id);
                self.seq.push(obj);
            },
            Some(i) => {
                self.seq[i].insert(tokenized, line_id);
            },
        }
        self.line_id = line_id + 1;
        assert(self@.templates =~= before.insert_line(entry@).templates);
        proof {
            lemma_insert_adds_one_line(before, entry@);
            lemma_insert_monotone(before, entry@);
            if before.wf() {
                lemma_insert_keeps_wf(before, entry@);
            }
            if before.single_gaps() && single_gaps(tokens_of(entry@, before.delimiters)) {
                lemma_insert_keeps_single_gaps(before, entry@);
            }
            if tokens_of(entry@, before.delimiters).len() == 0 {
                lemma_blank_line_founds_template(before, entry@);
            }
        }
    }

    /// The store as text.
    pub fn to_string(&self) -> (r: String)
        requires
            total_ids(self@.templates) <= usize::MAX,
        ensures
            r@ == store_text(self@),
    {
        let ghost ts = self@.templates;
        let mut out = String::new();
        out.append("\t");
        let n = decimal_string(self.size());
        out.append(n.as_str());
        out.append(" Objects in the LCSMap\n\n");
        let ghost head = out@;
        let mut entry_count: usize = 0;
        let mut i: usize = 0;
        while i < self.seq.len()
            invariant
                i <= self.seq@.len(),
                ts == self@.templates,
                total_ids(ts) <= usize::MAX,
                out@ == head + blocks_text(ts.take(i as int)),
                entry_count == total_ids(ts.take(i as int)),
            decreases self.seq@.len() - i,
        {
            proof {
                lemma_total_ids_take(ts, i as int);
                lemma_total_ids_prefix(ts, i + 1);
            }
            let obj = &self.seq[i];
            assert(ts[i as int] == obj@);
            let ghost before = out@;
            out.append("\tObject ");
            let k = decimal_string(i);
            out.append(k.as_str());
            out.append(":\n\t\t");
            let o = obj.to_string();
            out.append(o.as_str());
            out.append("\n");
            assert(out@ =~= before + block_text(i as nat, ts[i as int]));
            entry_count = entry_count + obj.count();
            i += 1;
        }
        assert(ts.take(ts.len() as int) =~= ts);
        out.append("\n\t");
        let e = decimal_string(entry_count);
        out.append(e.as_str());
        out.append(" total entries found, ");
        let l = decimal_string(self.line_id);
        out.append(l.as_str());
        out.append(" expected.");
        out
    }

    fn size(&self) -> (r: usize)
        ensures
            r == self@.templates.len(),
    {
        self.seq.len()
    }
}

} // verus!
