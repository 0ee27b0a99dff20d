//! Templates: a generalised token sequence and the lines it absorbed.
use vstd::prelude::*;

use crate::text::{decimal, decimal_string, join, lemma_join_take};
use crate::tokenizer::{str_views, tokenize, tokens_of};
use crate::{LcsSeq, LineId};

verus! {

/// The wildcard token, standing for a position where absorbed lines differ.
pub open spec fn wildcard() -> Seq<char> {
    seq!['*']
}

/// The views of a sequence of owned tokens.
pub open spec fn token_views(v: Seq<String>) -> Seq<Seq<char>> {
    v.map_values(|t: String| t@)
}

/// The first position at or after `from` where `cand` holds `t`.
pub open spec fn find_from(cand: Seq<Seq<char>>, t: Seq<char>, from: int) -> Option<int>
    decreases cand.len() - from,
{
    if from < 0 || from >= cand.len() {
        None
    } else if cand[from] == t {
        Some(from)
    } else {
        find_from(cand, t, from + 1)
    }
}

/// The greedy common-subsequence scan of `tpl` against `cand`, after the
/// first `n` template tokens: the number of literals found, and the cursor
/// into `cand`. A wildcard of the template is skipped; a literal is looked
/// for from the cursor on, and a hit moves the cursor past it.
pub open spec fn lcs_scan(tpl: Seq<Seq<char>>, cand: Seq<Seq<char>>, n: int) -> (nat, int)
    decreases n,
{
    if n <= 0 {
        (0, 0)
    } else {
        let (count, cursor) = lcs_scan(tpl, cand, n - 1);
        let t = tpl[n - 1];
        if t == wildcard() {
            (count, cursor)
        } else {
            match find_from(cand, t, cursor) {
                Some(j) => ((count + 1) as nat, j + 1),
                None => (count, cursor),
            }
        }
    }
}

/// How many literals of `tpl` the greedy scan finds, in order, in `cand`.
pub open spec fn lcs_len(tpl: Seq<Seq<char>>, cand: Seq<Seq<char>>) -> nat {
    lcs_scan(tpl, cand, tpl.len() as int).0
}

pub open spec fn ends_in_wildcard(out: Seq<Seq<char>>) -> bool {
    out.len() > 0 && out.last() == wildcard()
}

/// `out` ending in a wildcard: one is added unless it is there already.
pub open spec fn with_gap(out: Seq<Seq<char>>) -> Seq<Seq<char>> {
    if ends_in_wildcard(out) {
        out
    } else {
        out.push(wildcard())
    }
}

/// The merge of `old` with `cand` after the first `n` old tokens: the tokens
/// emitted so far, and the cursor into `cand`.
/// A wildcard of `old` leaves a gap. A literal is looked for from the cursor
/// on: found, it is kept and the cursor moves past it; not found, it becomes
/// a gap, unless nothing is left of `cand` to scan, in which case it is
/// dropped.
pub open spec fn merge_scan(old: Seq<Seq<char>>, cand: Seq<Seq<char>>, n: int) -> (
    Seq<Seq<char>>,
    int,
)
    decreases n,
{
    if n <= 0 {
        (Seq::empty(), 0)
    } else {
        let (out, cursor) = merge_scan(old, cand, n - 1);
        let t = old[n - 1];
        if t == wildcard() {
            (with_gap(out), cursor)
        } else {
            match find_from(cand, t, cursor) {
                Some(j) => (out.push(t), j + 1),
                None => (
                    if cursor < cand.len() {
                        with_gap(out)
                    } else {
                        out
                    },
                    cursor,
                ),
            }
        }
    }
}

/// The tokens of a template with tokens `old` after it absorbed a line with
/// tokens `cand`.
pub open spec fn merged(old: Seq<Seq<char>>, cand: Seq<Seq<char>>) -> Seq<Seq<char>> {
    merge_scan(old, cand, old.len() as int).0
}

/// No two wildcards stand next to each other.
pub open spec fn single_gaps(ts: Seq<Seq<char>>) -> bool {
    forall|k: int| 0 <= k < ts.len() - 1 ==> !(#[trigger] ts[k] == wildcard() && ts[k + 1] == wildcard())
}

/// The decimal texts of line identifiers.
pub open spec fn id_texts(ids: Seq<LineId>) -> Seq<Seq<char>> {
    ids.map_values(|i: LineId| decimal(i as nat))
}

/// A template as text: its tokens separated by spaces, then on the next line,
/// indented by two tabs, its lines in braces, separated by a comma and a
/// space.
pub open spec fn template_text(t: TemplateModel) -> Seq<char> {
    join(t.tokens, " "@) + "\n\t\t{"@ + join(id_texts(t.ids), ", "@) + "}"@
}

/// What a template is: its tokens, and the lines it absorbed in order.
pub struct TemplateModel {
    pub tokens: Seq<Seq<char>>,
    pub ids: Seq<LineId>,
}

impl TemplateModel {
    /// A template founded by one line.
    pub open spec fn founded(tokens: Seq<Seq<char>>, id: LineId) -> TemplateModel {
        TemplateModel { tokens, ids: seq![id] }
    }

    /// This template after it absorbed line `id` with tokens `cand`.
    pub open spec fn absorb(self, cand: Seq<Seq<char>>, id: LineId) -> TemplateModel {
        TemplateModel { tokens: merged(self.tokens, cand), ids: self.ids.push(id) }
    }
}

/// A template.
#[derive(Debug, PartialEq)]
pub struct LcsObject {
    pub tokens: LcsSeq,
    pub lines_ids: Vec<LineId>,
}

impl View for LcsObject {
    type V = TemplateModel;

    open spec fn view(&self) -> TemplateModel {
        TemplateModel { tokens: token_views(self.tokens@), ids: self.lines_ids@ }
    }
}

impl Default for LcsObject {
    /// A template with no token and no line.
    fn default() -> (r: LcsObject)
        ensures
            r@ == (TemplateModel { tokens: Seq::empty(), ids: Seq::empty() }),
    {
        let r = LcsObject { tokens: Vec::new(), lines_ids: Vec::new() };
        assert(r@.tokens =~= Seq::<Seq<char>>::empty());
        r
    }
}

proof fn lemma_find_from_bounds(cand: Seq<Seq<char>>, t: Seq<char>, from: int)
    requires
        0 <= from,
    ensures
        find_from(cand, t, from) matches Some(j) ==> from <= j < cand.len() && cand[j] == t,
    decreases cand.len() - from,
{
    if from < cand.len() && cand[from] != t {
        lemma_find_from_bounds(cand, t, from + 1);
    }
}

proof fn lemma_lcs_scan_bounds(tpl: Seq<Seq<char>>, cand: Seq<Seq<char>>, n: int)
    requires
        0 <= n <= tpl.len(),
    ensures
        lcs_scan(tpl, cand, n).0 <= n,
        0 <= lcs_scan(tpl, cand, n).1 <= cand.len(),
    decreases n,
{
    if n > 0 {
        lemma_lcs_scan_bounds(tpl, cand, n - 1);
        lemma_find_from_bounds(cand, tpl[n - 1], lcs_scan(tpl, cand, n - 1).1);
    }
}

proof fn lemma_merge_scan_bounds(old: Seq<Seq<char>>, cand: Seq<Seq<char>>, n: int)
    requires
        0 <= n <= old.len(),
    ensures
        0 <= merge_scan(old, cand, n).1 <= cand.len(),
    decreases n,
{
    if n > 0 {
        lemma_merge_scan_bounds(old, cand, n - 1);
        lemma_find_from_bounds(cand, old[n - 1], merge_scan(old, cand, n - 1).1);
    }
}

proof fn lemma_with_gap_single_gaps(out: Seq<Seq<char>>)
    requires
        single_gaps(out),
    ensures
        single_gaps(with_gap(out)),
        ends_in_wildcard(with_gap(out)),
{
    if !ends_in_wildcard(out) {
        let g = out.push(wildcard());
        assert forall|k: int| 0 <= k < g.len() - 1 implies !(#[trigger] g[k] == wildcard() && g[k + 1] == wildcard()) by {
            if k < out.len() - 1 {
                assert(!(out[k] == wildcard() && out[k + 1] == wildcard()));
            }
        }
    }
}

proof fn lemma_push_literal_single_gaps(out: Seq<Seq<char>>, t: Seq<char>)
    requires
        single_gaps(out),
        t != wildcard(),
    ensures
        single_gaps(out.push(t)),
{
    let g = out.push(t);
    assert forall|k: int| 0 <= k < g.len() - 1 implies !(#[trigger] g[k] == wildcard() && g[k + 1] == wildcard()) by {
        if k < out.len() - 1 {
            assert(!(out[k] == wildcard() && out[k + 1] == wildcard()));
        }
    }
}

proof fn lemma_merge_scan_single_gaps(old: Seq<Seq<char>>, cand: Seq<Seq<char>>, n: int)
    requires
        0 <= n <= old.len(),
    ensures
        single_gaps(merge_scan(old, cand, n).0),
    decreases n,
{
    if n > 0 {
        lemma_merge_scan_single_gaps(old, cand, n - 1);
        let out = merge_scan(old, cand, n - 1).0;
        lemma_with_gap_single_gaps(out);
        let t = old[n - 1];
        if t != wildcard() {
            lemma_push_literal_single_gaps(out, t);
        }
    }
}

/// A merge never leaves two wildcards next to each other, whatever the two
/// token sequences merged.
pub proof fn lemma_merged_single_gaps(old: Seq<Seq<char>>, cand: Seq<Seq<char>>)
    ensures
        single_gaps(merged(old, cand)),
{
    lemma_merge_scan_single_gaps(old, cand, old.len() as int);
}

proof fn lemma_merge_scan_len(old: Seq<Seq<char>>, cand: Seq<Seq<char>>, n: int)
    requires
        0 <= n <= old.len(),
    ensures
        merge_scan(old, cand, n).0.len() <= n,
    decreases n,
{
    if n > 0 {
        lemma_merge_scan_len(old, cand, n - 1);
    }
}

/// A merge never makes a template longer: each old token gives at most one
/// token of the result.
pub proof fn lemma_merged_no_longer(old: Seq<Seq<char>>, cand: Seq<Seq<char>>)
    ensures
        merged(old, cand).len() <= old.len(),
{
    lemma_merge_scan_len(old, cand, old.len() as int);
}

proof fn lemma_lcs_scan_empty(tpl: Seq<Seq<char>>, n: int)
    ensures
        lcs_scan(tpl, Seq::empty(), n) == (0nat, 0int),
    decreases n,
{
    if n > 0 {
        lemma_lcs_scan_empty(tpl, n - 1);
    }
}

/// Against a line with no tokens, the common-subsequence length of any
/// template is zero.
pub proof fn lemma_lcs_len_empty_candidate(tpl: Seq<Seq<char>>)
    ensures
        lcs_len(tpl, Seq::empty()) == 0,
{
    lemma_lcs_scan_empty(tpl, tpl.len() as int);
}

/// Whether `t` is the wildcard.
fn is_wildcard(t: &String) -> (r: bool)
    ensures
        r == (t@ == wildcard()),
{
    let s = t.as_str();
    let r = s.unicode_len() == 1 && s.get_char(0) == '*';
    assert(r ==> s@ =~= wildcard());
    r
}

/// A fresh wildcard token.
fn wildcard_token() -> (r: String)
    ensures
        r@ == wildcard(),
{
    proof {
        reveal_strlit("*");
    }
    String::from_str("*")
}

/// The first position at or after `from` where `cand` holds `t`.
fn find_token(cand: &LcsSeq, t: &String, from: usize) -> (r: Option<usize>)
    requires
        from <= cand@.len(),
    ensures
        match r {
            Some(j) => find_from(token_views(cand@), t@, from as int) == Some(j as int),
            None => find_from(token_views(cand@), t@, from as int) is None,
        },
{
    let ghost v = token_views(cand@);
    let mut j: usize = from;
    while j < cand.len()
        invariant
            from <= j <= cand@.len(),
            v == token_views(cand@),
            find_from(v, t@, from as int) == find_from(v, t@, j as int),
        decreases cand@.len() - j,
    {
        if cand[j] == *t {
            return Some(j);
        }
        j += 1;
    }
    None
}

/// Owned copies of string slices.
pub(crate) fn owned_tokens(v: &[&str]) -> (r: LcsSeq)
    ensures
        token_views(r@) == str_views(v@),
{
    let mut out: LcsSeq = Vec::new();
    let mut k: usize = 0;
    while k < v.len()
        invariant
            k <= v@.len(),
            token_views(out@) =~= str_views(v@.take(k as int)),
        decreases v@.len() - k,
    {
        let ghost before = token_views(out@);
        let t = String::from_str(v[k]);
        out.push(t);
        assert(token_views(out@) =~= before.push(t@));
        assert(v@.take(k + 1) =~= v@.take(k as int).push(v@[k as int]));
        k += 1;
    }
    assert(v@.take(v@.len() as int) =~= v@);
    out
}

impl LcsObject {
    /// A template founded by line `line_id`, split at spaces.
    pub fn from_str(s: &str, line_id: LineId) -> (r: LcsObject)
        ensures
            r@ == TemplateModel::founded(tokens_of(s@, seq![' ']), line_id),
    {
        let delimiters = [' '];
        assert(delimiters@ =~= seq![' ']);
        let tokens = tokenize(s, &delimiters);
        LcsObject::new(owned_tokens(tokens.as_slice()), line_id)
    }

    /// A template founded by line `line_id` with the given tokens.
    pub fn from_str_slice(tokens: &[&str], line_id: LineId) -> (r: LcsObject)
        ensures
            r@ == TemplateModel::founded(str_views(tokens@), line_id),
    {
        let r = LcsObject { tokens: owned_tokens(tokens), lines_ids: vec![line_id] };
        assert(r.lines_ids@ =~= seq![line_id]);
        r
    }

    /// A template founded by line `line_id` with the given tokens.
    pub fn new(tokens: LcsSeq, line_id: LineId) -> (r: LcsObject)
        ensures
            r@ == TemplateModel::founded(token_views(tokens@), line_id),
    {
        let r = LcsObject { tokens, lines_ids: vec![line_id] };
        assert(r.lines_ids@ =~= seq![line_id]);
        r
    }

    /// How many literals of this template the greedy scan finds, in order,
    /// in `other`.
    pub fn get_lcs(&self, other: &LcsSeq) -> (r: usize)
        ensures
            r == lcs_len(self@.tokens, token_views(other@)),
    {
        let ghost tpl = self@.tokens;
        let ghost cand = token_views(other@);
        let m = other.len();
        let mut count: usize = 0;
        let mut last_match: usize = 0;
        let mut i: usize = 0;
        while i < self.tokens.len()
            invariant
                i <= self.tokens@.len(),
                tpl == self@.tokens,
                cand == token_views(other@),
                (count as nat, last_match as int) == lcs_scan(tpl, cand, i as int),
                count <= i,
                last_match <= m,
                m == other@.len(),
            decreases self.tokens@.len() - i,
        {
            proof {
                lemma_lcs_scan_bounds(tpl, cand, i + 1);
            }
            let t = &self.tokens[i];
            if !is_wildcard(t) {
                match find_token(other, t, last_match) {
                    Some(j) => {
                        proof {
                            lemma_find_from_bounds(cand, t@, last_match as int);
                        }
                        count += 1;
                        last_match = j + 1;
                    },
                    None => {},
                }
            }
            i += 1;
        }
        count
    }

    /// Absorbs line `line_id` with tokens `tokens`: records the line and
    /// generalises the template's tokens against the line's.
    pub fn insert(&mut self, tokens: LcsSeq, line_id: LineId)
        ensures
            final(self)@ == old(self)@.absorb(token_views(tokens@), line_id),
    {
        self.lines_ids.push(line_id);
        let ghost old_tokens = self@.tokens;
        let ghost cand = token_views(tokens@);
        let m = tokens.len();
        let mut out: LcsSeq = Vec::new();
        let mut last_match: usize = 0;
        let mut placeholder = false;
        let mut i: usize = 0;
        while i < self.tokens.len()
            invariant
                i <= self.tokens@.len(),
                old_tokens == self@.tokens,
                cand == token_views(tokens@),
                (token_views(out@), last_match as int) == merge_scan(old_tokens, cand, i as int),
                placeholder == ends_in_wildcard(token_views(out@)),
                last_match <= m,
                m == tokens@.len(),
            decreases self.tokens@.len() - i,
        {
            proof {
                lemma_merge_scan_bounds(old_tokens, cand, i + 1);
            }
            let ghost before = token_views(out@);
            let t = &self.tokens[i];
            if is_wildcard(t) {
                if !placeholder {
                    out.push(wildcard_token());
                    assert(token_views(out@) =~= before.push(wildcard()));
                }
                placeholder = true;
            } else {
                match find_token(&tokens, t, last_match) {
                    Some(j) => {
                        proof {
                            lemma_find_from_bounds(cand, t@, last_match as int);
                        }
                        out.push(t.clone());
                        assert(token_views(out@) =~= before.push(t@));
                        placeholder = false;
                        last_match = j + 1;
                    },
                    None => {
                        if last_match < m && !placeholder {
                            out.push(wildcard_token());
                            assert(token_views(out@) =~= before.push(wildcard()));
                            placeholder = true;
                        }
                    },
                }
            }
            i += 1;
        }
        self.tokens = out;
    }

    /// The template as text.
    pub fn to_string(&self) -> (r: String)
        ensures
            r@ == template_text(self@),
    {
        let ghost toks = self@.tokens;
        let mut out = String::new();
        let mut k: usize = 0;
        while k < self.tokens.len()
            invariant
                k <= self.tokens@.len(),
                toks == self@.tokens,
                out@ == join(toks.take(k as int), " "@),
            decreases self.tokens@.len() - k,
        {
            proof {
                lemma_join_take(toks, " "@, k as int);
            }
            if k > 0 {
                out.append(" ");
            }
            out.append(self.tokens[k].as_str());
            k += 1;
        }
        assert(toks.take(toks.len() as int) =~= toks);
        out.append("\n\t\t{");
        let ghost ids = id_texts(self@.ids);
        let mut ids_text = String::new();
        let mut k: usize = 0;
        while k < self.lines_ids.len()
            invariant
                k <= self.lines_ids@.len(),
                ids == id_texts(self@.ids),
                ids_text@ == join(ids.take(k as int), ", "@),
            decreases self.lines_ids@.len() - k,
        {
            proof {
                lemma_join_take(ids, ", "@, k as int);
            }
            if k > 0 {
                ids_text.append(", ");
            }
            let d = decimal_string(self.lines_ids[k]);
            ids_text.append(d.as_str());
            k += 1;
        }
        assert(ids.take(ids.len() as int) =~= ids);
        out.append(ids_text.as_str());
        out.append("}");
        out
    }

    /// The number of tokens.
    pub fn length(&self) -> (r: usize)
        ensures
            r == self@.tokens.len(),
    {
        self.tokens.len()
    }

    /// The number of absorbed lines.
    pub fn count(&self) -> (r: usize)
        ensures
            r == self@.ids.len(),
    {
        self.lines_ids.len()
    }
}

} // verus!
