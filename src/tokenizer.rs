//! Splitting a line into tokens.
use vstd::prelude::*;
use vstd::std_specs::iter::IteratorSpec;

verus! {

/// Unicode's White_Space property.
pub open spec fn white_space(c: char) -> bool {
    let u = c as u32;
    (0x9 <= u && u <= 0xd) || u == 0x20 || u == 0x85 || u == 0xa0 || u == 0x1680
        || (0x2000 <= u && u <= 0x200a) || u == 0x2028 || u == 0x2029 || u == 0x202f
        || u == 0x205f || u == 0x3000
}

/// `s` without its leading and trailing white space.
pub open spec fn trimmed(s: Seq<char>) -> Seq<char>
    decreases s.len(),
{
    if s.len() > 0 && white_space(s[0]) {
        trimmed(s.drop_first())
    } else if s.len() > 0 && white_space(s.last()) {
        trimmed(s.drop_last())
    } else {
        s
    }
}

/// The fragments of `s` between occurrences of any character of `d`,
/// empty fragments included.
pub open spec fn pieces(s: Seq<char>, d: Seq<char>) -> Seq<Seq<char>>
    decreases s.len(),
{
    if s.len() == 0 {
        seq![Seq::empty()]
    } else {
        let p = pieces(s.drop_last(), d);
        if d.contains(s.last()) {
            p.push(Seq::empty())
        } else {
            p.update(p.len() - 1, p.last().push(s.last()))
        }
    }
}

/// Whether a fragment is kept as a token.
pub open spec fn kept() -> spec_fn(Seq<char>) -> bool {
    |t: Seq<char>| t.len() > 0
}

/// The tokens of `line`: the non-empty fragments of the trimmed line.
pub open spec fn tokens_of(line: Seq<char>, d: Seq<char>) -> Seq<Seq<char>> {
    pieces(trimmed(line), d).filter(kept())
}

/// The views of a sequence of string slices.
pub open spec fn str_views(v: Seq<&str>) -> Seq<Seq<char>> {
    v.map_values(|t: &str| t@)
}

proof fn lemma_pieces_non_empty(s: Seq<char>, d: Seq<char>)
    ensures
        pieces(s, d).len() >= 1,
    decreases s.len(),
{
    if s.len() > 0 {
        lemma_pieces_non_empty(s.drop_last(), d);
    }
}

/// An empty line has no tokens, whatever the delimiters.
pub proof fn lemma_empty_line_has_no_tokens(d: Seq<char>)
    ensures
        tokens_of(Seq::empty(), d) == Seq::<Seq<char>>::empty(),
{
    let p = pieces(Seq::<char>::empty(), d);
    assert(p.drop_last() =~= Seq::<Seq<char>>::empty());
    reveal_with_fuel(Seq::filter, 2);
    assert(p.filter(kept()) =~= Seq::<Seq<char>>::empty());
}

/// Splits `input`, trimmed of white space at both ends, at every character of
/// `delimiters`, and drops the empty fragments.
pub fn tokenize<'a>(input: &'a str, delimiters: &[char]) -> (r: Vec<&'a str>)
    ensures
        str_views(r@) == tokens_of(input@, delimiters@),
{
    let cs = chars_of(input);
    let n = cs.len();
    let ghost s = input@;
    let mut start: usize = 0;
    assert(s.subrange(0, n as int) =~= s);
    while start < n && is_white_space(cs[start])
        invariant
            start <= n,
            n == s.len(),
            cs@ == s,
            s == input@,
            trimmed(s) == trimmed(s.subrange(start as int, n as int)),
        decreases n - start,
    {
        assert(s.subrange(start as int, n as int).drop_first() =~= s.subrange(start + 1, n as int));
        start += 1;
    }
    let mut end: usize = n;
    while end > start && is_white_space(cs[end - 1])
        invariant
            start <= end <= n,
            n == s.len(),
            cs@ == s,
            s == input@,
            start < n ==> !white_space(s[start as int]),
            trimmed(s) == trimmed(s.subrange(start as int, end as int)),
        decreases end,
    {
        assert(s.subrange(start as int, end as int).drop_last() =~= s.subrange(
            start as int,
            end - 1,
        ));
        end -= 1;
    }
    assert(trimmed(s) == s.subrange(start as int, end as int));
    let ghost d = delimiters@;
    let mut out: Vec<&'a str> = Vec::new();
    let mut from: usize = start;
    let mut i: usize = start;
    while i < end
        invariant
            start <= from <= i <= end <= n,
            n == s.len(),
            cs@ == s,
            s == input@,
            d == delimiters@,
            str_views(out@) == pieces(s.subrange(start as int, i as int), d).drop_last().filter(
                kept(),
            ),
            pieces(s.subrange(start as int, i as int), d).last() == s.subrange(
                from as int,
                i as int,
            ),
        decreases end - i,
    {
        let c = cs[i];
        let ghost p = pieces(s.subrange(start as int, i as int), d);
        proof {
            lemma_pieces_non_empty(s.subrange(start as int, i as int), d);
            assert(s.subrange(start as int, i + 1).drop_last() =~= s.subrange(start as int, i as int));
            assert(s.subrange(start as int, i + 1).last() == c);
            reveal(Seq::filter);
            assert(p.filter(kept()) == if kept()(p.last()) {
                p.drop_last().filter(kept()).push(p.last())
            } else {
                p.drop_last().filter(kept())
            });
        }
        if is_delimiter(c, delimiters) {
            assert(pieces(s.subrange(start as int, i + 1), d) == p.push(Seq::empty()));
            if i > from {
                let t = input.substring_char(from, i);
                assert(str_views(out@.push(t)) =~= str_views(out@).push(t@));
                out.push(t);
            }
            assert(p.push(Seq::empty()).drop_last() =~= p);
            assert(s.subrange(i + 1, i + 1) =~= Seq::<char>::empty());
            from = i + 1;
        } else {
            assert(pieces(s.subrange(start as int, i + 1), d) == p.update(
                p.len() - 1,
                p.last().push(c),
            ));
            assert(p.update(p.len() - 1, p.last().push(c)).drop_last() =~= p.drop_last());
            assert(s.subrange(from as int, i + 1) =~= s.subrange(from as int, i as int).push(c));
        }
        i += 1;
    }
    let ghost p = pieces(s.subrange(start as int, end as int), d);
    proof {
        lemma_pieces_non_empty(s.subrange(start as int, end as int), d);
        reveal(Seq::filter);
        assert(p.filter(kept()) == if kept()(p.last()) {
            p.drop_last().filter(kept()).push(p.last())
        } else {
            p.drop_last().filter(kept())
        });
    }
    if end > from {
        let t = input.substring_char(from, end);
        assert(str_views(out@.push(t)) =~= str_views(out@).push(t@));
        out.push(t);
    }
    out
}

/// Whether `c` is one of `delimiters`.
fn is_delimiter(c: char, delimiters: &[char]) -> (r: bool)
    ensures
        r == delimiters@.contains(c),
{
    let mut k: usize = 0;
    while k < delimiters.len()
        invariant
            k <= delimiters@.len(),
            forall|j: int| 0 <= j < k ==> delimiters@[j] != c,
        decreases delimiters@.len() - k,
    {
        if delimiters[k] == c {
            return true;
        }
        k += 1;
    }
    false
}

/// Whether `c` has Unicode's White_Space property.
fn is_white_space(c: char) -> (r: bool)
    ensures
        r == white_space(c),
{
    let u = c as u32;
    (0x9 <= u && u <= 0xd) || u == 0x20 || u == 0x85 || u == 0xa0 || u == 0x1680 || (0x2000 <= u
        && u <= 0x200a) || u == 0x2028 || u == 0x2029 || u == 0x202f || u == 0x205f || u == 0x3000
}

/// The characters of `s`, in order.
fn chars_of(s: &str) -> (r: Vec<char>)
    ensures
        r@ == s@,
{
    let mut out: Vec<char> = Vec::new();
    let mut it = s.chars();
    loop
        invariant
            out@ + it.remaining() == s@,
            it.decrease() is Some,
        ensures
            out@ == s@,
        decreases it.decrease()->0,
    {
        match it.next() {
            Some(c) => {
                out.push(c);
            },
            None => {
                break;
            },
        }
    }
    out
}

} // verus!
