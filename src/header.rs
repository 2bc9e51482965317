use crate::fmt::push_char;
use vstd::prelude::*;

verus! {

/// Unicode white space, as `char::is_whitespace` defines it.
pub open spec fn is_space(c: char) -> bool {
    c == ' ' || ('\t' <= c && c <= '\r') || c == '\u{85}' || c == '\u{a0}' || c == '\u{1680}'
        || ('\u{2000}' <= c && c <= '\u{200a}') || c == '\u{2028}' || c == '\u{2029}' || c
        == '\u{202f}' || c == '\u{205f}' || c == '\u{3000}'
}

fn space(c: char) -> (b: bool)
    ensures
        b == is_space(c),
{
    c == ' ' || ('\t' <= c && c <= '\r') || c == '\u{85}' || c == '\u{a0}' || c == '\u{1680}'
        || ('\u{2000}' <= c && c <= '\u{200a}') || c == '\u{2028}' || c == '\u{2029}' || c
        == '\u{202f}' || c == '\u{205f}' || c == '\u{3000}'
}

/// First index in `[i, j)` holding `ch`, or `j`.
pub open spec fn find_char(s: Seq<char>, i: int, j: int, ch: char) -> int
    decreases j - i,
{
    if i >= j {
        j
    } else if s[i] == ch {
        i
    } else {
        find_char(s, i + 1, j, ch)
    }
}

/// First index in `[i, j)` that is not white space, or `j`.
pub open spec fn skip_space(s: Seq<char>, i: int, j: int) -> int
    decreases j - i,
{
    if i >= j {
        j
    } else if !is_space(s[i]) {
        i
    } else {
        skip_space(s, i + 1, j)
    }
}

/// End of `[i, j)` once trailing white space is dropped.
pub open spec fn skip_space_back(s: Seq<char>, i: int, j: int) -> int
    decreases j - i,
{
    if j <= i {
        i
    } else if !is_space(s[j - 1]) {
        j
    } else {
        skip_space_back(s, i, j - 1)
    }
}

/// `s[i..j]` without leading and trailing white space.
pub open spec fn trimmed(s: Seq<char>, i: int, j: int) -> Seq<char> {
    let a = skip_space(s, i, j);
    s.subrange(a, skip_space_back(s, a, j))
}

/// The header of the line `s[i..j]`: the trimmed text before the first `:`
/// and the trimmed text after it, or the whole trimmed line and an empty
/// value when the line holds no `:`.
pub open spec fn header_of(s: Seq<char>, i: int, j: int) -> (Seq<char>, Seq<char>) {
    let c = find_char(s, i, j, ':');
    if c < j {
        (trimmed(s, i, c), trimmed(s, c + 1, j))
    } else {
        (trimmed(s, i, j), Seq::empty())
    }
}

/// The headers of the lines of `s` from index `i` on, one per line; a final
/// line break ends the last line rather than starting an empty one.
pub open spec fn headers_from(s: Seq<char>, i: int) -> Seq<(Seq<char>, Seq<char>)>
    decreases s.len() - i,
{
    if i < 0 || i >= s.len() {
        seq![]
    } else {
        let e = find_char(s, i, s.len() as int, '\n');
        if e < i {
            seq![]
        } else if e >= s.len() {
            seq![header_of(s, i, e)]
        } else {
            seq![header_of(s, i, e)] + headers_from(s, e + 1)
        }
    }
}

/// The headers written in `s`, one `Key: Value` per line.
pub open spec fn headers(s: Seq<char>) -> Seq<(Seq<char>, Seq<char>)> {
    headers_from(s, 0)
}

/// Views of a list of string pairs.
pub open spec fn pair_views(v: Seq<(String, String)>) -> Seq<(Seq<char>, Seq<char>)> {
    v.map_values(|p: (String, String)| (p.0@, p.1@))
}

/// The characters of `s`. Each lookup decodes from the start, which is
/// fine for the short texts read here (header lines, file names).
pub(crate) fn chars_of(s: &str) -> (v: Vec<char>)
    ensures
        v@ == s@,
{
    let n = s.unicode_len();
    let mut v: Vec<char> = Vec::new();
    let mut i: usize = 0;
    while i < n
        invariant
            n == s@.len(),
            i <= n,
            v@ == s@.subrange(0, i as int),
        decreases n - i,
    {
        v.push(s.get_char(i));
        i += 1;
        proof {
            assert(v@ =~= s@.subrange(0, i as int));
        }
    }
    proof {
        assert(v@ =~= s@);
    }
    v
}

proof fn lemma_find_bounds(s: Seq<char>, i: int, j: int, ch: char)
    requires
        i <= j,
    ensures
        i <= find_char(s, i, j, ch) <= j,
    decreases j - i,
{
    if i < j && s[i] != ch {
        lemma_find_bounds(s, i + 1, j, ch);
    }
}

pub(crate) fn find(s: &Vec<char>, i: usize, j: usize, ch: char) -> (r: usize)
    requires
        i <= j <= s.len(),
    ensures
        r == find_char(s@, i as int, j as int, ch),
        i <= r <= j,
    decreases j - i,
{
    if i >= j {
        j
    } else if s[i] == ch {
        i
    } else {
        find(s, i + 1, j, ch)
    }
}

fn skip(s: &Vec<char>, i: usize, j: usize) -> (r: usize)
    requires
        i <= j <= s.len(),
    ensures
        r == skip_space(s@, i as int, j as int),
        i <= r <= j,
    decreases j - i,
{
    if i >= j {
        j
    } else if !space(s[i]) {
        i
    } else {
        skip(s, i + 1, j)
    }
}

fn skip_back(s: &Vec<char>, i: usize, j: usize) -> (r: usize)
    requires
        i <= j <= s.len(),
    ensures
        r == skip_space_back(s@, i as int, j as int),
        i <= r <= j,
    decreases j - i,
{
    if j <= i {
        i
    } else if !space(s[j - 1]) {
        j
    } else {
        skip_back(s, i, j - 1)
    }
}

pub(crate) fn slice_string(s: &Vec<char>, i: usize, j: usize) -> (r: String)
    requires
        i <= j <= s.len(),
    ensures
        r@ == s@.subrange(i as int, j as int),
{
    let mut r = String::new();
    let mut k: usize = i;
    while k < j
        invariant
            i <= k <= j,
            j <= s.len(),
            r@ == s@.subrange(i as int, k as int),
        decreases j - k,
    {
        push_char(&mut r, s[k]);
        k += 1;
        proof {
            assert(r@ =~= s@.subrange(i as int, k as int));
        }
    }
    r
}

pub(crate) fn trim_string(s: &Vec<char>, i: usize, j: usize) -> (r: String)
    requires
        i <= j <= s.len(),
    ensures
        r@ == trimmed(s@, i as int, j as int),
{
    let a = skip(s, i, j);
    let b = skip_back(s, a, j);
    slice_string(s, a, b)
}

/// Splits `input` into lines and each line at its first `:` into a trimmed
/// key and a trimmed value (empty when the line holds no `:`).
pub fn parse_header(input: &str) -> (r: Vec<(String, String)>)
    ensures
        pair_views(r@) == headers(input@),
{
    let s = chars_of(input);
    let n = s.len();
    let mut out: Vec<(String, String)> = Vec::new();
    let mut i: usize = 0;
    proof {
        assert(pair_views(out@) + headers_from(s@, 0) =~= headers(input@));
    }
    while i < n
        invariant
            n == s@.len(),
            s@ == input@,
            i <= n,
            pair_views(out@) + headers_from(s@, i as int) == headers(input@),
        decreases n - i,
    {
        let e = find(&s, i, n, '\n');
        let c = find(&s, i, e, ':');
        let pair = if c < e {
            (trim_string(&s, i, c), trim_string(&s, c + 1, e))
        } else {
            (trim_string(&s, i, e), String::new())
        };
        let ghost out0 = out@;
        out.push(pair);
        proof {
            lemma_find_bounds(s@, i as int, n as int, '\n');
            assert(pair_views(out@) =~= pair_views(out0).push(header_of(s@, i as int, e as int)));
            if e < n {
                assert(pair_views(out@) + headers_from(s@, e + 1) =~= pair_views(out0)
                    + headers_from(s@, i as int));
            } else {
                assert(pair_views(out@) + headers_from(s@, n as int) =~= pair_views(out0)
                    + headers_from(s@, i as int));
            }
        }
        if e < n {
            i = e + 1;
        } else {
            i = n;
        }
    }
    proof {
        assert(headers_from(s@, i as int) =~= Seq::<(Seq<char>, Seq<char>)>::empty());
        assert(pair_views(out@) =~= headers(input@));
    }
    out
}

/// The key-value map of a list of headers, a later header replacing an
/// earlier one with the same key.
pub open spec fn header_map(h: Seq<(Seq<char>, Seq<char>)>) -> Map<Seq<char>, Seq<char>>
    decreases h.len(),
{
    if h.len() == 0 {
        Map::empty()
    } else {
        header_map(h.drop_last()).insert(h.last().0, h.last().1)
    }
}

/// No key occurs twice.
pub open spec fn keys_unique(h: Seq<(Seq<char>, Seq<char>)>) -> bool {
    forall|i: int, j: int| 0 <= i < h.len() && 0 <= j < h.len() && i != j ==> (#[trigger] h[i]).0 != (#[trigger] h[j]).0
}

proof fn lemma_map_replace(h: Seq<(Seq<char>, Seq<char>)>, j: int, v: Seq<char>)
    requires
        keys_unique(h),
        0 <= j < h.len(),
    ensures
        header_map(h.update(j, (h[j].0, v))) == header_map(h).insert(h[j].0, v),
    decreases h.len(),
{
    let h2 = h.update(j, (h[j].0, v));
    let k = h[j].0;
    if j == h.len() - 1 {
        assert(h2.drop_last() =~= h.drop_last());
        assert(header_map(h2) =~= header_map(h).insert(k, v));
    } else {
        let init = h.drop_last();
        assert(keys_unique(init)) by {
            assert forall|a: int, b: int| 0 <= a < init.len() && 0 <= b < init.len() && a != b implies (#[trigger] init[a]).0 != (#[trigger] init[b]).0 by {
                assert(init[a] == h[a] && init[b] == h[b]);
            }
        }
        assert(init[j] == h[j]);
        lemma_map_replace(init, j, v);
        assert(h2.drop_last() =~= init.update(j, (k, v)));
        assert(h2.last() == h.last());
        assert(h.last().0 != k) by {
            assert(h[h.len() - 1] == h.last());
        }
        assert(header_map(h2) =~= header_map(h).insert(k, v));
    }
}

/// The headers written in `input` as pairs with distinct keys, a later
/// header replacing an earlier one with the same key.
pub fn parse_header_hashmap(input: &str) -> (r: Vec<(String, String)>)
    ensures
        keys_unique(pair_views(r@)),
        header_map(pair_views(r@)) == header_map(headers(input@)),
{
    let pairs = parse_header(input);
    let mut out: Vec<(String, String)> = Vec::new();
    let mut i: usize = 0;
    proof {
        assert(pair_views(out@) =~= Seq::<(Seq<char>, Seq<char>)>::empty());
        assert(pair_views(pairs@).subrange(0, 0) =~= Seq::<(Seq<char>, Seq<char>)>::empty());
    }
    while i < pairs.len()
        invariant
            i <= pairs.len(),
            pair_views(pairs@) == headers(input@),
            keys_unique(pair_views(out@)),
            header_map(pair_views(out@)) == header_map(pair_views(pairs@).subrange(0, i as int)),
        decreases pairs.len() - i,
    {
        let key = pairs[i].0.clone();
        let value = pairs[i].1.clone();
        let ghost h = pair_views(pairs@);
        proof {
            assert(h.subrange(0, i + 1).drop_last() =~= h.subrange(0, i as int));
            assert(h[i as int] == (key@, value@));
        }
        let mut j: usize = 0;
        while j < out.len()
            invariant
                j <= out.len(),
                forall|m: int| 0 <= m < j ==> (#[trigger] out@[m]).0@ != key@,
            ensures
                j <= out.len(),
                j < out.len() ==> out@[j as int].0@ == key@,
                forall|m: int| 0 <= m < j ==> (#[trigger] out@[m]).0@ != key@,
            decreases out.len() - j,
        {
            if out[j].0 == key {
                break;
            }
            j += 1;
        }
        let ghost before = pair_views(out@);
        if j < out.len() {
            proof {
                lemma_map_replace(before, j as int, value@);
            }
            out.set(j, (key, value));
            proof {
                assert(pair_views(out@) =~= before.update(j as int, (before[j as int].0, value@)));
                assert forall|a: int, b: int| 0 <= a < out@.len() && 0 <= b < out@.len() && a != b implies (#[trigger] pair_views(out@)[a]).0 != (#[trigger] pair_views(out@)[b]).0 by {
                    assert(before[a].0 == pair_views(out@)[a].0);
                    assert(before[b].0 == pair_views(out@)[b].0);
                }
            }
        } else {
            out.push((key, value));
            proof {
                assert(pair_views(out@) =~= before.push((key@, value@)));
                assert(pair_views(out@).drop_last() =~= before);
                assert forall|a: int, b: int| 0 <= a < out@.len() && 0 <= b < out@.len() && a != b implies (#[trigger] pair_views(out@)[a]).0 != (#[trigger] pair_views(out@)[b]).0 by {
                    if a < before.len() {
                        assert(pair_views(out@)[a] == before[a]);
                    }
                    if b < before.len() {
                        assert(pair_views(out@)[b] == before[b]);
                    }
                }
            }
        }
        i += 1;
    }
    proof {
        assert(pair_views(pairs@).subrange(0, pairs.len() as int) =~= pair_views(pairs@));
    }
    out
}

} // verus!
