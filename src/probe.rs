use crate::header::{chars_of, find, find_char, slice_string, trim_string, trimmed};
use vstd::prelude::*;

verus! {

pub open spec fn is_digit(c: char) -> bool {
    '0' <= c && c <= '9'
}

/// The number that the decimal digits `s` write.
pub open spec fn digits_value(s: Seq<char>) -> nat
    decreases s.len(),
{
    if s.len() == 0 {
        0
    } else {
        10 * digits_value(s.drop_last()) + ((s.last() as u32) - ('0' as u32)) as nat
    }
}

pub open spec fn all_digits(s: Seq<char>) -> bool {
    forall|i: int| 0 <= i < s.len() ==> is_digit(#[trigger] s[i])
}

/// Index just past the last `/` of `s`, or 0 when there is none.
pub open spec fn after_slash(s: Seq<char>, j: int) -> int
    decreases j,
{
    if j <= 0 {
        0
    } else if s[j - 1] == '/' {
        j
    } else {
        after_slash(s, j - 1)
    }
}

/// The complete length a `Content-Range` value gives (`bytes 0-0/1234`):
/// the decimal number after its last `/`, when that is a non-empty run of
/// digits that fits in 64 bits; `None` when the length is unknown (`*`),
/// missing or malformed.
pub open spec fn range_total(s: Seq<char>) -> Option<u64> {
    let a = after_slash(s, s.len() as int);
    let t = s.subrange(a, s.len() as int);
    if a > 0 && t.len() > 0 && all_digits(t) && digits_value(t) <= u64::MAX {
        Some(digits_value(t) as u64)
    } else {
        None
    }
}

proof fn lemma_after_slash_bounds(s: Seq<char>, j: int)
    requires
        0 <= j <= s.len(),
    ensures
        0 <= after_slash(s, j) <= j,
        after_slash(s, j) > 0 ==> s[after_slash(s, j) - 1] == '/',
    decreases j,
{
    if j > 0 && s[j - 1] != '/' {
        lemma_after_slash_bounds(s, j - 1);
    }
}

proof fn lemma_digits_grow(s: Seq<char>, i: int)
    requires
        all_digits(s),
        0 <= i <= s.len(),
    ensures
        digits_value(s.take(i)) <= digits_value(s),
    decreases s.len() - i,
{
    if i < s.len() {
        lemma_digits_grow(s, i + 1);
        let t = s.take(i + 1);
        assert(t.drop_last() =~= s.take(i));
        assert(is_digit(t.last())) by {
            assert(t.last() == s[i]);
        }
        assert(digits_value(t) == 10 * digits_value(s.take(i)) + ((t.last() as u32) - ('0' as u32)) as nat);
    } else {
        assert(s.take(i) =~= s);
    }
}

/// Reads the complete length from a `Content-Range` header value.
pub fn parse_range_total(value: &str) -> (r: Option<u64>)
    ensures
        r == range_total(value@),
{
    let s = chars_of(value);
    let n = s.len();
    let mut a: usize = n;
    while a > 0 && s[a - 1] != '/'
        invariant
            a <= n,
            n == s@.len(),
            after_slash(s@, n as int) == after_slash(s@, a as int),
        decreases a,
    {
        a -= 1;
    }
    proof {
        lemma_after_slash_bounds(s@, n as int);
        assert(a == after_slash(s@, n as int));
    }
    let ghost t = s@.subrange(a as int, n as int);
    if a == 0 || a == n {
        return None;
    }
    let mut acc: u64 = 0;
    let mut i: usize = a;
    while i < n
        invariant
            0 < a <= i <= n,
            n == s@.len(),
            s@ == value@,
            a == after_slash(s@, n as int),
            t == s@.subrange(a as int, n as int),
            forall|k: int| 0 <= k < i - a ==> is_digit(#[trigger] t[k]),
            acc == digits_value(t.take(i - a)),
        decreases n - i,
    {
        let c = s[i];
        if !('0' <= c && c <= '9') {
            proof {
                assert(t[i - a] == c);
                assert(!is_digit(t[i - a]));
                assert(!all_digits(t));
                assert(range_total(value@) is None);
            }
            return None;
        }
        let d = (c as u32 - '0' as u32) as u64;
        proof {
            assert(t.take(i - a + 1).drop_last() =~= t.take(i - a));
            assert(t.take(i - a + 1).last() == c);
        }
        if acc > (u64::MAX - d) / 10 {
            proof {
                let m = u64::MAX as int;
                assert(10 * (acc as int) + (d as int) > m) by (nonlinear_arith)
                    requires
                        acc as int > (m - d as int) / 10,
                        0 <= d <= 9,
                ;
                assert(digits_value(t.take(i - a + 1)) == 10 * digits_value(t.take(i - a)) + d);
                if all_digits(t) {
                    lemma_digits_grow(t, i - a + 1);
                    assert(digits_value(t) > u64::MAX);
                }
                assert(range_total(value@) is None);
            }
            return None;
        }
        proof {
            let m = u64::MAX as int;
            assert(10 * (acc as int) + (d as int) <= m) by (nonlinear_arith)
                requires
                    acc as int <= (m - d as int) / 10,
                    0 <= d <= 9,
            ;
            assert(digits_value(t.take(i - a + 1)) == 10 * digits_value(t.take(i - a)) + d);
        }
        acc = acc * 10 + d;
        i += 1;
        proof {
            assert forall|k: int| 0 <= k < i - a implies is_digit(#[trigger] t[k]) by {
                if k == i - a - 1 {
                    assert(t[k] == c);
                }
            }
        }
    }
    proof {
        assert(t.take(n - a) =~= t);
    }
    Some(acc)
}

/// The parameter name that introduces a file name.
pub open spec fn filename_key() -> Seq<char> {
    seq!['f', 'i', 'l', 'e', 'n', 'a', 'm', 'e', '=']
}

/// Whether `filename=` starts at index `k` of `s`.
pub open spec fn key_at(s: Seq<char>, k: int) -> bool {
    0 <= k && k + 9 <= s.len() && s.subrange(k, k + 9) == filename_key()
}

/// First index from `i` on where `filename=` starts, or -1.
pub open spec fn find_key(s: Seq<char>, i: int) -> int
    decreases s.len() - i,
{
    if i < 0 || i + 9 > s.len() {
        -1
    } else if key_at(s, i) {
        i
    } else {
        find_key(s, i + 1)
    }
}

/// The file name a `Content-Disposition` value gives in its first
/// `filename=` parameter: the text between the quotes when the value is
/// quoted (no closing quote: none), else the trimmed text up to the next
/// `;`. An empty name counts as none.
pub open spec fn disposition_name(s: Seq<char>) -> Option<Seq<char>> {
    let k = find_key(s, 0);
    if k < 0 {
        None
    } else {
        let v = k + 9;
        let n = s.len() as int;
        if v < n && s[v] == '"' {
            let e = find_char(s, v + 1, n, '"');
            if e < n && e > v + 1 {
                Some(s.subrange(v + 1, e))
            } else {
                None
            }
        } else {
            let e = find_char(s, v, n, ';');
            let t = trimmed(s, v, e);
            if t.len() > 0 {
                Some(t)
            } else {
                None
            }
        }
    }
}

fn key_here(s: &Vec<char>, k: usize) -> (r: bool)
    requires
        k + 9 <= s.len(),
    ensures
        r == key_at(s@, k as int),
{
    let r = s[k] == 'f' && s[k + 1] == 'i' && s[k + 2] == 'l' && s[k + 3] == 'e' && s[k + 4] == 'n'
        && s[k + 5] == 'a' && s[k + 6] == 'm' && s[k + 7] == 'e' && s[k + 8] == '=';
    proof {
        if r {
            assert(s@.subrange(k as int, k + 9) =~= filename_key());
        } else if key_at(s@, k as int) {
            let t = s@.subrange(k as int, k + 9);
            assert(t[0] == 'f' && t[1] == 'i' && t[2] == 'l' && t[3] == 'e' && t[4] == 'n');
            assert(t[5] == 'a' && t[6] == 'm' && t[7] == 'e' && t[8] == '=');
        }
    }
    r
}

/// Reads the file name from a `Content-Disposition` header value.
pub fn parse_disposition_name(value: &str) -> (r: Option<String>)
    ensures
        match r {
            Some(name) => disposition_name(value@) == Some(name@),
            None => disposition_name(value@) is None,
        },
{
    let s = chars_of(value);
    let n = s.len();
    let mut k: usize = 0;
    while n - k >= 9 && !key_here(&s, k)
        invariant
            k <= n,
            n == s@.len(),
            find_key(s@, 0) == find_key(s@, k as int),
        decreases n - k,
    {
        k += 1;
    }
    if n - k < 9 {
        proof {
            assert(find_key(s@, k as int) == -1);
        }
        return None;
    }
    proof {
        assert(find_key(s@, k as int) == k);
    }
    let v = k + 9;
    if v < n && s[v] == '"' {
        let e = find(&s, v + 1, n, '"');
        if e < n && e > v + 1 {
            Some(slice_string(&s, v + 1, e))
        } else {
            None
        }
    } else {
        let e = find(&s, v, n, ';');
        let t = trim_string(&s, v, e);
        if t.unicode_len() > 0 {
            Some(t)
        } else {
            None
        }
    }
}

/// A HEAD answer is enough when it succeeded with a non-zero length.
pub open spec fn head_usable(success: bool, content_length: Option<u64>) -> bool {
    success && content_length is Some && content_length->0 > 0
}

/// Whether `Accept-Ranges` announces byte ranges.
pub open spec fn says_bytes(accept_ranges: Option<&str>) -> bool {
    accept_ranges is Some && accept_ranges->0@ == "bytes"@
}

/// What a HEAD probe gives, when it is enough: it succeeded and gave a
/// non-zero length. The server honours ranges when it answers
/// `Accept-Ranges: bytes`.
pub fn head_facts(success: bool, content_length: Option<u64>, accept_ranges: Option<&str>) -> (r:
    Option<(u64, bool)>)
    ensures
        head_usable(success, content_length) ==> r == Some(
            (content_length->0, says_bytes(accept_ranges)),
        ),
        !head_usable(success, content_length) ==> r is None,
{
    match content_length {
        Some(n) => {
            if success && n > 0 {
                let ranges = match accept_ranges {
                    Some(a) => {
                        let text = a.to_owned();
                        let bytes = "bytes".to_owned();
                        text == bytes
                    },
                    None => false,
                };
                Some((n, ranges))
            } else {
                None
            }
        },
        None => None,
    }
}

/// The size a `Content-Range` value gives, 0 when unknown.
pub open spec fn range_size(content_range: Option<&str>) -> u64 {
    match content_range {
        Some(v) => match range_total(v@) {
            Some(t) => t,
            None => 0,
        },
        None => 0,
    }
}

/// What the fallback probe, a GET of byte 0 alone, gives: status 206 means
/// ranges are honoured and the size is the total of `Content-Range`; any
/// other status means they are not, and the size is the `Content-Length`.
/// An unknown size is 0.
pub fn range_probe_facts(status: u16, content_range: Option<&str>, content_length: Option<u64>) -> (r:
    (u64, bool))
    ensures
        status == 206 ==> r == (range_size(content_range), true),
        status != 206 ==> r == (
            match content_length {
                Some(n) => n,
                None => 0,
            },
            false,
        ),
{
    if status == 206 {
        let size = match content_range {
            Some(v) => match parse_range_total(v) {
                Some(t) => t,
                None => 0,
            },
            None => 0,
        };
        (size, true)
    } else {
        match content_length {
            Some(n) => (n, false),
            None => (0, false),
        }
    }
}

/// The name a download is known by before cleaning: the file name of
/// `Content-Disposition` when it gives one, else the last segment of the
/// URL path when that is not empty, else `download`.
pub open spec fn raw_name_of(disposition: Option<&str>, last_segment: Option<&str>) -> Seq<char> {
    if disposition is Some && disposition_name(disposition->0@) is Some {
        disposition_name(disposition->0@)->0
    } else if last_segment is Some && last_segment->0@.len() > 0 {
        last_segment->0@
    } else {
        "download"@
    }
}

/// Picks the name a download is known by before cleaning.
pub fn raw_name(disposition: Option<&str>, last_segment: Option<&str>) -> (r: String)
    ensures
        r@ == raw_name_of(disposition, last_segment),
{
    if let Some(v) = disposition {
        if let Some(name) = parse_disposition_name(v) {
            return name;
        }
    }
    match last_segment {
        Some(g) => {
            if g.unicode_len() > 0 {
                return g.to_owned();
            }
        },
        None => {},
    }
    "download".to_owned()
}

} // verus!
