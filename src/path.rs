use crate::fmt::{decimal, push_char, push_decimal};
use crate::header::chars_of;
use vstd::prelude::*;

verus! {

/// A free place to save a file: directory, file name, and the two joined.
#[derive(Clone, Debug)]
pub struct UniquePath {
    pub dir: String,
    pub name: String,
    pub path: String,
}

/// Index of the last `.` in `s[0..j)`, or -1.
pub open spec fn last_dot(s: Seq<char>, j: int) -> int
    decreases j,
{
    if j <= 0 {
        -1
    } else if s[j - 1] == '.' {
        j - 1
    } else {
        last_dot(s, j - 1)
    }
}

/// Where the extension of a file name starts: at its last `.`, unless that
/// dot is the first character (a hidden file) or there is none, in which
/// case the name has no extension and this is its length.
pub open spec fn ext_start(name: Seq<char>) -> int {
    let d = last_dot(name, name.len() as int);
    if d > 0 {
        d
    } else {
        name.len() as int
    }
}

/// The `k`-th alternative of a taken file name: ` (k)` inserted before the
/// extension.
pub open spec fn numbered_name(name: Seq<char>, k: nat) -> Seq<char> {
    let e = ext_start(name);
    name.subrange(0, e) + seq![' ', '('] + decimal(k) + seq![')'] + name.subrange(e, name.len() as int)
}

proof fn lemma_last_dot_bounds(s: Seq<char>, j: int)
    requires
        j <= s.len(),
    ensures
        -1 <= last_dot(s, j) < j || (j <= 0 && last_dot(s, j) == -1),
    decreases j,
{
    if j > 0 && s[j - 1] != '.' {
        lemma_last_dot_bounds(s, j - 1);
    }
}

/// The alternative name `stem (k).ext` tried when `name` is taken.
pub fn numbered(name: &str, k: u64) -> (r: String)
    ensures
        r@ == numbered_name(name@, k as nat),
{
    let s = chars_of(name);
    let n = s.len();
    let mut d: usize = n;
    let mut found = false;
    while d > 0
        invariant_except_break
            !found,
        invariant
            d <= n,
            n == s@.len(),
            last_dot(s@, n as int) == last_dot(s@, d as int),
        ensures
            d <= n,
            last_dot(s@, n as int) == last_dot(s@, d as int),
            found ==> d > 0 && s@[d - 1] == '.',
            !found ==> d == 0,
        decreases d,
    {
        if s[d - 1] == '.' {
            found = true;
            break;
        }
        d -= 1;
    }
    let e: usize = if found && d > 1 { d - 1 } else { n };
    proof {
        lemma_last_dot_bounds(s@, n as int);
        if found {
            assert(last_dot(s@, d as int) == d - 1);
        } else {
            assert(d == 0);
        }
        assert(e == ext_start(name@));
    }
    let mut r = String::new();
    let mut i: usize = 0;
    while i < e
        invariant
            i <= e <= n,
            n == s@.len(),
            r@ == s@.subrange(0, i as int),
        decreases e - i,
    {
        push_char(&mut r, s[i]);
        i += 1;
        proof {
            assert(r@ =~= s@.subrange(0, i as int));
        }
    }
    push_char(&mut r, ' ');
    push_char(&mut r, '(');
    push_decimal(&mut r, k);
    push_char(&mut r, ')');
    let ghost mid = r@;
    let mut j: usize = e;
    while j < n
        invariant
            e <= j <= n,
            n == s@.len(),
            r@ == mid + s@.subrange(e as int, j as int),
        decreases n - j,
    {
        push_char(&mut r, s[j]);
        j += 1;
        proof {
            assert(r@ =~= mid + s@.subrange(e as int, j as int));
        }
    }
    proof {
        assert(r@ =~= numbered_name(name@, k as nat));
    }
    r
}

} // verus!
