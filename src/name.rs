use crate::header::chars_of;
use crate::fmt::push_char;
use vstd::prelude::*;

verus! {

/// The scheme of `s` read as a URL, or `None` when `s` is no URL.
pub uninterp spec fn url_scheme(s: Seq<char>) -> Option<Seq<char>>;

/// `name` cleaned for use as a file name, under Windows rules or not.
pub uninterp spec fn sanitized_name(name: Seq<char>, windows: bool) -> Seq<char>;

/// Characters that no file name may hold.
pub open spec fn is_illegal(c: char) -> bool {
    c == '/' || c == '?' || c == '<' || c == '>' || c == '\\' || c == ':' || c == '*' || c == '|'
        || c == '"'
}

pub open spec fn opt_chars(o: Option<String>) -> Option<Seq<char>> {
    match o {
        Some(s) => Some(s@),
        None => None,
    }
}

/// Relies on url::Url::parse and Url::scheme: parsing depends on the text
/// alone, and a parsed URL has a scheme.
#[verifier::external_body]
fn parse_scheme(s: &str) -> (r: Option<String>)
    ensures
        opt_chars(r) == url_scheme(s@),
{
    url::Url::parse(s).ok().map(|u| u.scheme().to_string())
}

/// Relies on sanitize_filename::sanitize_with_options, with truncation and
/// `_` as replacement: the result depends on the name and the rule set
/// alone, and every illegal character was replaced.
#[verifier::external_body]
fn sanitize_with(name: &str, windows: bool) -> (r: String)
    ensures
        r@ == sanitized_name(name@, windows),
        forall|i: int| 0 <= i < r@.len() ==> !is_illegal(#[trigger] r@[i]),
{
    sanitize_filename::sanitize_with_options(
        name,
        sanitize_filename::Options { windows, truncate: true, replacement: "_" },
    )
}

/// Whether a URL scheme is one the downloader fetches.
pub fn is_web_scheme(scheme: &str) -> (r: bool)
    ensures
        r == (scheme@ == "http"@ || scheme@ == "https"@),
{
    let s = scheme.to_owned();
    let http = "http".to_owned();
    let https = "https".to_owned();
    s == http || s == https
}

/// Whether `s` is an `http` or `https` URL.
pub fn is_url(s: &str) -> (r: bool)
    ensures
        r == (url_scheme(s@) matches Some(sc) && (sc == "http"@ || sc == "https"@)),
{
    match parse_scheme(s) {
        Some(scheme) => is_web_scheme(scheme.as_str()),
        None => false,
    }
}

/// At most the first `max` characters of `s`.
pub open spec fn cut(s: Seq<char>, max: nat) -> Seq<char> {
    if s.len() <= max {
        s
    } else {
        s.take(max as int)
    }
}

/// `sanitized` cut to at most `max` characters. Takes the sanitized name
/// as `sanitize` gets it.
pub fn cut_name(sanitized: &str, max: usize) -> (r: String)
    ensures
        r@ == cut(sanitized@, max as nat),
{
    let v = chars_of(sanitized);
    let n = if v.len() <= max { v.len() } else { max };
    let mut r = String::new();
    let mut i: usize = 0;
    while i < n
        invariant
            i <= n <= v@.len(),
            n == if v@.len() <= max { v@.len() } else { max as nat },
            r@ == v@.take(i as int),
        decreases n - i,
    {
        push_char(&mut r, v[i]);
        i += 1;
        proof {
            assert(r@ =~= v@.take(i as int));
        }
    }
    proof {
        assert(r@ =~= cut(sanitized@, max as nat));
    }
    r
}

/// The file name a download is saved under: `raw_name` with illegal
/// characters replaced (and, under Windows rules, reserved names and
/// trailing dots and spaces too), cut to at most `max` characters.
pub fn sanitize(raw_name: &str, max: usize, windows: bool) -> (r: String)
    ensures
        r@ == cut(sanitized_name(raw_name@, windows), max as nat),
        forall|i: int| 0 <= i < r@.len() ==> !is_illegal(#[trigger] r@[i]),
{
    let s = sanitize_with(raw_name, windows);
    let r = cut_name(s.as_str(), max);
    proof {
        assert forall|i: int| 0 <= i < r@.len() implies !is_illegal(#[trigger] r@[i]) by {
            assert(r@[i] == s@[i]);
        }
    }
    r
}

} // verus!
