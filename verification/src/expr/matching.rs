//! Matching of text: `LIKE`, regular expressions and hosts of web addresses.
use vstd::prelude::*;
use vstd::utf8::encode_utf8;

verus! {

/// Whether `needle` stands in `hay` at `i`.
pub open spec fn occurs_at(hay: Seq<u8>, needle: Seq<u8>, i: int) -> bool {
    &&& 0 <= i
    &&& i + needle.len() <= hay.len()
    &&& hay.subrange(i, i + needle.len()) == needle
}

/// Whether `needle` stands somewhere in `hay`.
pub open spec fn occurs(hay: Seq<u8>, needle: Seq<u8>) -> bool {
    exists|i: int| occurs_at(hay, needle, i)
}

/// `memchr::memmem::find`: the first place at which the needle occurs.
#[verifier::external_body]
pub(crate) fn find_bytes(hay: &[u8], needle: &[u8]) -> (r: Option<usize>)
    ensures
        match r {
            Some(i) => occurs_at(hay@, needle@, i as int) && forall|j: int|
                0 <= j < i ==> !occurs_at(hay@, needle@, j),
            None => !occurs(hay@, needle@),
        },
{
    memchr::memmem::find(hay, needle)
}

/// Whether a text contains another.
pub fn str_contains(hay: &str, needle: &str) -> (r: bool)
    ensures
        r == occurs(encode_utf8(hay@), encode_utf8(needle@)),
{
    find_bytes(hay.as_bytes(), needle.as_bytes()).is_some()
}

/// Whether `hay` begins with `front`.
pub open spec fn begins(hay: Seq<u8>, front: Seq<u8>) -> bool {
    front.len() <= hay.len() && hay.take(front.len() as int) == front
}

/// Whether `hay` ends with `back`.
pub open spec fn ends(hay: Seq<u8>, back: Seq<u8>) -> bool {
    back.len() <= hay.len() && hay.skip(hay.len() - back.len()) == back
}

/// Whether text matches a `LIKE` pattern. `%` stands for any text at the two
/// ends of a pattern and for itself elsewhere.
pub open spec fn like(hay: Seq<u8>, pattern: Seq<u8>) -> bool {
    let n = pattern.len();
    if n > 1 && pattern[0] == 37 && pattern[n - 1] == 37 {
        n == 2 || occurs(hay, pattern.subrange(1, n - 1))
    } else if n > 0 && pattern[0] == 37 {
        ends(hay, pattern.skip(1))
    } else if n > 0 && pattern[n - 1] == 37 {
        begins(hay, pattern.take(n - 1))
    } else {
        hay == pattern
    }
}

/// Matches text against a `LIKE` pattern.
pub fn eval_like_match(haystack: &str, pattern: &str) -> (r: bool)
    ensures
        r == like(encode_utf8(haystack@), encode_utf8(pattern@)),
{
    like_bytes(haystack.as_bytes(), pattern.as_bytes())
}

/// Matches bytes against a `LIKE` pattern.
pub fn like_bytes(h: &[u8], p: &[u8]) -> (r: bool)
    ensures
        r == like(h@, p@),
{
    let n: usize = p.len();
    if n > 1 && p[0] == 37 && p[n - 1] == 37 {
        if n == 2 {
            return true;
        }
        return find_bytes(h, &p[1..n - 1]).is_some();
    }
    if n > 0 && p[0] == 37 {
        let m: usize = n - 1;
        assert(p@.skip(1) =~= p@.subrange(1, n as int));
        if m > h.len() {
            return false;
        }
        let from: usize = h.len() - m;
        assert(h@.skip(from as int) =~= h@.subrange(from as int, h@.len() as int));
        return crate::text::bytes_eq(&h[from..h.len()], &p[1..n]);
    }
    if n > 0 && p[n - 1] == 37 {
        let m: usize = n - 1;
        assert(p@.take(m as int) =~= p@.subrange(0, m as int));
        if m > h.len() {
            return false;
        }
        assert(h@.take(m as int) =~= h@.subrange(0, m as int));
        return crate::text::bytes_eq(&h[0..m], &p[0..m]);
    }
    crate::text::bytes_eq(h, p)
}

/// The first group of the first match of a regular expression in a text, or
/// the message for an expression that does not compile.
pub uninterp spec fn regex_group(pattern: Seq<char>, text: Seq<char>) -> Result<
    Option<Seq<char>>,
    Seq<char>,
>;

/// A text with the first match of a regular expression replaced, or the
/// message for an expression that does not compile.
pub uninterp spec fn regex_replaced(
    pattern: Seq<char>,
    text: Seq<char>,
    replacement: Seq<char>,
) -> Result<Seq<char>, Seq<char>>;

/// `regex::Regex::captures` and group 1 of what it finds: it depends on the
/// expression and the text and is called `regex_group`.
#[verifier::external_body]
fn group_of(pattern: &str, text: &str) -> (r: Result<Option<String>, String>)
    ensures
        match r {
            Ok(Some(s)) => crate::error::yields(regex_group(pattern@, text@), Some(s@)),
            Ok(None) => crate::error::yields(regex_group(pattern@, text@), None),
            Err(m) => crate::error::fails(regex_group(pattern@, text@), m@),
        },
{
    let re = regex::Regex::new(pattern).map_err(|e| e.to_string())?;
    Ok(re.captures(text).and_then(|c| c.get(1).map(|m| m.as_str().to_string())))
}

/// `regex::Regex::replace`: it depends on the expression, the text and the
/// replacement and is called `regex_replaced`.
#[verifier::external_body]
fn replace_first(pattern: &str, text: &str, replacement: &str) -> (r: Result<String, String>)
    ensures
        match r {
            Ok(s) => crate::error::yields(regex_replaced(pattern@, text@, replacement@), s@),
            Err(m) => crate::error::fails(regex_replaced(pattern@, text@, replacement@), m@),
        },
{
    let re = regex::Regex::new(pattern).map_err(|e| e.to_string())?;
    Ok(re.replace(text, replacement).to_string())
}

/// The host of a web address, without a leading `www.`, or the text itself
/// where it is no such address.
pub open spec fn host_of(url: Seq<char>) -> Seq<char> {
    chosen_host(url, regex_group("^https?://(?:www\\.)?([^/]+)/.*$"@, url))
}

/// The host, given what the expression for hosts finds.
pub open spec fn chosen_host(
    url: Seq<char>,
    found: Result<Option<Seq<char>>, Seq<char>>,
) -> Seq<char> {
    match found {
        Ok(Some(h)) => h,
        _ => url,
    }
}

/// The host of a web address, or the text itself where it is none.
pub fn referer_host(url: &str) -> (s: String)
    ensures
        s@ == host_of(url@),
{
    choose_host(url, group_of("^https?://(?:www\\.)?([^/]+)/.*$", url))
}

/// Chooses the host, given what the expression for hosts finds.
pub fn choose_host(url: &str, found: Result<Option<String>, String>) -> (s: String)
    ensures
        s@ == chosen_host(
            url@,
            match found {
                Ok(Some(h)) => Ok(Some(h@)),
                Ok(None) => Ok(None),
                Err(m) => Err(m@),
            },
        ),
{
    match found {
        Ok(Some(h)) => h,
        _ => String::from_str(url),
    }
}

/// What `REGEXP_REPLACE` gives: the host for an expression for web addresses,
/// otherwise the text with the first match replaced.
pub open spec fn replaced(pattern: Seq<char>, text: Seq<char>, replacement: Seq<char>) -> Result<
    Seq<char>,
    Seq<char>,
> {
    if asks_host(pattern) {
        Ok(host_of(text))
    } else {
        regex_replaced(pattern, text, replacement)
    }
}

/// Whether a regular expression is one for web addresses.
pub open spec fn asks_host(pattern: Seq<char>) -> bool {
    occurs(encode_utf8(pattern), encode_utf8("https?://"@))
}

/// Tests for a regular expression for web addresses.
pub fn pattern_asks_host(pattern: &str) -> (r: bool)
    ensures
        r == asks_host(pattern@),
{
    str_contains(pattern, "https?://")
}

/// Replaces the first match of a regular expression.
pub fn regexp_replace(pattern: &str, text: &str, replacement: &str) -> (r: Result<
    String,
    crate::error::Error,
>)
    ensures
        crate::error::text_outcome(r) == regex_replaced(pattern@, text@, replacement@),
{
    match replace_first(pattern, text, replacement) {
        Ok(s) => Ok(s),
        Err(m) => Err(crate::error::Error::Msg(m)),
    }
}

} // verus!
