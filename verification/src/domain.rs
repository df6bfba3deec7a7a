//! Domain normalization: strip a leading scheme or `www.` prefix, cut at the
//! first slash, and reduce the rest to its registrable root domain.
use vstd::prelude::*;
use vstd::string::*;

use crate::text::{field_ok, find_char, free_of, lemma_find_char};

verus! {

/// The registrable root `addr::parse_domain_name(..).root()` yields for a
/// host string, or `None` where parsing fails or no root exists. A function
/// of the input alone (the public-suffix list is compiled into the crate).
pub uninterp spec fn root_domain_of(host: Seq<char>) -> Option<Seq<char>>;

/// `s` with one leading occurrence of `p` removed, if it has one.
pub open spec fn strip_prefix_once(s: Seq<char>, p: Seq<char>) -> Seq<char> {
    if p.len() <= s.len() && s.take(p.len() as int) == p {
        s.skip(p.len() as int)
    } else {
        s
    }
}

/// Everything before the first `/`, or all of `s` if it has none.
pub open spec fn before_slash(s: Seq<char>) -> Seq<char> {
    let i = find_char(s, '/');
    if i >= 0 {
        s.take(i)
    } else {
        s
    }
}

/// The host part of an input: scheme and `www.` prefixes stripped once each,
/// in that order, then cut at the first slash.
pub open spec fn host_part(s: Seq<char>) -> Seq<char> {
    before_slash(
        strip_prefix_once(strip_prefix_once(strip_prefix_once(s, "http://"@), "https://"@), "www."@),
    )
}

/// What normalization yields for an input: the registrable root of its host
/// part, if any.
pub open spec fn spec_normalize(s: Seq<char>) -> Option<Seq<char>> {
    root_domain_of(host_part(s))
}

/// Relies on `addr::parse_domain_name` and `Name::root`: the registrable
/// root is computed from the input and the compiled-in public-suffix list
/// alone; a returned root is a non-empty valid domain name, whose characters
/// exclude `,`, `\n` and `/`.
#[verifier::external_body]
fn registrable_root(host: &str) -> (r: Option<String>)
    ensures
        r matches Some(d) ==> root_domain_of(host@) == Some(d@) && d@.len() > 0 && field_ok(d@)
            && free_of(d@, '/'),
        r is None ==> root_domain_of(host@) is None,
{
    match addr::parse_domain_name(host) {
        Ok(name) => name.root().map(|root| root.to_string()),
        Err(_) => None,
    }
}

/// Whether `s` starts with `p`, compared character by character.
fn starts_with_chars(s: &str, p: &str) -> (r: bool)
    ensures
        r == (p@.len() <= s@.len() && s@.take(p@.len() as int) == p@),
{
    let n = p.unicode_len();
    if n > s.unicode_len() {
        return false;
    }
    let mut i: usize = 0;
    while i < n
        invariant
            i <= n,
            n == p@.len() <= s@.len(),
            forall|j: int| 0 <= j < i ==> s@[j] == p@[j],
        decreases n - i,
    {
        if s.get_char(i) != p.get_char(i) {
            proof {
                assert(s@.take(p@.len() as int)[i as int] != p@[i as int]);
            }
            return false;
        }
        i = i + 1;
    }
    proof {
        assert(s@.take(p@.len() as int) =~= p@);
    }
    true
}

/// `s` with one leading occurrence of `p` removed, if it has one.
fn strip_prefix_str<'a>(s: &'a str, p: &str) -> (r: &'a str)
    ensures
        r@ == strip_prefix_once(s@, p@),
{
    if starts_with_chars(s, p) {
        let r = s.substring_char(p.unicode_len(), s.unicode_len());
        proof {
            assert(s@.subrange(p@.len() as int, s@.len() as int) =~= s@.skip(p@.len() as int));
        }
        r
    } else {
        s
    }
}

/// The index of the first occurrence of `c` in `s`, if any.
fn find_char_str(s: &str, c: char) -> (r: Option<usize>)
    ensures
        r matches Some(i) ==> find_char(s@, c) == i,
        r is None ==> find_char(s@, c) == -1,
{
    let n = s.unicode_len();
    let mut i: usize = 0;
    while i < n
        invariant
            i <= n,
            n == s@.len(),
            forall|j: int| 0 <= j < i ==> s@[j] != c,
        decreases n - i,
    {
        if s.get_char(i) == c {
            proof {
                lemma_find_char(s@, c);
            }
            return Some(i);
        }
        i = i + 1;
    }
    proof {
        lemma_find_char(s@, c);
    }
    None
}

/// Normalize an arbitrary URL or hostname input into the registrable domain
/// used as the vault's key, or `None` where no root domain can be extracted.
pub fn parse_domain(url: &str) -> (r: Option<String>)
    ensures
        r matches Some(d) ==> spec_normalize(url@) == Some(d@) && d@.len() > 0 && field_ok(d@),
        r is None ==> spec_normalize(url@) is None,
{
    let s1 = strip_prefix_str(url, "http://");
    let s2 = strip_prefix_str(s1, "https://");
    let s3 = strip_prefix_str(s2, "www.");
    let host = match find_char_str(s3, '/') {
        Some(i) => {
            proof {
                lemma_find_char(s3@, '/');
            }
            s3.substring_char(0, i)
        },
        None => s3,
    };
    proof {
        assert(host@ == before_slash(s3@));
    }
    registrable_root(host)
}

} // verus!
