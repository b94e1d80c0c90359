//! Conversions between strings, character vectors and UTF-8 byte vectors.

use vstd::prelude::*;
use vstd::slice::slice_to_vec;
use vstd::std_specs::iter::IteratorSpec;

verus! {

broadcast use vstd::string::axiom_spec_iter, vstd::string::next_postcondition;

/// Collect the characters of a string slice into a vector.
pub fn str_to_chars(s: &str) -> (r: Vec<char>)
    ensures
        r@ == s@,
{
    let mut out: Vec<char> = Vec::new();
    let mut it = s.chars();
    loop
        invariant
            it.obeys_prophetic_iter_laws(),
            it.decrease() is Some,
            out@ + it.remaining() == s@,
        ensures
            out@ == s@,
        decreases it.decrease()->0,
    {
        let step = it.next();
        match step {
            Some(c) => {
                out.push(c);
            },
            None => {
                proof {
                    assert(it.remaining().len() == 0);
                    assert(out@ =~= s@);
                }
                break;
            },
        }
    }
    out
}

/// Relies on `String`'s `FromIterator<char>` impl: collecting characters
/// yields a string of exactly those characters in order.
#[verifier::external_body]
pub fn chars_to_string(v: &Vec<char>) -> (s: String)
    ensures
        s@ == v@,
{
    v.iter().collect()
}

/// Relies on `String::from_utf8`: it succeeds exactly on valid UTF-8 input
/// and the resulting string's UTF-8 encoding is the input byte sequence.
#[verifier::external_body]
pub fn bytes_to_string(b: &Vec<u8>) -> (r: Option<String>)
    ensures
        match r {
            Some(s) => vstd::utf8::encode_utf8(s@) == b@,
            None => !vstd::utf8::valid_utf8(b@),
        },
{
    match String::from_utf8(b.clone()) {
        Ok(s) => Some(s),
        Err(_) => None,
    }
}

/// UTF-8 bytes of a string slice.
pub fn str_to_bytes(s: &str) -> (r: Vec<u8>)
    ensures
        r@ == vstd::utf8::encode_utf8(s@),
{
    slice_to_vec(s.as_bytes())
}

/// UTF-8 bytes of a string.
pub fn string_to_bytes(s: &String) -> (r: Vec<u8>)
    ensures
        r@ == vstd::utf8::encode_utf8(s@),
{
    str_to_bytes(s.as_str())
}

/// Append `other` to `out`.
pub fn push_str_chars(out: &mut Vec<char>, other: &str)
    ensures
        final(out)@ == old(out)@ + other@,
{
    let mut more = str_to_chars(other);
    out.append(&mut more);
}

/// Whether a string begins with a prefix.
pub fn str_starts_with(s: &str, prefix: &str) -> (r: bool)
    ensures
        r == (prefix@.len() <= s@.len() && s@.take(prefix@.len() as int) == prefix@),
{
    let cs = str_to_chars(s);
    let cp = str_to_chars(prefix);
    if cp.len() > cs.len() {
        return false;
    }
    let mut i: usize = 0;
    while i < cp.len()
        invariant
            0 <= i <= cp@.len() <= cs@.len(),
            cp@ == prefix@,
            cs@ == s@,
            forall|k: int| 0 <= k < i ==> cs@[k] == cp@[k],
        decreases cp@.len() - i,
    {
        if cs[i] != cp[i] {
            proof {
                assert(s@.take(prefix@.len() as int)[i as int] != prefix@[i as int]);
            }
            return false;
        }
        i = i + 1;
    }
    proof {
        assert(s@.take(prefix@.len() as int) =~= prefix@);
    }
    true
}

/// Whether two string slices hold the same characters.
pub fn str_eq(a: &str, b: &str) -> (r: bool)
    ensures
        r == (a@ == b@),
{
    let ca = str_to_chars(a);
    let cb = str_to_chars(b);
    chars_eq(&ca, &cb)
}

/// Whether two character vectors hold the same characters.
pub fn chars_eq(a: &Vec<char>, b: &Vec<char>) -> (r: bool)
    ensures
        r == (a@ == b@),
{
    if a.len() != b.len() {
        return false;
    }
    let mut i: usize = 0;
    while i < a.len()
        invariant
            0 <= i <= a@.len(),
            a@.len() == b@.len(),
            forall|j: int| 0 <= j < i ==> a@[j] == b@[j],
        decreases a@.len() - i,
    {
        if a[i] != b[i] {
            return false;
        }
        i = i + 1;
    }
    proof {
        assert(a@ =~= b@);
    }
    true
}

/// Whether two byte vectors hold the same bytes.
pub fn bytes_eq(a: &Vec<u8>, b: &Vec<u8>) -> (r: bool)
    ensures
        r == (a@ == b@),
{
    if a.len() != b.len() {
        return false;
    }
    let mut i: usize = 0;
    while i < a.len()
        invariant
            0 <= i <= a@.len(),
            a@.len() == b@.len(),
            forall|j: int| 0 <= j < i ==> a@[j] == b@[j],
        decreases a@.len() - i,
    {
        if a[i] != b[i] {
            return false;
        }
        i = i + 1;
    }
    proof {
        assert(a@ =~= b@);
    }
    true
}

/// Copy of a byte subrange.
pub fn bytes_subrange(b: &Vec<u8>, start: usize, end: usize) -> (r: Vec<u8>)
    requires
        start <= end <= b@.len(),
    ensures
        r@ == b@.subrange(start as int, end as int),
{
    let mut out: Vec<u8> = Vec::new();
    let mut i: usize = start;
    while i < end
        invariant
            start <= i <= end <= b@.len(),
            out@ == b@.subrange(start as int, i as int),
        decreases end - i,
    {
        out.push(b[i]);
        proof {
            assert(out@ =~= b@.subrange(start as int, i + 1));
        }
        i = i + 1;
    }
    out
}

/// Whether a principal occurs in the allow list.
pub fn principal_allowed(allowed: &Vec<String>, principal: &str) -> (r: bool)
    ensures
        r == allowed.deep_view().contains(principal@),
{
    let mut i: usize = 0;
    while i < allowed.len()
        invariant
            0 <= i <= allowed@.len(),
            forall|k: int| 0 <= k < i ==> allowed.deep_view()[k] != principal@,
    decreases allowed@.len() - i,
    {
        let hit = str_eq(allowed[i].as_str(), principal);
        proof {
            assert(allowed.deep_view()[i as int] == allowed@[i as int]@);
        }
        if hit {
            proof {
                assert(allowed.deep_view()[i as int] == principal@);
            }
            return true;
        }
        i = i + 1;
    }
    proof {
        if allowed.deep_view().contains(principal@) {
            let k = choose|k: int|
                0 <= k < allowed.deep_view().len() && allowed.deep_view()[k] == principal@;
            assert(allowed.deep_view()[k] != principal@);
        }
    }
    false
}

/// Relies on `std::time::SystemTime::now` and `duration_since(UNIX_EPOCH)`:
/// wall-clock milliseconds since the Unix epoch. Nothing is assumed of the
/// value returned; callers state what holds for every reading.
#[verifier::external_body]
pub fn now_millis() -> u64 {
    std::time::SystemTime::now()
        .duration_since(std::time::UNIX_EPOCH)
        .unwrap_or_default()
        .as_millis() as u64
}

} // verus!
