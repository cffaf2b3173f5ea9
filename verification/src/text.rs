use vstd::prelude::*;
use vstd::utf8::{valid_utf8, decode_utf8};
use vstd::string::StrSliceExecFns;

verus! {

/// What `str::to_lowercase` returns for the given characters; the result
/// depends on the characters alone.
pub uninterp spec fn lower_of(s: Seq<char>) -> Seq<char>;

/// Relies on str::to_lowercase: the folded text is a function of the input
/// characters alone.
#[verifier::external_body]
pub fn to_lowercase(s: &String) -> (r: String)
    ensures
        r@ == lower_of(s@),
{
    s.as_str().to_lowercase()
}

/// Relies on core::str::from_utf8: it succeeds exactly on valid UTF-8, and
/// the resulting string holds the bytes' decoded characters.
#[verifier::external_body]
pub fn utf8_to_string(bytes: &Vec<u8>) -> (r: Option<String>)
    ensures
        r is Some <==> valid_utf8(bytes@),
        r is Some ==> r.unwrap()@ == decode_utf8(bytes@),
{
    match core::str::from_utf8(bytes.as_slice()) {
        Ok(s) => Option::Some(s.to_string()),
        Err(_) => Option::None,
    }
}

/// `p` is a prefix of `s`.
pub open spec fn has_prefix(s: Seq<char>, p: Seq<char>) -> bool {
    p.len() <= s.len() && s.subrange(0, p.len() as int) == p
}

/// Whether the string starts with the given prefix.
pub fn starts_with_text(s: &String, p: &str) -> (r: bool)
    ensures
        r == has_prefix(s@, p@),
{
    let n = p.unicode_len();
    let m = s.as_str().unicode_len();
    if n > m {
        proof {
            assert(!has_prefix(s@, p@));
        }
        return false;
    }
    let mut i: usize = 0;
    while i < n
        invariant
            n == p@.len(),
            m == s@.len(),
            n <= m,
            0 <= i <= n,
            forall|j: int| 0 <= j < i ==> s@[j] == p@[j],
        decreases n - i,
    {
        if s.as_str().get_char(i) != p.get_char(i) {
            proof {
                assert(s@.subrange(0, n as int)[i as int] != p@[i as int]);
            }
            return false;
        }
        i += 1;
    }
    proof {
        assert(s@.subrange(0, n as int) =~= p@);
    }
    true
}

} // verus!
