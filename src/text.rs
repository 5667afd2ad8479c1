//! Text views over borrowed bytes.

use vstd::prelude::*;
use vstd::string::StringSliceAdditionalSpecFns;
use vstd::utf8::valid_utf8;

verus! {

/// Relies on `core::str::from_utf8`: it succeeds exactly on valid UTF-8, and the text it
/// returns is made of the same bytes.
#[verifier::external_body]
pub(crate) fn utf8_str<'a>(b: &'a [u8]) -> (r: Option<&'a str>)
    ensures
        r is Some <==> valid_utf8(b@),
        r matches Some(s) ==> s.spec_bytes() == b@,
{
    core::str::from_utf8(b).ok()
}

/// The bytes with every trailing zero byte removed.
pub open spec fn trim_nul(s: Seq<u8>) -> Seq<u8>
    decreases s.len(),
{
    if s.len() > 0 && s.last() == 0 {
        trim_nul(s.drop_last())
    } else {
        s
    }
}

/// The bytes with every trailing zero byte removed.
pub fn trim_end_nul(s: &[u8]) -> (r: &[u8])
    ensures
        r@ == trim_nul(s@),
{
    let mut k = s.len();
    proof {
        assert(s@.subrange(0, k as int) =~= s@);
    }
    while k > 0 && s[k - 1] == 0
        invariant
            k <= s@.len(),
            trim_nul(s@.subrange(0, k as int)) == trim_nul(s@),
        decreases k,
    {
        proof {
            assert(s@.subrange(0, k as int).drop_last() =~= s@.subrange(0, k - 1));
        }
        k = k - 1;
    }
    proof {
        assert(s@.subrange(0, 0) =~= Seq::<u8>::empty());
    }
    &s[0..k]
}

/// The text that the bytes, with trailing zero bytes removed, encode.
pub fn trimmed_str<'a>(s: &'a [u8]) -> (r: Option<&'a str>)
    ensures
        r is Some <==> valid_utf8(trim_nul(s@)),
        r matches Some(t) ==> t.spec_bytes() == trim_nul(s@),
{
    utf8_str(trim_end_nul(s))
}

} // verus!
