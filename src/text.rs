use vstd::prelude::*;
use crate::error::TorrentError;

verus! {

/// The characters that a byte sequence spells as UTF-8, or `None` where it is
/// not valid UTF-8.
pub uninterp spec fn utf8_decode(b: Seq<u8>) -> Option<Seq<char>>;

pub open spec fn is_ascii_bytes(b: Seq<u8>) -> bool {
    forall|i: int| 0 <= i < b.len() ==> #[trigger] b[i] < 128
}

/// ASCII bytes read as the characters of the same code.
pub open spec fn ascii_chars(b: Seq<u8>) -> Seq<char> {
    b.map_values(|c: u8| c as char)
}

/// Relies on `String::from_utf8`: it succeeds exactly on valid UTF-8, and an
/// ASCII byte stands for the character of the same code.
#[verifier::external_body]
fn string_from_utf8(b: Vec<u8>) -> (r: Option<String>)
    ensures
        r is Some ==> utf8_decode(b@) == Some(r->Some_0@),
        r is None ==> utf8_decode(b@) is None,
        is_ascii_bytes(b@) ==> r is Some && r->Some_0@ == ascii_chars(b@),
{
    String::from_utf8(b).ok()
}

/// Reads bytes as UTF-8 text, for display.
pub fn text_of(b: &[u8]) -> (r: Result<String, TorrentError>)
    ensures
        r matches Ok(s) ==> utf8_decode(b@) == Some(s@),
        r is Err <==> utf8_decode(b@) is None,
        r is Err ==> r == Err::<String, TorrentError>(TorrentError::InvalidUtf8),
        is_ascii_bytes(b@) ==> r is Ok && r->Ok_0@ == ascii_chars(b@),
{
    let mut owned: Vec<u8> = Vec::new();
    let mut k: usize = 0;
    while k < b.len()
        invariant
            0 <= k <= b@.len(),
            owned@ == b@.subrange(0, k as int),
        decreases b@.len() - k,
    {
        owned.push(b[k]);
        k = k + 1;
        assert(owned@ =~= b@.subrange(0, k as int));
    }
    assert(owned@ =~= b@);
    match string_from_utf8(owned) {
        Some(s) => Ok(s),
        None => Err(TorrentError::InvalidUtf8),
    }
}

} // verus!
