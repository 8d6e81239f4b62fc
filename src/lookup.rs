use vstd::prelude::*;
use crate::value::{Bencode, BencodeValue};

verus! {

/// The value of the last entry with key `k`: a repeated key takes the value
/// that was written last.
pub open spec fn dict_get(d: Seq<(Seq<u8>, Bencode)>, k: Seq<u8>) -> Option<Bencode>
    decreases d.len(),
{
    if d.len() == 0 {
        None
    } else if d.last().0 == k {
        Some(d.last().1)
    } else {
        dict_get(d.drop_last(), k)
    }
}

/// The value under key `k` when `v` is a dictionary.
pub open spec fn lookup(v: Bencode, k: Seq<u8>) -> Option<Bencode> {
    match v {
        Bencode::Dict(d) => dict_get(d, k),
        _ => None,
    }
}

/// Byte-exact comparison.
pub fn bytes_eq(a: &[u8], b: &[u8]) -> (r: bool)
    ensures
        r == (a@ == b@),
{
    if a.len() != b.len() {
        return false;
    }
    let mut k: usize = 0;
    while k < a.len()
        invariant
            a@.len() == b@.len(),
            0 <= k <= a@.len(),
            a@.subrange(0, k as int) == b@.subrange(0, k as int),
        decreases a@.len() - k,
    {
        if a[k] != b[k] {
            assert(a@[k as int] != b@[k as int]);
            return false;
        }
        k = k + 1;
        assert(a@.subrange(0, k as int) =~= b@.subrange(0, k as int));
    }
    assert(a@ =~= a@.subrange(0, k as int));
    assert(b@ =~= b@.subrange(0, k as int));
    true
}

impl BencodeValue {
    /// The value under `key` when this is a dictionary; `None` when the key
    /// is absent or this is not a dictionary.
    pub fn get(&self, key: &[u8]) -> (r: Option<&BencodeValue>)
        ensures
            r is Some ==> lookup(self@, key@) == Some(r->Some_0@),
            r is None <==> lookup(self@, key@) is None,
    {
        match self {
            BencodeValue::Dictionary(d) => {
                let ghost m = self@->Dict_0;
                let mut k: usize = d.len();
                assert(m.subrange(0, k as int) =~= m);
                while k > 0
                    invariant
                        self@ == Bencode::Dict(m),
                        0 <= k <= d@.len(),
                        m.len() == d@.len(),
                        forall|j: int| 0 <= j < d@.len() ==> m[j] == ((#[trigger] d@[j]).0@, d@[j].1@),
                        dict_get(m, key@) == dict_get(m.subrange(0, k as int), key@),
                    decreases k,
                {
                    let ghost s = m.subrange(0, k as int);
                    assert(s.drop_last() =~= m.subrange(0, k - 1));
                    if bytes_eq(d[k - 1].0.as_slice(), key) {
                        return Some(&d[k - 1].1);
                    }
                    k = k - 1;
                }
                assert(m.subrange(0, 0) =~= Seq::<(Seq<u8>, Bencode)>::empty());
                None
            },
            _ => None,
        }
    }
}

} // verus!
