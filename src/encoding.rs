use vstd::prelude::*;
use crate::value::{Bencode, BencodeValue};

verus! {

/// ASCII decimal digits of `n`, most significant first, with no leading zero.
pub open spec fn decimal(n: nat) -> Seq<u8>
    decreases n,
{
    if n < 10 {
        seq![(48 + n) as u8]
    } else {
        decimal(n / 10).push((48 + n % 10) as u8)
    }
}

/// ASCII text of a signed integer: a `-` for negative values, then the digits.
pub open spec fn int_text(i: int) -> Seq<u8> {
    if i < 0 {
        seq![45u8] + decimal((-i) as nat)
    } else {
        decimal(i as nat)
    }
}

/// `<length>:<bytes>`.
pub open spec fn enc_bytes(b: Seq<u8>) -> Seq<u8> {
    decimal(b.len()) + seq![58u8] + b
}

/// The bencoding of a term.
pub open spec fn enc(v: Bencode) -> Seq<u8>
    decreases v,
{
    match v {
        Bencode::Bytes(b) => enc_bytes(b),
        Bencode::Int(i) => seq![105u8] + int_text(i) + seq![101u8],
        Bencode::List(l) => seq![108u8] + enc_list(l) + seq![101u8],
        Bencode::Dict(d) => seq![100u8] + enc_dict(d) + seq![101u8],
    }
}

/// The bencodings of the items, one after the other.
pub open spec fn enc_list(l: Seq<Bencode>) -> Seq<u8>
    decreases l,
{
    if l.len() == 0 {
        Seq::empty()
    } else {
        enc_list(l.subrange(0, l.len() - 1)) + enc(l[l.len() - 1])
    }
}

/// Each key as a byte string followed by its value, in entry order.
pub open spec fn enc_dict(d: Seq<(Seq<u8>, Bencode)>) -> Seq<u8>
    decreases d,
{
    if d.len() == 0 {
        Seq::empty()
    } else {
        enc_dict(d.subrange(0, d.len() - 1)) + enc_bytes(d[d.len() - 1].0) + enc(d[d.len() - 1].1)
    }
}

/// Appends the decimal digits of `n`.
pub fn push_decimal(out: &mut Vec<u8>, n: u64)
    ensures
        final(out)@ == old(out)@ + decimal(n as nat),
    decreases n,
{
    if n >= 10 {
        push_decimal(out, n / 10);
    }
    out.push(48u8 + (n % 10) as u8);
    assert(final(out)@ =~= old(out)@ + decimal(n as nat));
}

/// Appends the text of a signed integer.
pub fn push_int(out: &mut Vec<u8>, i: i64)
    ensures
        final(out)@ == old(out)@ + int_text(i as int),
{
    if i < 0 {
        out.push(45u8);
        let m: u64 = if i == i64::MIN { 9223372036854775808u64 } else { (-i) as u64 };
        push_decimal(out, m);
        assert(final(out)@ =~= old(out)@ + int_text(i as int));
    } else {
        push_decimal(out, i as u64);
    }
}

/// Appends every byte of `b`.
pub fn push_all(out: &mut Vec<u8>, b: &[u8])
    ensures
        final(out)@ == old(out)@ + b@,
{
    let mut k: usize = 0;
    while k < b.len()
        invariant
            0 <= k <= b@.len(),
            out@ == old(out)@ + b@.subrange(0, k as int),
        decreases b@.len() - k,
    {
        out.push(b[k]);
        k = k + 1;
        assert(out@ =~= old(out)@ + b@.subrange(0, k as int));
    }
    assert(b@.subrange(0, b@.len() as int) =~= b@);
}

/// Every byte of `decimal(n)` is an ASCII digit.
pub proof fn lemma_decimal_digits(n: nat)
    ensures
        forall|i: int| 0 <= i < decimal(n).len() ==> 48 <= #[trigger] decimal(n)[i] <= 57,
        decimal(n).len() >= 1,
    decreases n,
{
    if n >= 10 {
        lemma_decimal_digits(n / 10);
    }
}

fn push_bytes(out: &mut Vec<u8>, b: &Vec<u8>)
    ensures
        final(out)@ == old(out)@ + enc_bytes(b@),
{
    push_decimal(out, b.len() as u64);
    out.push(58u8);
    push_all(out, b.as_slice());
    assert(final(out)@ =~= old(out)@ + enc_bytes(b@));
}

/// Appends the bencoding of `v`.
pub fn encode_into(out: &mut Vec<u8>, v: &BencodeValue)
    ensures
        final(out)@ == old(out)@ + enc(v@),
    decreases v,
{
    match v {
        BencodeValue::ByteString(b) => {
            push_bytes(out, b);
        },
        BencodeValue::Integer(i) => {
            out.push(105u8);
            push_int(out, *i);
            out.push(101u8);
            assert(final(out)@ =~= old(out)@ + enc(v@));
        },
        BencodeValue::List(l) => {
            let ghost m = v@->List_0;
            out.push(108u8);
            let mut k: usize = 0;
            while k < l.len()
                invariant
                    0 <= k <= l.len(),
                    *v == BencodeValue::List(*l),
                    m.len() == l.len(),
                    forall|j: int| 0 <= j < l.len() ==> m[j] == (#[trigger] l[j])@,
                    out@ == old(out)@ + seq![108u8] + enc_list(m.subrange(0, k as int)),
                decreases l.len() - k,
            {
                assert(decreases_to!(*v => v->List_0));
                assert(decreases_to!(*l => l@));
                assert(decreases_to!(l@ => l@[k as int]));
                assert(decreases_to!(v => l[k as int]));
                encode_into(out, &l[k]);
                assert(m.subrange(0, k + 1).subrange(0, k as int) =~= m.subrange(0, k as int));
                k = k + 1;
            }
            out.push(101u8);
            assert(m.subrange(0, m.len() as int) =~= m);
            assert(final(out)@ =~= old(out)@ + enc(v@));
        },
        BencodeValue::Dictionary(d) => {
            let ghost m = v@->Dict_0;
            assert(m.len() == d.len());
            assert(forall|j: int| 0 <= j < d.len() ==> m[j] == ((#[trigger] d[j]).0@, d[j].1@));
            out.push(100u8);
            let mut k: usize = 0;
            while k < d.len()
                invariant
                    0 <= k <= d.len(),
                    *v == BencodeValue::Dictionary(*d),
                    m.len() == d.len(),
                    forall|j: int| 0 <= j < d.len() ==> m[j] == ((#[trigger] d[j]).0@, d[j].1@),
                    out@ == old(out)@ + seq![100u8] + enc_dict(m.subrange(0, k as int)),
                decreases d.len() - k,
            {
                assert(decreases_to!(*v => v->Dictionary_0));
                assert(decreases_to!(*d => d@));
                assert(decreases_to!(d@ => d@[k as int]));
                assert(decreases_to!(d@[k as int] => d@[k as int].1));
                assert(decreases_to!(v => d[k as int].1));
                push_bytes(out, &d[k].0);
                encode_into(out, &d[k].1);
                assert(m.subrange(0, k + 1).subrange(0, k as int) =~= m.subrange(0, k as int));
                k = k + 1;
            }
            out.push(101u8);
            assert(m.subrange(0, m.len() as int) =~= m);
            assert(final(out)@ =~= old(out)@ + enc(v@));
        },
    }
}

/// The canonical bencoding of `v`: dictionary entries are written in the
/// order they hold.
pub fn encode(v: &BencodeValue) -> (r: Vec<u8>)
    ensures
        r@ == enc(v@),
{
    let mut out: Vec<u8> = Vec::new();
    encode_into(&mut out, v);
    assert(out@ =~= enc(v@));
    out
}

} // verus!
