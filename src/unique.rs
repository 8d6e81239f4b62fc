use vstd::prelude::*;
use crate::decoding::{digits_value, is_digit};
use crate::encoding::{decimal, enc, enc_bytes, enc_dict, enc_list, int_text, lemma_decimal_digits};
use crate::value::Bencode;

verus! {

/// `a` is a prefix of `b`.
pub open spec fn is_prefix(a: Seq<u8>, b: Seq<u8>) -> bool {
    a.len() <= b.len() && a == b.subrange(0, a.len() as int)
}

/// One of the two is a prefix of the other.
pub open spec fn compatible(a: Seq<u8>, b: Seq<u8>) -> bool {
    is_prefix(a, b) || is_prefix(b, a)
}

pub proof fn lemma_compatible_index(a: Seq<u8>, b: Seq<u8>, i: int)
    requires
        compatible(a, b),
        0 <= i < a.len(),
        0 <= i < b.len(),
    ensures
        a[i] == b[i],
{
    if is_prefix(a, b) {
        assert(a[i] == b.subrange(0, a.len() as int)[i]);
    } else {
        assert(b[i] == a.subrange(0, b.len() as int)[i]);
    }
}

/// Compatible sequences have compatible prefixes.
pub proof fn lemma_compatible_heads(a: Seq<u8>, x: Seq<u8>, b: Seq<u8>, y: Seq<u8>)
    requires
        compatible(a + x, b + y),
    ensures
        compatible(a, b),
{
    if a.len() <= b.len() {
        assert forall|i: int| 0 <= i < a.len() implies a[i] == b[i] by {
            lemma_compatible_index(a + x, b + y, i);
        }
        assert(a =~= b.subrange(0, a.len() as int));
    } else {
        assert forall|i: int| 0 <= i < b.len() implies a[i] == b[i] by {
            lemma_compatible_index(a + x, b + y, i);
        }
        assert(b =~= a.subrange(0, b.len() as int));
    }
}

/// After a common prefix, what follows is compatible.
pub proof fn lemma_compatible_tails(a: Seq<u8>, x: Seq<u8>, y: Seq<u8>)
    requires
        compatible(a + x, a + y),
    ensures
        compatible(x, y),
{
    if is_prefix(a + x, a + y) {
        assert(x =~= (a + y).subrange(0, (a + x).len() as int).subrange(a.len() as int, (a + x).len() as int));
        assert(x =~= y.subrange(0, x.len() as int));
    } else {
        assert(y =~= (a + x).subrange(0, (a + y).len() as int).subrange(a.len() as int, (a + y).len() as int));
        assert(y =~= x.subrange(0, y.len() as int));
    }
}

/// The first digit of a decimal is `0` only for zero.
pub proof fn lemma_decimal_lead(n: nat)
    ensures
        decimal(n)[0] == 48 ==> n == 0,
    decreases n,
{
    if n >= 10 {
        lemma_decimal_lead(n / 10);
        lemma_decimal_digits(n / 10);
        assert(decimal(n)[0] == decimal(n / 10)[0]);
    }
}

/// Reading back the digits of a decimal gives the number.
pub proof fn lemma_decimal_value(n: nat)
    ensures
        digits_value(decimal(n)) == n,
    decreases n,
{
    if n < 10 {
        assert(decimal(n).drop_last() =~= Seq::<u8>::empty());
        assert(digits_value(decimal(n).drop_last()) == 0);
        assert(decimal(n).last() == (48 + n) as u8);
    } else {
        lemma_decimal_value(n / 10);
        assert(decimal(n).drop_last() =~= decimal(n / 10));
        assert(decimal(n).last() == (48 + n % 10) as u8);
        assert((n / 10) * 10 + n % 10 == n);
        assert(digits_value(decimal(n)) == digits_value(decimal(n).drop_last()) * 10 + (decimal(n).last() - 48) as nat);
    }
}

/// Two runs of digits, each followed by a non-digit, that are compatible are
/// equal.
pub proof fn lemma_digit_runs(d1: Seq<u8>, x1: Seq<u8>, d2: Seq<u8>, x2: Seq<u8>)
    requires
        forall|i: int| 0 <= i < d1.len() ==> is_digit(#[trigger] d1[i]),
        forall|i: int| 0 <= i < d2.len() ==> is_digit(#[trigger] d2[i]),
        x1.len() > 0,
        x2.len() > 0,
        !is_digit(x1[0]),
        !is_digit(x2[0]),
        compatible(d1 + x1, d2 + x2),
    ensures
        d1 == d2,
        compatible(x1, x2),
{
    if d1.len() < d2.len() {
        lemma_compatible_index(d1 + x1, d2 + x2, d1.len() as int);
        assert((d1 + x1)[d1.len() as int] == x1[0]);
        assert((d2 + x2)[d1.len() as int] == d2[d1.len() as int]);
    } else if d2.len() < d1.len() {
        lemma_compatible_index(d1 + x1, d2 + x2, d2.len() as int);
        assert((d2 + x2)[d2.len() as int] == x2[0]);
        assert((d1 + x1)[d2.len() as int] == d1[d2.len() as int]);
    } else {
        lemma_compatible_heads(d1, x1, d2, x2);
        assert(d1 =~= d2);
        lemma_compatible_tails(d1, x1, x2);
    }
}

/// Equal decimals spell equal numbers.
pub proof fn lemma_decimal_injective(a: nat, b: nat)
    requires
        decimal(a) == decimal(b),
    ensures
        a == b,
{
    lemma_decimal_value(a);
    lemma_decimal_value(b);
}

/// The first byte of an encoding tells its kind.
pub proof fn lemma_enc_first(v: Bencode)
    ensures
        enc(v).len() >= 1,
        v is Bytes ==> is_digit(enc(v)[0]),
        v is Int ==> enc(v)[0] == 105,
        v is List ==> enc(v)[0] == 108,
        v is Dict ==> enc(v)[0] == 100,
{
    if let Bencode::Bytes(b) = v {
        lemma_decimal_digits(b.len());
        assert(enc(v)[0] == decimal(b.len())[0]);
    }
}

pub proof fn lemma_enc_list_append(a: Seq<Bencode>, b: Seq<Bencode>)
    ensures
        enc_list(a + b) == enc_list(a) + enc_list(b),
    decreases b.len(),
{
    if b.len() == 0 {
        assert(a + b =~= a);
        assert(enc_list(a) + enc_list(b) =~= enc_list(a));
    } else {
        let c = b.subrange(0, b.len() - 1);
        assert((a + b).subrange(0, (a + b).len() - 1) =~= a + c);
        lemma_enc_list_append(a, c);
        assert((a + b)[(a + b).len() - 1] == b[b.len() - 1]);
        assert(enc_list(a + b) =~= enc_list(a) + enc_list(b));
    }
}

pub proof fn lemma_enc_dict_append(a: Seq<(Seq<u8>, Bencode)>, b: Seq<(Seq<u8>, Bencode)>)
    ensures
        enc_dict(a + b) == enc_dict(a) + enc_dict(b),
    decreases b.len(),
{
    if b.len() == 0 {
        assert(a + b =~= a);
        assert(enc_dict(a) + enc_dict(b) =~= enc_dict(a));
    } else {
        let c = b.subrange(0, b.len() - 1);
        assert((a + b).subrange(0, (a + b).len() - 1) =~= a + c);
        lemma_enc_dict_append(a, c);
        assert((a + b)[(a + b).len() - 1] == b[b.len() - 1]);
        assert(enc_dict(a + b) =~= enc_dict(a) + enc_dict(b));
    }
}

/// The encoding of a non-empty list of items is the first item's encoding,
/// then the rest.
pub proof fn lemma_enc_list_first(l: Seq<Bencode>)
    requires
        l.len() > 0,
    ensures
        enc_list(l) == enc(l[0]) + enc_list(l.subrange(1, l.len() as int)),
{
    let h = seq![l[0]];
    let t = l.subrange(1, l.len() as int);
    assert(l =~= h + t);
    lemma_enc_list_append(h, t);
    assert(h.subrange(0, 0) =~= Seq::<Bencode>::empty());
    assert(enc_list(h.subrange(0, 0)) =~= Seq::<u8>::empty());
    assert(enc_list(h) =~= enc(l[0]));
}

pub proof fn lemma_enc_dict_first(d: Seq<(Seq<u8>, Bencode)>)
    requires
        d.len() > 0,
    ensures
        enc_dict(d) == enc_bytes(d[0].0) + enc(d[0].1) + enc_dict(d.subrange(1, d.len() as int)),
{
    let h = seq![d[0]];
    let t = d.subrange(1, d.len() as int);
    assert(d =~= h + t);
    lemma_enc_dict_append(h, t);
    assert(h.subrange(0, 0) =~= Seq::<(Seq<u8>, Bencode)>::empty());
    assert(enc_dict(h.subrange(0, 0)) =~= Seq::<u8>::empty());
    assert(enc_dict(h) =~= enc_bytes(d[0].0) + enc(d[0].1));
}

/// Byte strings are self-delimiting.
pub proof fn lemma_bytes_unique(a: Seq<u8>, b: Seq<u8>)
    requires
        compatible(enc_bytes(a), enc_bytes(b)),
    ensures
        a == b,
{
    lemma_decimal_digits(a.len());
    lemma_decimal_digits(b.len());
    let x1 = seq![58u8] + a;
    let x2 = seq![58u8] + b;
    assert(enc_bytes(a) =~= decimal(a.len()) + x1);
    assert(enc_bytes(b) =~= decimal(b.len()) + x2);
    lemma_digit_runs(decimal(a.len()), x1, decimal(b.len()), x2);
    lemma_decimal_injective(a.len(), b.len());
    lemma_compatible_tails(seq![58u8], a, b);
    assert(a =~= b.subrange(0, a.len() as int) || b =~= a.subrange(0, b.len() as int));
    assert(a =~= b);
}

proof fn lemma_int_unique(a: int, b: int)
    requires
        compatible(seq![105u8] + int_text(a) + seq![101u8], seq![105u8] + int_text(b) + seq![101u8]),
    ensures
        a == b,
{
    let e = seq![101u8];
    assert(seq![105u8] + int_text(a) + e =~= seq![105u8] + (int_text(a) + e));
    assert(seq![105u8] + int_text(b) + e =~= seq![105u8] + (int_text(b) + e));
    lemma_compatible_tails(seq![105u8], int_text(a) + e, int_text(b) + e);
    let na: nat = if a < 0 { (-a) as nat } else { a as nat };
    let nb: nat = if b < 0 { (-b) as nat } else { b as nat };
    lemma_decimal_digits(na);
    lemma_decimal_digits(nb);
    if a < 0 && b < 0 {
        assert(int_text(a) + e =~= seq![45u8] + (decimal(na) + e));
        assert(int_text(b) + e =~= seq![45u8] + (decimal(nb) + e));
        lemma_compatible_tails(seq![45u8], decimal(na) + e, decimal(nb) + e);
        lemma_digit_runs(decimal(na), e, decimal(nb), e);
        lemma_decimal_injective(na, nb);
    } else if a >= 0 && b >= 0 {
        lemma_digit_runs(decimal(na), e, decimal(nb), e);
        lemma_decimal_injective(na, nb);
    } else {
        lemma_compatible_index(int_text(a) + e, int_text(b) + e, 0);
        assert((int_text(a) + e)[0] == int_text(a)[0]);
        assert((int_text(b) + e)[0] == int_text(b)[0]);
        assert(a < 0 ==> int_text(a)[0] == 45);
        assert(b < 0 ==> int_text(b)[0] == 45);
        assert(a >= 0 ==> int_text(a)[0] == decimal(na)[0]);
        assert(b >= 0 ==> int_text(b)[0] == decimal(nb)[0]);
    }
}

/// Encodings are self-delimiting: when one encoding is a prefix of another,
/// the two terms are the same.
pub proof fn lemma_enc_unique(v: Bencode, w: Bencode)
    requires
        compatible(enc(v), enc(w)),
    ensures
        v == w,
    decreases v,
{
    lemma_enc_first(v);
    lemma_enc_first(w);
    lemma_compatible_index(enc(v), enc(w), 0);
    let e = seq![101u8];
    match v {
        Bencode::Bytes(a) => {
            lemma_bytes_unique(a, w->Bytes_0);
        },
        Bencode::Int(a) => {
            lemma_int_unique(a, w->Int_0);
        },
        Bencode::List(l1) => {
            let l2 = w->List_0;
            assert(enc(v) =~= seq![108u8] + (enc_list(l1) + e));
            assert(enc(w) =~= seq![108u8] + (enc_list(l2) + e));
            lemma_compatible_tails(seq![108u8], enc_list(l1) + e, enc_list(l2) + e);
            lemma_list_unique(l1, l2, e, e);
        },
        Bencode::Dict(d1) => {
            let d2 = w->Dict_0;
            assert(enc(v) =~= seq![100u8] + (enc_dict(d1) + e));
            assert(enc(w) =~= seq![100u8] + (enc_dict(d2) + e));
            lemma_compatible_tails(seq![100u8], enc_dict(d1) + e, enc_dict(d2) + e);
            lemma_dict_unique(d1, d2, e, e);
        },
    }
}

/// Item sequences followed by an `e` are self-delimiting too.
pub proof fn lemma_list_unique(l1: Seq<Bencode>, l2: Seq<Bencode>, x1: Seq<u8>, x2: Seq<u8>)
    requires
        x1.len() > 0 && x1[0] == 101,
        x2.len() > 0 && x2[0] == 101,
        compatible(enc_list(l1) + x1, enc_list(l2) + x2),
    ensures
        l1 == l2,
        compatible(x1, x2),
    decreases l1,
{
    if l1.len() == 0 && l2.len() == 0 {
        assert(enc_list(l1) + x1 =~= x1);
        assert(enc_list(l2) + x2 =~= x2);
        assert(l1 =~= l2);
    } else if l1.len() == 0 {
        lemma_enc_list_first(l2);
        lemma_enc_first(l2[0]);
        assert(enc_list(l1) + x1 =~= x1);
        lemma_compatible_index(enc_list(l1) + x1, enc_list(l2) + x2, 0);
        assert((enc_list(l2) + x2)[0] == enc(l2[0])[0]);
    } else if l2.len() == 0 {
        lemma_enc_list_first(l1);
        lemma_enc_first(l1[0]);
        assert(enc_list(l2) + x2 =~= x2);
        lemma_compatible_index(enc_list(l1) + x1, enc_list(l2) + x2, 0);
        assert((enc_list(l1) + x1)[0] == enc(l1[0])[0]);
    } else {
        let t1 = l1.subrange(1, l1.len() as int);
        let t2 = l2.subrange(1, l2.len() as int);
        lemma_enc_list_first(l1);
        lemma_enc_list_first(l2);
        assert(enc_list(l1) + x1 =~= enc(l1[0]) + (enc_list(t1) + x1));
        assert(enc_list(l2) + x2 =~= enc(l2[0]) + (enc_list(t2) + x2));
        lemma_compatible_heads(enc(l1[0]), enc_list(t1) + x1, enc(l2[0]), enc_list(t2) + x2);
        lemma_enc_unique(l1[0], l2[0]);
        lemma_compatible_tails(enc(l1[0]), enc_list(t1) + x1, enc_list(t2) + x2);
        lemma_list_unique(t1, t2, x1, x2);
        assert(l1 =~= seq![l1[0]] + t1);
        assert(l2 =~= seq![l2[0]] + t2);
    }
}

/// Entry sequences followed by an `e` are self-delimiting too.
pub proof fn lemma_dict_unique(d1: Seq<(Seq<u8>, Bencode)>, d2: Seq<(Seq<u8>, Bencode)>, x1: Seq<u8>, x2: Seq<u8>)
    requires
        x1.len() > 0 && x1[0] == 101,
        x2.len() > 0 && x2[0] == 101,
        compatible(enc_dict(d1) + x1, enc_dict(d2) + x2),
    ensures
        d1 == d2,
        compatible(x1, x2),
    decreases d1,
{
    if d1.len() == 0 && d2.len() == 0 {
        assert(enc_dict(d1) + x1 =~= x1);
        assert(enc_dict(d2) + x2 =~= x2);
        assert(d1 =~= d2);
    } else if d1.len() == 0 {
        lemma_enc_dict_first(d2);
        lemma_enc_first(Bencode::Bytes(d2[0].0));
        assert(enc_dict(d1) + x1 =~= x1);
        lemma_compatible_index(enc_dict(d1) + x1, enc_dict(d2) + x2, 0);
        assert((enc_dict(d2) + x2)[0] == enc_bytes(d2[0].0)[0]);
    } else if d2.len() == 0 {
        lemma_enc_dict_first(d1);
        lemma_enc_first(Bencode::Bytes(d1[0].0));
        assert(enc_dict(d2) + x2 =~= x2);
        lemma_compatible_index(enc_dict(d1) + x1, enc_dict(d2) + x2, 0);
        assert((enc_dict(d1) + x1)[0] == enc_bytes(d1[0].0)[0]);
    } else {
        let t1 = d1.subrange(1, d1.len() as int);
        let t2 = d2.subrange(1, d2.len() as int);
        let k1 = enc_bytes(d1[0].0);
        let k2 = enc_bytes(d2[0].0);
        lemma_enc_dict_first(d1);
        lemma_enc_dict_first(d2);
        assert(enc_dict(d1) + x1 =~= k1 + (enc(d1[0].1) + enc_dict(t1) + x1));
        assert(enc_dict(d2) + x2 =~= k2 + (enc(d2[0].1) + enc_dict(t2) + x2));
        lemma_compatible_heads(k1, enc(d1[0].1) + enc_dict(t1) + x1, k2, enc(d2[0].1) + enc_dict(t2) + x2);
        lemma_bytes_unique(d1[0].0, d2[0].0);
        lemma_compatible_tails(k1, enc(d1[0].1) + enc_dict(t1) + x1, enc(d2[0].1) + enc_dict(t2) + x2);
        assert(enc(d1[0].1) + enc_dict(t1) + x1 =~= enc(d1[0].1) + (enc_dict(t1) + x1));
        assert(enc(d2[0].1) + enc_dict(t2) + x2 =~= enc(d2[0].1) + (enc_dict(t2) + x2));
        lemma_compatible_heads(enc(d1[0].1), enc_dict(t1) + x1, enc(d2[0].1), enc_dict(t2) + x2);
        lemma_enc_unique(d1[0].1, d2[0].1);
        lemma_compatible_tails(enc(d1[0].1), enc_dict(t1) + x1, enc_dict(t2) + x2);
        lemma_dict_unique(t1, t2, x1, x2);
        assert(d1[0] == d2[0]);
        assert(d1 =~= seq![d1[0]] + t1);
        assert(d2 =~= seq![d2[0]] + t2);
    }
}

} // verus!
