//! Facts about the bencode grammar that the decoder's proofs use: where an
//! encoding and the input agree, and which terms a cut-off input can start.

use vstd::prelude::*;
use crate::decoding::{digits_value, int_enc, is_digit, truncated, valid};
use crate::encoding::{decimal, enc, enc_bytes, enc_dict, enc_list, lemma_decimal_digits};
use crate::unique::{
    compatible, is_prefix, lemma_bytes_unique, lemma_compatible_heads, lemma_compatible_index,
    lemma_compatible_tails, lemma_decimal_lead, lemma_decimal_value, lemma_enc_dict_append,
    lemma_enc_dict_first, lemma_enc_first, lemma_enc_list_append, lemma_enc_list_first,
    lemma_enc_unique,
};
use crate::value::Bencode;

verus! {

/// One more digit: the number's last digit and the rest.
pub(crate) proof fn lemma_digit_step(n: nat, d: nat)
    requires
        n >= 1,
        d < 10,
    ensures
        (n * 10 + d) / 10 == n,
        (n * 10 + d) % 10 == d,
        n * 10 + d >= 10,
{
    assert((n * 10 + d) / 10 == n && (n * 10 + d) % 10 == d && n * 10 + d >= 10) by (nonlinear_arith)
        requires n >= 1, d < 10;
}

/// A run of digits with no leading zero is the decimal text of its value.
pub(crate) proof fn lemma_decimal_of_digits(s: Seq<u8>)
    requires
        s.len() >= 1,
        forall|j: int| 0 <= j < s.len() ==> is_digit(#[trigger] s[j]),
        s[0] != 48,
    ensures
        digits_value(s) >= 1,
        decimal(digits_value(s)) == s,
    decreases s.len(),
{
    if s.len() == 1 {
        assert(s.drop_last() =~= Seq::<u8>::empty());
        assert(digits_value(s.drop_last()) == 0);
        assert(s.last() == s[0]);
        assert(decimal(digits_value(s)) =~= s);
    } else {
        let t = s.drop_last();
        assert(t[0] == s[0]);
        lemma_decimal_of_digits(t);
        let d = (s.last() - 48) as nat;
        lemma_digit_step(digits_value(t), d);
        assert(decimal(digits_value(s)) =~= s);
    }
}

/// What an input holds at `pos` when the encoding of the integer `k` starts
/// there.
pub(crate) proof fn lemma_int_prefix(input: Seq<u8>, pos: int, k: int, p: int, n: nat)
    requires
        0 <= pos < input.len(),
        is_prefix(int_enc(k), input.subrange(pos, input.len() as int)),
        p == if k < 0 { pos + 2 } else { pos + 1 },
        n == if k < 0 { -k } else { k },
    ensures
        pos + 1 < input.len(),
        input[pos + 1] == 45 <==> k < 0,
        p + 1 < input.len(),
        input[p] == 48 ==> k == 0 && input[p + 1] == 101,
        input[p] != 48 ==> 49 <= input[p] <= 57,
        forall|j: int| 0 <= j < decimal(n).len() ==> input[p + j] == #[trigger] decimal(n)[j],
        forall|j: int| 0 <= j < decimal(n).len() ==> is_digit(#[trigger] decimal(n)[j]),
        decimal(n).len() >= 1,
        p + decimal(n).len() < input.len(),
        input[p + decimal(n).len()] == 101,
{
    let d = decimal(n);
    lemma_decimal_digits(n);
    lemma_decimal_lead(n);
    let e = int_enc(k);
    let rest = input.subrange(pos, input.len() as int);
    assert forall|j: int| 0 <= j < e.len() implies input[pos + j] == e[j] by {
        assert(rest[j] == e[j]);
    }
    if k < 0 {
        assert(e =~= seq![105u8, 45u8] + d + seq![101u8]);
        assert(e[1] == 45);
        assert forall|j: int| 0 <= j < d.len() implies input[pos + 2 + j] == #[trigger] d[j] by {
            assert(e[2 + j] == d[j]);
        }
        assert(e[2 + d.len() as int] == 101);
        assert(input[pos + 2] == d[0]);
    } else {
        assert(e =~= seq![105u8] + d + seq![101u8]);
        assert(e[1] == d[0]);
        assert forall|j: int| 0 <= j < d.len() implies input[pos + 1 + j] == #[trigger] d[j] by {
            assert(e[1 + j] == d[j]);
        }
        assert(e[1 + d.len() as int] == 101);
        if d[0] == 48 {
            assert(decimal(0) =~= seq![48u8]);
        }
    }
}

/// A maximal run of digits that a decimal followed by a non-digit starts is
/// that decimal.
pub(crate) proof fn lemma_run_is(input: Seq<u8>, s: int, q: int, d: Seq<u8>)
    requires
        0 <= s < q <= input.len(),
        forall|j: int| s <= j < q ==> is_digit(#[trigger] input[j]),
        q < input.len() ==> !is_digit(input[q]),
        d.len() >= 1,
        forall|j: int| 0 <= j < d.len() ==> is_digit(#[trigger] d[j]),
        s + d.len() < input.len(),
        forall|j: int| 0 <= j < d.len() ==> input[s + j] == #[trigger] d[j],
        !is_digit(input[s + d.len()]),
    ensures
        q == s + d.len(),
        input.subrange(s, q) == d,
{
    if q < s + d.len() {
        assert(input[s + (q - s)] == d[q - s]);
    } else if q > s + d.len() {
        assert(is_digit(input[s + d.len()]));
    }
    assert(input.subrange(s, q) =~= d);
}

/// What an input holds at `pos` when the encoding of the byte string `b`
/// starts there.
pub(crate) proof fn lemma_bytes_prefix(input: Seq<u8>, pos: int, b: Seq<u8>)
    requires
        0 <= pos < input.len(),
        is_prefix(enc_bytes(b), input.subrange(pos, input.len() as int)),
    ensures
        ({
            let d = decimal(b.len());
            &&& is_digit(input[pos])
            &&& input[pos] == 48 ==> b.len() == 0 && pos + 1 < input.len() && input[pos + 1] == 58
            &&& forall|j: int| 0 <= j < d.len() ==> input[pos + j] == #[trigger] d[j]
            &&& pos + d.len() < input.len()
            &&& input[pos + d.len()] == 58
            &&& pos + d.len() + 1 + b.len() <= input.len()
        }),
{
    let d = decimal(b.len());
    lemma_decimal_digits(b.len());
    lemma_decimal_lead(b.len());
    let e = enc_bytes(b);
    let rest = input.subrange(pos, input.len() as int);
    assert forall|j: int| 0 <= j < e.len() implies input[pos + j] == e[j] by {
        assert(rest[j] == e[j]);
    }
    assert forall|j: int| 0 <= j < d.len() implies input[pos + j] == #[trigger] d[j] by {
        assert(e[j] == d[j]);
    }
    assert(e[d.len() as int] == 58);
    if d[0] == 48 {
        assert(decimal(0) =~= seq![48u8]);
    }
}

/// A prefix of a run of digits spells at most what the run spells.
pub(crate) proof fn lemma_digits_prefix_value(d: Seq<u8>, j: int)
    requires
        0 <= j <= d.len(),
        forall|i: int| 0 <= i < d.len() ==> is_digit(#[trigger] d[i]),
    ensures
        digits_value(d.subrange(0, j)) <= digits_value(d),
    decreases d.len(),
{
    if j < d.len() {
        let t = d.drop_last();
        assert(t.subrange(0, j) =~= d.subrange(0, j));
        lemma_digits_prefix_value(t, j);
    } else {
        assert(d.subrange(0, j) =~= d);
    }
}

/// Where the encoding of the integer `k` and the input at `pos` agree.
pub(crate) proof fn lemma_int_compat(input: Seq<u8>, pos: int, k: int, p: int, n: nat)
    requires
        0 <= pos,
        pos + 1 < input.len(),
        compatible(int_enc(k), input.subrange(pos, input.len() as int)),
        p == if k < 0 { pos + 2 } else { pos + 1 },
        n == if k < 0 { -k } else { k },
    ensures
        input[pos + 1] == 45 <==> k < 0,
        forall|j: int| 0 <= j < decimal(n).len() && p + j < input.len() ==> input[p + j] == #[trigger] decimal(n)[j],
        forall|j: int| 0 <= j < decimal(n).len() ==> is_digit(#[trigger] decimal(n)[j]),
        decimal(n).len() >= 1,
        decimal(n)[0] == 48 ==> n == 0,
        p + decimal(n).len() < input.len() ==> input[p + decimal(n).len()] == 101,
{
    let d = decimal(n);
    lemma_decimal_digits(n);
    lemma_decimal_lead(n);
    let e = int_enc(k);
    let rest = input.subrange(pos, input.len() as int);
    assert forall|j: int| 0 <= j < e.len() && pos + j < input.len() implies input[pos + j] == e[j] by {
        lemma_compatible_index(e, rest, j);
    }
    assert(input[pos + 1] == e[1]);
    if k < 0 {
        assert(e =~= seq![105u8, 45u8] + d + seq![101u8]);
        assert(e[1] == 45);
    } else {
        assert(e =~= seq![105u8] + d + seq![101u8]);
        assert(e[1] == d[0]);
    }
    assert forall|j: int| 0 <= j < d.len() && p + j < input.len() implies input[p + j] == #[trigger] d[j] by {
        assert(e[p - pos + j] == d[j]);
    }
    if p + d.len() < input.len() {
        assert(e[p - pos + d.len()] == 101);
    }
}

/// Where the encoding of the byte string `b` and the input at `pos` agree.
pub(crate) proof fn lemma_bytes_compat(input: Seq<u8>, pos: int, b: Seq<u8>)
    requires
        0 <= pos < input.len(),
        compatible(enc_bytes(b), input.subrange(pos, input.len() as int)),
    ensures
        forall|j: int| 0 <= j < decimal(b.len()).len() && pos + j < input.len()
            ==> input[pos + j] == #[trigger] decimal(b.len())[j],
        forall|j: int| 0 <= j < decimal(b.len()).len() ==> is_digit(#[trigger] decimal(b.len())[j]),
        decimal(b.len())[0] == 48 ==> b.len() == 0 && decimal(b.len()).len() == 1,
        pos + decimal(b.len()).len() < input.len() ==> input[pos + decimal(b.len()).len()] == 58,
{
    let d = decimal(b.len());
    lemma_decimal_digits(b.len());
    lemma_decimal_lead(b.len());
    let e = enc_bytes(b);
    let rest = input.subrange(pos, input.len() as int);
    assert forall|j: int| 0 <= j < d.len() && pos + j < input.len() implies input[pos + j] == #[trigger] d[j] by {
        lemma_compatible_index(e, rest, j);
        assert(e[j] == d[j]);
    }
    if pos + d.len() < input.len() {
        lemma_compatible_index(e, rest, d.len() as int);
        assert(e[d.len() as int] == 58);
    }
    if d[0] == 48 {
        assert(decimal(0) =~= seq![48u8]);
    }
}

/// A run of digits at `s` that stops before `q` where a non-digit stands,
/// read against a decimal that the input agrees with: the run is no longer
/// than the decimal, and it is all of it when a non-digit follows it.
pub(crate) proof fn lemma_run_within(input: Seq<u8>, s: int, q: int, d: Seq<u8>, c: u8)
    requires
        0 <= s < q <= input.len(),
        forall|j: int| s <= j < q ==> is_digit(#[trigger] input[j]),
        q < input.len() ==> !is_digit(input[q]),
        d.len() >= 1,
        forall|j: int| 0 <= j < d.len() ==> is_digit(#[trigger] d[j]),
        forall|j: int| 0 <= j < d.len() && s + j < input.len() ==> input[s + j] == #[trigger] d[j],
        !is_digit(c),
        s + d.len() < input.len() ==> input[s + d.len()] == c,
    ensures
        q - s <= d.len(),
        input.subrange(s, q) == d.subrange(0, q - s),
        q < input.len() ==> q - s == d.len(),
{
    if q - s > d.len() {
        assert(is_digit(input[s + d.len()]));
    }
    if q < input.len() && q - s < d.len() {
        assert(input[s + (q - s)] == d[q - s]);
    }
    assert forall|j: int| 0 <= j < q - s implies input.subrange(s, q)[j] == d.subrange(0, q - s)[j] by {
        assert(input[s + j] == d[j]);
    }
    assert(input.subrange(s, q) =~= d.subrange(0, q - s));
}

/// When the encoding of `b` starts at `pos` and its length has no leading
/// zero, the run of digits there is the length.
pub(crate) proof fn lemma_bytes_run(input: Seq<u8>, pos: int, q: int, b: Seq<u8>)
    requires
        0 <= pos < q <= input.len(),
        is_prefix(enc_bytes(b), input.subrange(pos, input.len() as int)),
        input[pos] != 48,
        forall|j: int| pos <= j < q ==> is_digit(#[trigger] input[j]),
        q < input.len() ==> !is_digit(input[q]),
    ensures
        q < input.len(),
        input[q] == 58,
        digits_value(input.subrange(pos, q)) == b.len(),
        q + 1 + b.len() <= input.len(),
{
    lemma_bytes_prefix(input, pos, b);
    lemma_decimal_digits(b.len());
    lemma_run_is(input, pos, q, decimal(b.len()));
    lemma_decimal_value(b.len());
}

/// An input that holds the decimal `n` at `pos`, then at most a `:` and
/// fewer than `n` bytes, stops inside the encoding of a byte string.
pub(crate) proof fn lemma_bytes_witness(input: Seq<u8>, pos: int, q: int, n: nat)
    requires
        0 <= pos < q <= input.len(),
        input.subrange(pos, q) == decimal(n),
        q < input.len() ==> input[q] == 58 && input.len() - q - 1 < n,
    ensures
        exists|b: Seq<u8>| is_prefix(input.subrange(pos, input.len() as int), #[trigger] enc_bytes(b)),
{
    let rest = input.subrange(pos, input.len() as int);
    if q == input.len() {
        let b = Seq::new(n, |i: int| 0u8);
        assert(rest =~= enc_bytes(b).subrange(0, rest.len() as int));
    } else {
        let tail = input.subrange(q + 1, input.len() as int);
        let b = tail + Seq::new((n - tail.len()) as nat, |i: int| 0u8);
        assert(rest =~= input.subrange(pos, q) + seq![58u8] + tail);
        assert(rest =~= enc_bytes(b).subrange(0, rest.len() as int));
    }
}

/// Appending an item appends its encoding.
pub(crate) proof fn lemma_enc_list_push(s: Seq<Bencode>, x: Bencode)
    ensures
        enc_list(s.push(x)) == enc_list(s) + enc(x),
{
    assert(s.push(x).subrange(0, s.len() as int) =~= s);
}

/// Appending an entry appends its key's and value's encodings.
pub(crate) proof fn lemma_enc_dict_push(s: Seq<(Seq<u8>, Bencode)>, k: Seq<u8>, x: Bencode)
    ensures
        enc_dict(s.push((k, x))) == enc_dict(s) + enc_bytes(k) + enc(x),
{
    assert(s.push((k, x)).subrange(0, s.len() as int) =~= s);
}

/// A prefix of `input` from `p` on splits into its two parts.
pub(crate) proof fn lemma_prefix_split(a: Seq<u8>, b: Seq<u8>, input: Seq<u8>, p: int)
    requires
        0 <= p <= input.len(),
        is_prefix(a + b, input.subrange(p, input.len() as int)),
    ensures
        is_prefix(a, input.subrange(p, input.len() as int)),
        is_prefix(b, input.subrange(p + a.len(), input.len() as int)),
{
    let r = input.subrange(p, input.len() as int);
    assert forall|j: int| 0 <= j < a.len() implies a[j] == r[j] by {
        assert((a + b)[j] == r[j]);
    }
    assert(a =~= r.subrange(0, a.len() as int));
    let r2 = input.subrange(p + a.len(), input.len() as int);
    assert forall|j: int| 0 <= j < b.len() implies b[j] == r2[j] by {
        assert((a + b)[a.len() + j] == r[a.len() + j]);
    }
    assert(b =~= r2.subrange(0, b.len() as int));
}

/// The first byte of a term whose encoding starts at `pos`.
pub(crate) proof fn lemma_first_byte(input: Seq<u8>, pos: int, w: Bencode)
    requires
        0 <= pos < input.len(),
        is_prefix(enc(w), input.subrange(pos, input.len() as int)),
    ensures
        enc(w).len() >= 1,
        enc(w)[0] == input[pos],
        w is Bytes ==> is_digit(input[pos]),
        w is Int ==> input[pos] == 105,
        w is List ==> input[pos] == 108,
        w is Dict ==> input[pos] == 100,
{
    lemma_enc_first(w);
    assert(input.subrange(pos, input.len() as int)[0] == input[pos]);
}

/// Inside a list whose first items are `m`, read up to `p`: what comes next
/// is the closing `e` or the next item.
pub(crate) proof fn lemma_list_next(input: Seq<u8>, pos: int, p: int, m: Seq<Bencode>, l: Seq<Bencode>)
    requires
        0 <= pos < p <= input.len(),
        input.subrange(pos, p) == seq![108u8] + enc_list(m),
        l.len() >= m.len(),
        l.subrange(0, m.len() as int) == m,
        is_prefix(enc(Bencode::List(l)), input.subrange(pos, input.len() as int)),
    ensures
        p < input.len(),
        l.len() == m.len() ==> input[p] == 101,
        l.len() > m.len() ==> is_prefix(enc(l[m.len() as int]), input.subrange(p, input.len() as int)),
{
    let t = l.subrange(m.len() as int, l.len() as int);
    assert(l =~= m + t);
    lemma_enc_list_append(m, t);
    let head = seq![108u8] + enc_list(m);
    let tail = enc_list(t) + seq![101u8];
    assert(enc(Bencode::List(l)) =~= head + tail);
    lemma_prefix_split(head, tail, input, pos);
    assert(head.len() == p - pos);
    if t.len() == 0 {
        assert(tail =~= seq![101u8]);
        let r2 = input.subrange(p, input.len() as int);
        assert(tail == r2.subrange(0, 1));
        assert(tail[0] == r2[0]);
        assert(r2[0] == input[p]);
    } else {
        lemma_enc_list_first(t);
        lemma_enc_first(t[0]);
        assert(tail =~= enc(t[0]) + (enc_list(t.subrange(1, t.len() as int)) + seq![101u8]));
        lemma_prefix_split(enc(t[0]), enc_list(t.subrange(1, t.len() as int)) + seq![101u8], input, p);
    }
}

/// Inside a dictionary whose first entries are `m`, read up to `p`: what
/// comes next is the closing `e` or the next key and value.
pub(crate) proof fn lemma_dict_next(input: Seq<u8>, pos: int, p: int, m: Seq<(Seq<u8>, Bencode)>, d: Seq<(Seq<u8>, Bencode)>)
    requires
        0 <= pos < p <= input.len(),
        input.subrange(pos, p) == seq![100u8] + enc_dict(m),
        d.len() >= m.len(),
        d.subrange(0, m.len() as int) == m,
        is_prefix(enc(Bencode::Dict(d)), input.subrange(pos, input.len() as int)),
    ensures
        p < input.len(),
        d.len() == m.len() ==> input[p] == 101,
        d.len() > m.len() ==> is_prefix(
            enc_bytes(d[m.len() as int].0) + enc(d[m.len() as int].1),
            input.subrange(p, input.len() as int),
        ),
{
    let t = d.subrange(m.len() as int, d.len() as int);
    assert(d =~= m + t);
    lemma_enc_dict_append(m, t);
    let head = seq![100u8] + enc_dict(m);
    let tail = enc_dict(t) + seq![101u8];
    assert(enc(Bencode::Dict(d)) =~= head + tail);
    lemma_prefix_split(head, tail, input, pos);
    assert(head.len() == p - pos);
    if t.len() == 0 {
        assert(tail =~= seq![101u8]);
        let r2 = input.subrange(p, input.len() as int);
        assert(tail == r2.subrange(0, 1));
        assert(tail[0] == r2[0]);
        assert(r2[0] == input[p]);
    } else {
        lemma_enc_dict_first(t);
        let entry = enc_bytes(t[0].0) + enc(t[0].1);
        lemma_enc_first(Bencode::Bytes(t[0].0));
        assert(tail =~= entry + (enc_dict(t.subrange(1, t.len() as int)) + seq![101u8]));
        lemma_prefix_split(entry, enc_dict(t.subrange(1, t.len() as int)) + seq![101u8], input, p);
    }
}

/// Two prefixes of one sequence are compatible.
pub(crate) proof fn lemma_prefixes_compatible(a: Seq<u8>, b: Seq<u8>, r: Seq<u8>)
    requires
        is_prefix(a, r),
        is_prefix(b, r),
    ensures
        compatible(a, b),
{
    if a.len() <= b.len() {
        assert(a =~= b.subrange(0, a.len() as int));
    } else {
        assert(b =~= a.subrange(0, b.len() as int));
    }
}

/// In a dictionary whose next key was read as `key` from `p` to `q`, that
/// key is the next entry's and the entry's value starts at `q`.
pub(crate) proof fn lemma_dict_entry(
    input: Seq<u8>,
    pos: int,
    p: int,
    q: int,
    m: Seq<(Seq<u8>, Bencode)>,
    d: Seq<(Seq<u8>, Bencode)>,
    key: Seq<u8>,
)
    requires
        0 <= pos < p < q <= input.len(),
        input.subrange(pos, p) == seq![100u8] + enc_dict(m),
        input[p] != 101,
        input.subrange(p, q) == enc_bytes(key),
        d.len() >= m.len(),
        d.subrange(0, m.len() as int) == m,
        is_prefix(enc(Bencode::Dict(d)), input.subrange(pos, input.len() as int)),
    ensures
        d.len() > m.len(),
        d[m.len() as int].0 == key,
        is_prefix(enc(d[m.len() as int].1), input.subrange(q, input.len() as int)),
{
    lemma_dict_next(input, pos, p, m, d);
    let e = d[m.len() as int];
    lemma_prefix_split(enc_bytes(e.0), enc(e.1), input, p);
    let r = input.subrange(p, input.len() as int);
    assert(enc_bytes(key) =~= r.subrange(0, enc_bytes(key).len() as int));
    lemma_prefixes_compatible(enc_bytes(key), enc_bytes(e.0), r);
    lemma_bytes_unique(key, e.0);
}

/// A prefix that is not matched back is shorter.
pub(crate) proof fn lemma_strict_prefix(a: Seq<u8>, b: Seq<u8>)
    requires
        is_prefix(a, b),
        !is_prefix(b, a),
    ensures
        a.len() < b.len(),
{
    if a.len() == b.len() {
        assert(b =~= a.subrange(0, b.len() as int));
    }
}

/// The first byte of a term whose encoding agrees with the input at `pos`.
pub(crate) proof fn lemma_first_byte_compat(input: Seq<u8>, pos: int, w: Bencode)
    requires
        0 <= pos < input.len(),
        compatible(enc(w), input.subrange(pos, input.len() as int)),
    ensures
        w is Bytes ==> is_digit(input[pos]),
        w is Int ==> input[pos] == 105,
        w is List ==> input[pos] == 108,
        w is Dict ==> input[pos] == 100,
{
    lemma_enc_first(w);
    lemma_compatible_index(enc(w), input.subrange(pos, input.len() as int), 0);
}

/// Inside a list whose first items are `m`, read up to `p`, against a list
/// whose encoding agrees with the input: next is its `e` or its next item.
pub(crate) proof fn lemma_list_next_compat(input: Seq<u8>, pos: int, p: int, m: Seq<Bencode>, l: Seq<Bencode>)
    requires
        0 <= pos < p < input.len(),
        input.subrange(pos, p) == seq![108u8] + enc_list(m),
        l.len() >= m.len(),
        l.subrange(0, m.len() as int) == m,
        compatible(enc(Bencode::List(l)), input.subrange(pos, input.len() as int)),
    ensures
        l.len() == m.len() ==> input[p] == 101,
        l.len() > m.len() ==> compatible(enc(l[m.len() as int]), input.subrange(p, input.len() as int)),
{
    let t = l.subrange(m.len() as int, l.len() as int);
    assert(l =~= m + t);
    lemma_enc_list_append(m, t);
    let head = seq![108u8] + enc_list(m);
    let tail = enc_list(t) + seq![101u8];
    let r2 = input.subrange(p, input.len() as int);
    assert(enc(Bencode::List(l)) =~= head + tail);
    assert(input.subrange(pos, input.len() as int) =~= head + r2);
    lemma_compatible_tails(head, tail, r2);
    if t.len() == 0 {
        assert(tail =~= seq![101u8]);
        lemma_compatible_index(tail, r2, 0);
    } else {
        lemma_enc_list_first(t);
        let more = enc_list(t.subrange(1, t.len() as int)) + seq![101u8];
        assert(tail =~= enc(t[0]) + more);
        assert(r2 =~= r2 + Seq::<u8>::empty());
        lemma_compatible_heads(enc(t[0]), more, r2, Seq::<u8>::empty());
    }
}

/// Inside a dictionary whose first entries are `m`, read up to `p`, against a
/// dictionary whose encoding agrees with the input: next is its `e` or its
/// next entry.
pub(crate) proof fn lemma_dict_next_compat(input: Seq<u8>, pos: int, p: int, m: Seq<(Seq<u8>, Bencode)>, d: Seq<(Seq<u8>, Bencode)>)
    requires
        0 <= pos < p < input.len(),
        input.subrange(pos, p) == seq![100u8] + enc_dict(m),
        d.len() >= m.len(),
        d.subrange(0, m.len() as int) == m,
        compatible(enc(Bencode::Dict(d)), input.subrange(pos, input.len() as int)),
    ensures
        d.len() == m.len() ==> input[p] == 101,
        d.len() > m.len() ==> compatible(
            enc_bytes(d[m.len() as int].0) + enc(d[m.len() as int].1),
            input.subrange(p, input.len() as int),
        ),
{
    let t = d.subrange(m.len() as int, d.len() as int);
    assert(d =~= m + t);
    lemma_enc_dict_append(m, t);
    let head = seq![100u8] + enc_dict(m);
    let tail = enc_dict(t) + seq![101u8];
    let r2 = input.subrange(p, input.len() as int);
    assert(enc(Bencode::Dict(d)) =~= head + tail);
    assert(input.subrange(pos, input.len() as int) =~= head + r2);
    lemma_compatible_tails(head, tail, r2);
    if t.len() == 0 {
        assert(tail =~= seq![101u8]);
        lemma_compatible_index(tail, r2, 0);
    } else {
        lemma_enc_dict_first(t);
        let entry = enc_bytes(t[0].0) + enc(t[0].1);
        let more = enc_dict(t.subrange(1, t.len() as int)) + seq![101u8];
        assert(tail =~= entry + more);
        assert(r2 =~= r2 + Seq::<u8>::empty());
        lemma_compatible_heads(entry, more, r2, Seq::<u8>::empty());
    }
}

/// The key that was read from `p` to `q` is the next entry's, and the
/// entry's value agrees with the input from `q`.
pub(crate) proof fn lemma_dict_entry_compat(
    input: Seq<u8>,
    pos: int,
    p: int,
    q: int,
    m: Seq<(Seq<u8>, Bencode)>,
    d: Seq<(Seq<u8>, Bencode)>,
    key: Seq<u8>,
)
    requires
        0 <= pos < p < q <= input.len(),
        input.subrange(pos, p) == seq![100u8] + enc_dict(m),
        input[p] != 101,
        input.subrange(p, q) == enc_bytes(key),
        d.len() >= m.len(),
        d.subrange(0, m.len() as int) == m,
        compatible(enc(Bencode::Dict(d)), input.subrange(pos, input.len() as int)),
    ensures
        d.len() > m.len(),
        d[m.len() as int].0 == key,
        compatible(enc(d[m.len() as int].1), input.subrange(q, input.len() as int)),
{
    lemma_dict_next_compat(input, pos, p, m, d);
    let e = d[m.len() as int];
    let r3 = input.subrange(q, input.len() as int);
    assert(input.subrange(p, input.len() as int) =~= enc_bytes(key) + r3);
    lemma_compatible_heads(enc_bytes(e.0), enc(e.1), enc_bytes(key), r3);
    lemma_bytes_unique(e.0, key);
    lemma_compatible_tails(enc_bytes(key), enc(e.1), r3);
}

/// A term read from `p` to `q` and a term whose encoding agrees with the
/// input from `p` are the same.
pub(crate) proof fn lemma_same_term_compat(input: Seq<u8>, p: int, q: int, v: Bencode, w: Bencode)
    requires
        0 <= p <= q <= input.len(),
        input.subrange(p, q) == enc(v),
        compatible(enc(w), input.subrange(p, input.len() as int)),
    ensures
        v == w,
{
    let r3 = input.subrange(q, input.len() as int);
    assert(input.subrange(p, input.len() as int) =~= enc(v) + r3);
    assert(enc(w) =~= enc(w) + Seq::<u8>::empty());
    lemma_compatible_heads(enc(w), Seq::<u8>::empty(), enc(v), r3);
    lemma_enc_unique(w, v);
}

/// A list opened and cut off after its items `m`, or inside the item `u`
/// after them, is a truncated encoding.
pub(crate) proof fn lemma_truncated_list(rest: Seq<u8>, m: Seq<Bencode>, tail: Seq<u8>, u: Bencode, depth: nat)
    requires
        depth > 0,
        forall|k: int| 0 <= k < m.len() ==> valid(#[trigger] m[k], (depth - 1) as nat),
        valid(u, (depth - 1) as nat),
        rest == seq![108u8] + enc_list(m) + tail,
        tail.len() == 0 || (is_prefix(tail, enc(u)) && tail.len() < enc(u).len()),
    ensures
        truncated(rest, depth),
{
    if tail.len() == 0 {
        let w = Bencode::List(m);
        assert(rest =~= seq![108u8] + enc_list(m));
        assert(enc(w) =~= rest + seq![101u8]);
        assert(rest =~= enc(w).subrange(0, rest.len() as int));
        assert(valid(w, depth) && is_prefix(rest, enc(w)) && rest.len() < enc(w).len());
    } else {
        let w = Bencode::List(m.push(u));
        lemma_enc_list_push(m, u);
        assert(enc(w) =~= seq![108u8] + enc_list(m) + enc(u) + seq![101u8]);
        assert(rest =~= enc(w).subrange(0, rest.len() as int));
        assert forall|k: int| 0 <= k < m.push(u).len() implies valid(#[trigger] m.push(u)[k], (depth - 1) as nat) by {
            if k < m.len() {
                assert(m.push(u)[k] == m[k]);
            }
        }
        assert(valid(w, depth) && is_prefix(rest, enc(w)) && rest.len() < enc(w).len());
    }
}

/// A dictionary opened and cut off after its entries `m`, or after them
/// inside the entry `(key, u)`, is a truncated encoding.
pub(crate) proof fn lemma_truncated_dict(
    rest: Seq<u8>,
    m: Seq<(Seq<u8>, Bencode)>,
    tail: Seq<u8>,
    key: Seq<u8>,
    u: Bencode,
    depth: nat,
)
    requires
        depth > 0,
        forall|k: int| 0 <= k < m.len() ==> valid(#[trigger] m[k].1, (depth - 1) as nat),
        valid(u, (depth - 1) as nat),
        rest == seq![100u8] + enc_dict(m) + tail,
        tail.len() == 0 || (is_prefix(tail, enc_bytes(key) + enc(u)) && tail.len() < (enc_bytes(key) + enc(u)).len()),
    ensures
        truncated(rest, depth),
{
    if tail.len() == 0 {
        let w = Bencode::Dict(m);
        assert(rest =~= seq![100u8] + enc_dict(m));
        assert(enc(w) =~= rest + seq![101u8]);
        assert(rest =~= enc(w).subrange(0, rest.len() as int));
        assert(valid(w, depth) && is_prefix(rest, enc(w)) && rest.len() < enc(w).len());
    } else {
        let n = m.push((key, u));
        let w = Bencode::Dict(n);
        lemma_enc_dict_push(m, key, u);
        assert(enc(w) =~= seq![100u8] + enc_dict(m) + (enc_bytes(key) + enc(u)) + seq![101u8]);
        assert(rest =~= enc(w).subrange(0, rest.len() as int));
        assert forall|k: int| 0 <= k < n.len() implies valid(#[trigger] n[k].1, (depth - 1) as nat) by {
            if k < m.len() {
                assert(n[k] == m[k]);
            }
        }
        assert(valid(w, depth) && is_prefix(rest, enc(w)) && rest.len() < enc(w).len());
    }
}

/// Cut-off encodings stay cut off when more is written after them.
pub(crate) proof fn lemma_prefix_extend(a: Seq<u8>, b: Seq<u8>, c: Seq<u8>)
    requires
        is_prefix(a, b),
        a.len() < b.len(),
    ensures
        is_prefix(a, b + c),
        a.len() < (b + c).len(),
{
    assert(a =~= (b + c).subrange(0, a.len() as int));
}

} // verus!
