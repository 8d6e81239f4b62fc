use vstd::prelude::*;
use crate::encoding::{decimal, enc, enc_bytes, enc_dict, enc_list, int_text, lemma_decimal_digits};
use crate::error::TorrentError;
use crate::unique::{
    compatible, is_prefix, lemma_compatible_heads, lemma_compatible_index, lemma_decimal_value,
    lemma_enc_first, lemma_enc_unique,
};
use crate::decoding_lemmas::{
    lemma_bytes_compat, lemma_bytes_prefix, lemma_bytes_run, lemma_bytes_witness,
    lemma_decimal_of_digits, lemma_dict_entry, lemma_dict_entry_compat, lemma_dict_next,
    lemma_dict_next_compat, lemma_digits_prefix_value, lemma_enc_dict_push, lemma_enc_list_push,
    lemma_first_byte, lemma_first_byte_compat, lemma_int_compat, lemma_int_prefix, lemma_list_next,
    lemma_list_next_compat, lemma_prefix_extend, lemma_prefix_split, lemma_prefixes_compatible,
    lemma_run_is, lemma_run_within, lemma_same_term_compat, lemma_strict_prefix,
    lemma_truncated_dict, lemma_truncated_list,
};
use crate::value::{Bencode, BencodeValue};

verus! {

/// Deepest nesting of lists and dictionaries that `decode` accepts.
pub const MAX_DEPTH: usize = 64;

/// An ASCII decimal digit.
pub open spec fn is_digit(c: u8) -> bool {
    48 <= c <= 57
}

/// The number that a run of ASCII digits spells.
pub open spec fn digits_value(s: Seq<u8>) -> nat
    decreases s.len(),
{
    if s.len() == 0 {
        0
    } else {
        digits_value(s.drop_last()) * 10 + (s.last() - 48) as nat
    }
}

/// A term that the decoder can produce: integers fit in 64 bits and lists and
/// dictionaries nest at most `depth` deep.
pub open spec fn valid(v: Bencode, depth: nat) -> bool
    decreases v,
{
    match v {
        Bencode::Bytes(_) => true,
        Bencode::Int(i) => i64::MIN <= i <= i64::MAX,
        Bencode::List(l) => depth > 0 && forall|k: int|
            0 <= k < l.len() ==> valid(#[trigger] l[k], (depth - 1) as nat),
        Bencode::Dict(d) => depth > 0 && forall|k: int|
            0 <= k < d.len() ==> valid(#[trigger] d[k].1, (depth - 1) as nat),
    }
}

/// The terms that decoded list items stand for.
pub open spec fn list_model(items: Seq<BencodeValue>) -> Seq<Bencode> {
    Seq::new(items.len(), |i: int| items[i]@)
}

/// The entries that decoded dictionary entries stand for.
pub open spec fn dict_model(entries: Seq<(Vec<u8>, BencodeValue)>) -> Seq<(Seq<u8>, Bencode)> {
    Seq::new(entries.len(), |i: int| (entries[i].0@, entries[i].1@))
}

/// The bencoding of an integer.
pub open spec fn int_enc(k: int) -> Seq<u8> {
    seq![105u8] + int_text(k) + seq![101u8]
}

/// `s` stops inside the encoding of some term that nests at most `depth`
/// deep.
pub open spec fn truncated(s: Seq<u8>, depth: nat) -> bool {
    exists|w: Bencode| valid(w, depth) && is_prefix(s, enc(w)) && s.len() < enc(w).len()
}

/// Reads the run of digits at `start`, whose first byte is a nonzero digit.
/// `over` tells that the value went past `limit`; `n` is then not the value.
fn read_number(input: &[u8], start: usize, limit: u64) -> (r: (usize, u64, bool))
    requires
        start < input@.len(),
        49 <= input@[start as int] <= 57,
    ensures
        start < r.0 <= input@.len(),
        forall|j: int| start <= j < r.0 ==> is_digit(#[trigger] input@[j]),
        r.0 < input@.len() ==> !is_digit(input@[r.0 as int]),
        !r.2 ==> r.1 as nat == digits_value(input@.subrange(start as int, r.0 as int)),
        !r.2 ==> r.1 <= limit,
        r.2 ==> digits_value(input@.subrange(start as int, r.0 as int)) > limit,
{
    let mut q: usize = start;
    let mut n: u64 = 0;
    let mut over: bool = false;
    while q < input.len() && 48 <= input[q] && input[q] <= 57
        invariant
            start <= q <= input@.len(),
            forall|j: int| start <= j < q ==> is_digit(#[trigger] input@[j]),
            q == start ==> n == 0 && !over,
            !over ==> n as nat == digits_value(input@.subrange(start as int, q as int)),
            !over ==> n <= limit,
            over ==> digits_value(input@.subrange(start as int, q as int)) > limit,
        decreases input@.len() - q,
    {
        let ghost before = input@.subrange(start as int, q as int);
        let d: u64 = (input[q] - 48) as u64;
        assert(input@.subrange(start as int, q + 1).drop_last() =~= before);
        if !over && n <= limit / 10 && d <= limit - n * 10 {
            n = n * 10 + d;
        } else {
            if !over {
                assert(n * 10 + d > limit) by (nonlinear_arith)
                    requires !(n <= limit / 10 && d <= limit - n * 10), n <= limit, d < 10;
            }
            over = true;
        }
        q = q + 1;
    }
    if q == start {
        assert(is_digit(input@[start as int]));
    }
    (q, n, over)
}

/// No integer's encoding starts the input at `pos`.
pub open spec fn no_int_at(input: Seq<u8>, pos: int) -> bool {
    forall|k: int| i64::MIN <= k <= i64::MAX ==> !is_prefix(#[trigger] int_enc(k), input.subrange(pos, input.len() as int))
}

/// No integer's encoding agrees with the input at `pos`.
pub open spec fn no_int_like(input: Seq<u8>, pos: int) -> bool {
    forall|k: int| i64::MIN <= k <= i64::MAX ==> !compatible(#[trigger] int_enc(k), input.subrange(pos, input.len() as int))
}

/// Decodes `i<digits>e` at `pos`.
#[verifier::rlimit(40)]
fn decode_int(input: &[u8], pos: usize) -> (r: Result<(i64, usize), TorrentError>)
    requires
        pos < input@.len(),
        input@[pos as int] == 105,
    ensures
        r matches Ok((i, end)) ==> pos < end <= input@.len()
            && input@.subrange(pos as int, end as int) == seq![105u8] + int_text(i as int) + seq![101u8],
        r is Err ==> r->Err_0 == TorrentError::MalformedInput || r->Err_0 == TorrentError::UnexpectedEnd,
        r is Err ==> no_int_at(input@, pos as int),
        r == Err::<(i64, usize), TorrentError>(TorrentError::MalformedInput) ==> no_int_like(input@, pos as int),
        r == Err::<(i64, usize), TorrentError>(TorrentError::UnexpectedEnd) ==> exists|k: int|
            i64::MIN <= k <= i64::MAX && is_prefix(input@.subrange(pos as int, input@.len() as int), #[trigger] int_enc(k)),
{
    let size: usize = input.len();
    let ghost rest = input@.subrange(pos as int, input@.len() as int);
    let mut p: usize = pos + 1;
    if p >= size {
        proof {
            assert forall|k: int| i64::MIN <= k <= i64::MAX implies !is_prefix(#[trigger] int_enc(k), rest) by {
                if is_prefix(int_enc(k), rest) {
                    let pp = if k < 0 { pos + 2 } else { pos + 1 };
                    let nn: nat = if k < 0 { (-k) as nat } else { k as nat };
                    lemma_int_prefix(input@, pos as int, k, pp, nn);
                }
            }
            assert(int_enc(0) =~= seq![105u8, 48u8, 101u8]);
            assert(rest =~= int_enc(0).subrange(0, 1));
        }
        return Err(TorrentError::UnexpectedEnd);
    }
    let neg = input[p] == 45;
    if neg {
        p = p + 1;
        if p >= input.len() {
            proof {
                assert forall|k: int| i64::MIN <= k <= i64::MAX implies !is_prefix(#[trigger] int_enc(k), rest) by {
                    if is_prefix(int_enc(k), rest) {
                        let pp = if k < 0 { pos + 2 } else { pos + 1 };
                        let nn: nat = if k < 0 { (-k) as nat } else { k as nat };
                        lemma_int_prefix(input@, pos as int, k, pp, nn);
                    }
                }
                assert(int_enc(-1) =~= seq![105u8, 45u8, 49u8, 101u8]);
                assert(rest =~= int_enc(-1).subrange(0, 2));
            }
            return Err(TorrentError::UnexpectedEnd);
        }
    }
    let c = input[p];
    if c == 48 {
        if neg || (p + 1 < input.len() && input[p + 1] != 101) {
            proof {
                assert forall|k: int| i64::MIN <= k <= i64::MAX implies !compatible(#[trigger] int_enc(k), rest) by {
                    if compatible(int_enc(k), rest) {
                        let pp = if k < 0 { pos + 2 } else { pos + 1 };
                        let nn: nat = if k < 0 { (-k) as nat } else { k as nat };
                        lemma_int_compat(input@, pos as int, k, pp, nn);
                        assert(input@[pp] == decimal(nn)[0]);
                    }
                }
            }
            return Err(TorrentError::MalformedInput);
        }
        if p + 1 >= input.len() {
            proof {
                assert forall|k: int| i64::MIN <= k <= i64::MAX implies !is_prefix(#[trigger] int_enc(k), rest) by {
                    if is_prefix(int_enc(k), rest) {
                        let pp = if k < 0 { pos + 2 } else { pos + 1 };
                        let nn: nat = if k < 0 { (-k) as nat } else { k as nat };
                        lemma_int_prefix(input@, pos as int, k, pp, nn);
                    }
                }
                assert(int_enc(0) =~= seq![105u8, 48u8, 101u8]);
                assert(rest =~= int_enc(0).subrange(0, 2));
            }
            return Err(TorrentError::UnexpectedEnd);
        }
        assert(input@.subrange(pos as int, p + 2) =~= seq![105u8] + int_text(0) + seq![101u8]);
        return Ok((0, p + 2));
    }
    if c < 49 || c > 57 {
        proof {
            assert forall|k: int| i64::MIN <= k <= i64::MAX implies !compatible(#[trigger] int_enc(k), rest) by {
                if compatible(int_enc(k), rest) {
                    let pp = if k < 0 { pos + 2 } else { pos + 1 };
                    let nn: nat = if k < 0 { (-k) as nat } else { k as nat };
                    lemma_int_compat(input@, pos as int, k, pp, nn);
                    assert(input@[pp] == decimal(nn)[0]);
                }
            }
        }
        return Err(TorrentError::MalformedInput);
    }
    let limit: u64 = if neg { 9223372036854775808u64 } else { 9223372036854775807u64 };
    let (q, n, over) = read_number(input, p, limit);
    if over || (q < input.len() && input[q] != 101) {
        proof {
            assert forall|k: int| i64::MIN <= k <= i64::MAX implies !compatible(#[trigger] int_enc(k), rest) by {
                if compatible(int_enc(k), rest) {
                    let pp = if k < 0 { pos + 2 } else { pos + 1 };
                    let nn: nat = if k < 0 { (-k) as nat } else { k as nat };
                    lemma_int_compat(input@, pos as int, k, pp, nn);
                    lemma_run_within(input@, p as int, q as int, decimal(nn), 101u8);
                    lemma_digits_prefix_value(decimal(nn), q - p);
                    lemma_decimal_value(nn);
                }
            }
        }
        return Err(TorrentError::MalformedInput);
    }
    if q >= input.len() {
        proof {
            assert forall|k: int| i64::MIN <= k <= i64::MAX implies !is_prefix(#[trigger] int_enc(k), rest) by {
                if is_prefix(int_enc(k), rest) {
                    let pp = if k < 0 { pos + 2 } else { pos + 1 };
                    let nn: nat = if k < 0 { (-k) as nat } else { k as nat };
                    lemma_int_prefix(input@, pos as int, k, pp, nn);
                    lemma_run_is(input@, p as int, q as int, decimal(nn));
                }
            }
            lemma_decimal_of_digits(input@.subrange(p as int, q as int));
            let w: int = if neg { -(n as int) } else { n as int };
            if neg {
                assert(rest =~= seq![105u8, 45u8] + input@.subrange(p as int, q as int));
                assert(int_enc(w) =~= seq![105u8, 45u8] + decimal(n as nat) + seq![101u8]);
            } else {
                assert(rest =~= seq![105u8] + input@.subrange(p as int, q as int));
            }
            assert(rest =~= int_enc(w).subrange(0, rest.len() as int));
        }
        return Err(TorrentError::UnexpectedEnd);
    }
    proof {
        lemma_decimal_of_digits(input@.subrange(p as int, q as int));
    }
    let value: i64 = if !neg {
        n as i64
    } else if n == 9223372036854775808u64 {
        i64::MIN
    } else {
        -(n as i64)
    };
    assert(input@.subrange(pos as int, q + 1) =~= seq![105u8] + int_text(value as int) + seq![101u8]);
    Ok((value, q + 1))
}

/// Decodes `<length>:<bytes>` at `pos`, whose byte is a digit.
fn decode_bytes(input: &[u8], pos: usize) -> (r: Result<(Vec<u8>, usize), TorrentError>)
    requires
        pos < input@.len(),
        is_digit(input@[pos as int]),
    ensures
        r matches Ok((b, end)) ==> pos < end <= input@.len()
            && input@.subrange(pos as int, end as int) == enc_bytes(b@),
        r is Err ==> r->Err_0 == TorrentError::MalformedInput || r->Err_0 == TorrentError::UnexpectedEnd,
        r is Err ==> forall|b: Seq<u8>|
            !is_prefix(#[trigger] enc_bytes(b), input@.subrange(pos as int, input@.len() as int)),
        r == Err::<(Vec<u8>, usize), TorrentError>(TorrentError::MalformedInput) ==> forall|b: Seq<u8>|
            !compatible(#[trigger] enc_bytes(b), input@.subrange(pos as int, input@.len() as int)),
        r == Err::<(Vec<u8>, usize), TorrentError>(TorrentError::UnexpectedEnd) ==> exists|b: Seq<u8>|
            is_prefix(input@.subrange(pos as int, input@.len() as int), #[trigger] enc_bytes(b)),
{
    let size: usize = input.len();
    let ghost rest = input@.subrange(pos as int, input@.len() as int);
    let mut q: usize = pos + 1;
    let mut n: u64 = 0;
    let lead_zero = input[pos] == 48;
    if !lead_zero {
        let (q1, n1, over) = read_number(input, pos, input.len() as u64);
        proof {
            lemma_decimal_of_digits(input@.subrange(pos as int, q1 as int));
        }
        if q1 < input.len() && input[q1] == 58 && over {
            proof {
                assert forall|b: Seq<u8>| !is_prefix(#[trigger] enc_bytes(b), rest) by {
                    if is_prefix(enc_bytes(b), rest) {
                        lemma_bytes_run(input@, pos as int, q1 as int, b);
                    }
                }
                lemma_bytes_witness(input@, pos as int, q1 as int, digits_value(input@.subrange(pos as int, q1 as int)));
            }
            return Err(TorrentError::UnexpectedEnd);
        }
        q = q1;
        n = n1;
    } else {
        assert(input@.subrange(pos as int, q as int) =~= decimal(0));
    }
    let ghost len_value: nat = if lead_zero { 0 } else { digits_value(input@.subrange(pos as int, q as int)) };
    if q < input.len() && input[q] != 58 {
        proof {
            assert forall|b: Seq<u8>| !compatible(#[trigger] enc_bytes(b), rest) by {
                if compatible(enc_bytes(b), rest) {
                    lemma_bytes_compat(input@, pos as int, b);
                    if !lead_zero {
                        lemma_run_within(input@, pos as int, q as int, decimal(b.len()), 58u8);
                    }
                }
            }
        }
        return Err(TorrentError::MalformedInput);
    }
    if q >= input.len() || n > (input.len() - (q + 1)) as u64 {
        proof {
            assert forall|b: Seq<u8>| !is_prefix(#[trigger] enc_bytes(b), rest) by {
                if is_prefix(enc_bytes(b), rest) {
                    lemma_bytes_prefix(input@, pos as int, b);
                    if !lead_zero {
                        lemma_bytes_run(input@, pos as int, q as int, b);
                    }
                }
            }
            lemma_bytes_witness(input@, pos as int, q as int, len_value);
        }
        return Err(TorrentError::UnexpectedEnd);
    }
    let start: usize = q + 1;
    let len: usize = n as usize;
    let mut b: Vec<u8> = Vec::new();
    let mut k: usize = 0;
    while k < len
        invariant
            start + len <= input@.len(),
            input@.len() == size,
            0 <= k <= len,
            b@ == input@.subrange(start as int, start + k),
        decreases len - k,
    {
        b.push(input[start + k]);
        k = k + 1;
        assert(b@ =~= input@.subrange(start as int, start + k));
    }
    assert(input@.subrange(pos as int, start + len) =~= enc_bytes(b@));
    Ok((b, start + len))
}

/// Decodes the term that starts at `pos`, allowing `depth` more levels of
/// nesting. It fails only where no such term starts at `pos`.
fn decode_at(input: &[u8], pos: usize, depth: usize) -> (r: Result<(BencodeValue, usize), TorrentError>)
    requires
        pos < input@.len(),
    ensures
        r matches Ok((v, end)) ==> pos < end <= input@.len()
            && input@.subrange(pos as int, end as int) == enc(v@)
            && valid(v@, depth as nat),
        r is Err ==> r->Err_0 == TorrentError::MalformedInput || r->Err_0 == TorrentError::UnexpectedEnd,
        r is Err ==> forall|w: Bencode| valid(w, depth as nat)
            ==> !is_prefix(#[trigger] enc(w), input@.subrange(pos as int, input@.len() as int)),
        r == Err::<(BencodeValue, usize), TorrentError>(TorrentError::MalformedInput) ==> forall|w: Bencode|
            valid(w, depth as nat) ==> !compatible(#[trigger] enc(w), input@.subrange(pos as int, input@.len() as int)),
        r == Err::<(BencodeValue, usize), TorrentError>(TorrentError::UnexpectedEnd)
            ==> truncated(input@.subrange(pos as int, input@.len() as int), depth as nat),
    decreases input@.len() - pos,
{
    let size: usize = input.len();
    let ghost rest = input@.subrange(pos as int, input@.len() as int);
    let c = input[pos];
    if c == 105 {
        match decode_int(input, pos) {
            Ok((i, end)) => {
                let v = BencodeValue::Integer(i);
                assert(input@.subrange(pos as int, end as int) == enc(v@));
                Ok((v, end))
            },
            Err(e) => {
                proof {
                    assert forall|w: Bencode| valid(w, depth as nat) implies !is_prefix(#[trigger] enc(w), rest) by {
                        if is_prefix(enc(w), rest) {
                            lemma_first_byte(input@, pos as int, w);
                            assert(enc(w) == int_enc(w->Int_0));
                        }
                    }
                    if e == TorrentError::MalformedInput {
                        assert forall|w: Bencode| valid(w, depth as nat) implies !compatible(#[trigger] enc(w), rest) by {
                            if compatible(enc(w), rest) {
                                lemma_first_byte_compat(input@, pos as int, w);
                                assert(enc(w) == int_enc(w->Int_0));
                            }
                        }
                    } else {
                        let k = choose|k: int| i64::MIN <= k <= i64::MAX && is_prefix(rest, #[trigger] int_enc(k));
                        let w = Bencode::Int(k);
                        assert(enc(w) == int_enc(k));
                        lemma_strict_prefix(rest, enc(w));
                        assert(valid(w, depth as nat) && is_prefix(rest, enc(w)) && rest.len() < enc(w).len());
                    }
                }
                Err(e)
            },
        }
    } else if 48 <= c && c <= 57 {
        match decode_bytes(input, pos) {
            Ok((b, end)) => {
                let v = BencodeValue::ByteString(b);
                assert(input@.subrange(pos as int, end as int) == enc(v@));
                Ok((v, end))
            },
            Err(e) => {
                proof {
                    assert forall|w: Bencode| valid(w, depth as nat) implies !is_prefix(#[trigger] enc(w), rest) by {
                        if is_prefix(enc(w), rest) {
                            lemma_first_byte(input@, pos as int, w);
                            assert(enc(w) == enc_bytes(w->Bytes_0));
                        }
                    }
                    if e == TorrentError::MalformedInput {
                        assert forall|w: Bencode| valid(w, depth as nat) implies !compatible(#[trigger] enc(w), rest) by {
                            if compatible(enc(w), rest) {
                                lemma_first_byte_compat(input@, pos as int, w);
                                assert(enc(w) == enc_bytes(w->Bytes_0));
                            }
                        }
                    } else {
                        let b = choose|b: Seq<u8>| is_prefix(rest, #[trigger] enc_bytes(b));
                        let w = Bencode::Bytes(b);
                        assert(enc(w) == enc_bytes(b));
                        lemma_strict_prefix(rest, enc(w));
                        assert(valid(w, depth as nat) && is_prefix(rest, enc(w)) && rest.len() < enc(w).len());
                    }
                }
                Err(e)
            },
        }
    } else if c == 108 {
        if depth == 0 {
            proof {
                assert forall|w: Bencode| valid(w, depth as nat) implies !compatible(#[trigger] enc(w), rest) by {
                    if compatible(enc(w), rest) {
                        lemma_first_byte_compat(input@, pos as int, w);
                    }
                }
            }
            return Err(TorrentError::MalformedInput);
        }
        let mut items: Vec<BencodeValue> = Vec::new();
        let mut p: usize = pos + 1;
        proof {
            assert(input@.subrange(pos as int, p as int) =~= seq![108u8] + enc_list(list_model(items@)));
            assert forall|w: Bencode| valid(w, depth as nat) && compatible(#[trigger] enc(w), rest) implies w is List
                && w->List_0.subrange(0, 0) == list_model(items@) by {
                lemma_first_byte_compat(input@, pos as int, w);
                assert(w->List_0.subrange(0, 0) =~= list_model(items@));
            }
        }
        loop
            invariant
                pos < p <= input@.len(),
                input@.len() == size,
                rest == input@.subrange(pos as int, input@.len() as int),
                depth > 0,
                input@.subrange(pos as int, p as int) == seq![108u8] + enc_list(list_model(items@)),
                forall|k: int| 0 <= k < items@.len() ==> valid((#[trigger] items@[k])@, (depth - 1) as nat),
                forall|w: Bencode| valid(w, depth as nat) && compatible(#[trigger] enc(w), rest) ==> w is List
                    && w->List_0.len() >= items@.len()
                    && w->List_0.subrange(0, items@.len() as int) == list_model(items@),
            ensures
                p < input@.len(),
                input@[p as int] == 101,
            decreases input@.len() - p,
        {
            if p >= input.len() {
                proof {
                    assert forall|w: Bencode| valid(w, depth as nat) implies !is_prefix(#[trigger] enc(w), rest) by {
                        if is_prefix(enc(w), rest) {
                            lemma_list_next(input@, pos as int, p as int, list_model(items@), w->List_0);
                        }
                    }
                    assert(rest =~= input@.subrange(pos as int, p as int) + Seq::<u8>::empty());
                    lemma_truncated_list(rest, list_model(items@), Seq::<u8>::empty(), Bencode::Int(0), depth as nat);
                }
                return Err(TorrentError::UnexpectedEnd);
            }
            if input[p] == 101 {
                break;
            }
            match decode_at(input, p, depth - 1) {
                Ok((v, q)) => {
                    proof {
                        lemma_enc_list_push(list_model(items@), v@);
                        assert(list_model(items@.push(v)) =~= list_model(items@).push(v@));
                        assert(input@.subrange(pos as int, q as int) =~= input@.subrange(pos as int, p as int)
                            + input@.subrange(p as int, q as int));
                        assert forall|w: Bencode| valid(w, depth as nat) && compatible(#[trigger] enc(w), rest) implies
                            w->List_0.len() >= items@.len() + 1
                            && w->List_0.subrange(0, items@.len() + 1 as int) == list_model(items@.push(v)) by {
                            let l = w->List_0;
                            let k = items@.len() as int;
                            lemma_list_next_compat(input@, pos as int, p as int, list_model(items@), l);
                            lemma_same_term_compat(input@, p as int, q as int, v@, l[k]);
                            assert(l.subrange(0, k + 1) =~= l.subrange(0, k).push(l[k]));
                        }
                    }
                    items.push(v);
                    p = q;
                },
                Err(e) => {
                    proof {
                        assert forall|w: Bencode| valid(w, depth as nat) implies !is_prefix(#[trigger] enc(w), rest) by {
                            if is_prefix(enc(w), rest) {
                                let l = w->List_0;
                                lemma_list_next(input@, pos as int, p as int, list_model(items@), l);
                                assert(valid(l[items@.len() as int], (depth - 1) as nat));
                            }
                        }
                        if e == TorrentError::MalformedInput {
                            assert forall|w: Bencode| valid(w, depth as nat) implies !compatible(#[trigger] enc(w), rest) by {
                                if compatible(enc(w), rest) {
                                    let l = w->List_0;
                                    lemma_list_next_compat(input@, pos as int, p as int, list_model(items@), l);
                                    assert(valid(l[items@.len() as int], (depth - 1) as nat));
                                }
                            }
                        } else {
                            let r2 = input@.subrange(p as int, input@.len() as int);
                            let u = choose|u: Bencode| valid(u, (depth - 1) as nat) && is_prefix(r2, enc(u)) && r2.len() < enc(u).len();
                            assert(rest =~= seq![108u8] + enc_list(list_model(items@)) + r2);
                            lemma_truncated_list(rest, list_model(items@), r2, u, depth as nat);
                        }
                    }
                    return Err(e);
                },
            }
        }
        let v = BencodeValue::List(items);
        assert(v@->List_0 =~= list_model(items@));
        assert(input@.subrange(pos as int, p + 1) =~= enc(v@));
        Ok((v, p + 1))
    } else if c == 100 {
        if depth == 0 {
            proof {
                assert forall|w: Bencode| valid(w, depth as nat) implies !compatible(#[trigger] enc(w), rest) by {
                    if compatible(enc(w), rest) {
                        lemma_first_byte_compat(input@, pos as int, w);
                    }
                }
            }
            return Err(TorrentError::MalformedInput);
        }
        let mut entries: Vec<(Vec<u8>, BencodeValue)> = Vec::new();
        let mut p: usize = pos + 1;
        proof {
            assert(input@.subrange(pos as int, p as int) =~= seq![100u8] + enc_dict(dict_model(entries@)));
            assert forall|w: Bencode| valid(w, depth as nat) && compatible(#[trigger] enc(w), rest) implies w is Dict
                && w->Dict_0.subrange(0, 0) == dict_model(entries@) by {
                lemma_first_byte_compat(input@, pos as int, w);
                assert(w->Dict_0.subrange(0, 0) =~= dict_model(entries@));
            }
        }
        loop
            invariant
                pos < p <= input@.len(),
                input@.len() == size,
                rest == input@.subrange(pos as int, input@.len() as int),
                depth > 0,
                input@.subrange(pos as int, p as int) == seq![100u8] + enc_dict(dict_model(entries@)),
                forall|k: int| 0 <= k < entries@.len() ==> valid((#[trigger] entries@[k]).1@, (depth - 1) as nat),
                forall|w: Bencode| valid(w, depth as nat) && compatible(#[trigger] enc(w), rest) ==> w is Dict
                    && w->Dict_0.len() >= entries@.len()
                    && w->Dict_0.subrange(0, entries@.len() as int) == dict_model(entries@),
            ensures
                p < input@.len(),
                input@[p as int] == 101,
            decreases input@.len() - p,
        {
            if p >= input.len() {
                proof {
                    assert forall|w: Bencode| valid(w, depth as nat) implies !is_prefix(#[trigger] enc(w), rest) by {
                        if is_prefix(enc(w), rest) {
                            lemma_dict_next(input@, pos as int, p as int, dict_model(entries@), w->Dict_0);
                        }
                    }
                    assert(rest =~= input@.subrange(pos as int, p as int) + Seq::<u8>::empty());
                    lemma_truncated_dict(rest, dict_model(entries@), Seq::<u8>::empty(), Seq::<u8>::empty(), Bencode::Int(0), depth as nat);
                }
                return Err(TorrentError::UnexpectedEnd);
            }
            if input[p] == 101 {
                break;
            }
            if input[p] < 48 || input[p] > 57 {
                proof {
                    assert forall|w: Bencode| valid(w, depth as nat) implies !compatible(#[trigger] enc(w), rest) by {
                        if compatible(enc(w), rest) {
                            let d = w->Dict_0;
                            let e = d[entries@.len() as int];
                            lemma_dict_next_compat(input@, pos as int, p as int, dict_model(entries@), d);
                            lemma_enc_first(Bencode::Bytes(e.0));
                            lemma_compatible_index(
                                enc_bytes(e.0) + enc(e.1),
                                input@.subrange(p as int, input@.len() as int),
                                0,
                            );
                        }
                    }
                }
                return Err(TorrentError::MalformedInput);
            }
            let (key, q) = match decode_bytes(input, p) {
                Ok(kq) => kq,
                Err(e) => {
                    proof {
                        assert forall|w: Bencode| valid(w, depth as nat) implies !is_prefix(#[trigger] enc(w), rest) by {
                            if is_prefix(enc(w), rest) {
                                let d = w->Dict_0;
                                let e = d[entries@.len() as int];
                                lemma_dict_next(input@, pos as int, p as int, dict_model(entries@), d);
                                lemma_prefix_split(enc_bytes(e.0), enc(e.1), input@, p as int);
                            }
                        }
                        let r2 = input@.subrange(p as int, input@.len() as int);
                        if e == TorrentError::MalformedInput {
                            assert forall|w: Bencode| valid(w, depth as nat) implies !compatible(#[trigger] enc(w), rest) by {
                                if compatible(enc(w), rest) {
                                    let d = w->Dict_0;
                                    let e = d[entries@.len() as int];
                                    lemma_dict_next_compat(input@, pos as int, p as int, dict_model(entries@), d);
                                    assert(r2 =~= r2 + Seq::<u8>::empty());
                                    lemma_compatible_heads(enc_bytes(e.0), enc(e.1), r2, Seq::<u8>::empty());
                                }
                            }
                        } else {
                            let b = choose|b: Seq<u8>| is_prefix(r2, #[trigger] enc_bytes(b));
                            lemma_strict_prefix(r2, enc_bytes(b));
                            assert(rest =~= seq![100u8] + enc_dict(dict_model(entries@)) + r2);
                            lemma_prefix_extend(r2, enc_bytes(b), enc(Bencode::Int(0)));
                            lemma_truncated_dict(rest, dict_model(entries@), r2, b, Bencode::Int(0), depth as nat);
                        }
                    }
                    return Err(e);
                },
            };
            if q >= input.len() {
                proof {
                    assert forall|w: Bencode| valid(w, depth as nat) implies !is_prefix(#[trigger] enc(w), rest) by {
                        if is_prefix(enc(w), rest) {
                            let d = w->Dict_0;
                            lemma_dict_entry(input@, pos as int, p as int, q as int, dict_model(entries@), d, key@);
                            lemma_enc_first(d[entries@.len() as int].1);
                        }
                    }
                    let r2 = input@.subrange(p as int, input@.len() as int);
                    assert(rest =~= seq![100u8] + enc_dict(dict_model(entries@)) + r2);
                    assert(r2 =~= enc_bytes(key@));
                    lemma_enc_first(Bencode::Int(0));
                    assert(r2 =~= (enc_bytes(key@) + enc(Bencode::Int(0))).subrange(0, r2.len() as int));
                    lemma_truncated_dict(rest, dict_model(entries@), r2, key@, Bencode::Int(0), depth as nat);
                }
                return Err(TorrentError::UnexpectedEnd);
            }
            match decode_at(input, q, depth - 1) {
                Ok((v, q2)) => {
                    proof {
                        lemma_enc_dict_push(dict_model(entries@), key@, v@);
                        assert(dict_model(entries@.push((key, v))) =~= dict_model(entries@).push((key@, v@)));
                        assert(input@.subrange(pos as int, q2 as int) =~= input@.subrange(pos as int, p as int)
                            + input@.subrange(p as int, q as int) + input@.subrange(q as int, q2 as int));
                        assert forall|w: Bencode| valid(w, depth as nat) && compatible(#[trigger] enc(w), rest) implies
                            w->Dict_0.len() >= entries@.len() + 1
                            && w->Dict_0.subrange(0, entries@.len() + 1 as int) == dict_model(entries@.push((key, v))) by {
                            let d = w->Dict_0;
                            let k = entries@.len() as int;
                            lemma_dict_entry_compat(input@, pos as int, p as int, q as int, dict_model(entries@), d, key@);
                            lemma_same_term_compat(input@, q as int, q2 as int, v@, d[k].1);
                            assert(d.subrange(0, k + 1) =~= d.subrange(0, k).push(d[k]));
                        }
                    }
                    entries.push((key, v));
                    p = q2;
                },
                Err(e) => {
                    proof {
                        assert forall|w: Bencode| valid(w, depth as nat) implies !is_prefix(#[trigger] enc(w), rest) by {
                            if is_prefix(enc(w), rest) {
                                let d = w->Dict_0;
                                lemma_dict_entry(input@, pos as int, p as int, q as int, dict_model(entries@), d, key@);
                                assert(valid(d[entries@.len() as int].1, (depth - 1) as nat));
                            }
                        }
                        if e == TorrentError::MalformedInput {
                            assert forall|w: Bencode| valid(w, depth as nat) implies !compatible(#[trigger] enc(w), rest) by {
                                if compatible(enc(w), rest) {
                                    let d = w->Dict_0;
                                    lemma_dict_entry_compat(input@, pos as int, p as int, q as int, dict_model(entries@), d, key@);
                                    assert(valid(d[entries@.len() as int].1, (depth - 1) as nat));
                                }
                            }
                        } else {
                            let r3 = input@.subrange(q as int, input@.len() as int);
                            let u = choose|u: Bencode| valid(u, (depth - 1) as nat) && is_prefix(r3, enc(u)) && r3.len() < enc(u).len();
                            let r2 = input@.subrange(p as int, input@.len() as int);
                            assert(rest =~= seq![100u8] + enc_dict(dict_model(entries@)) + r2);
                            assert(r2 =~= enc_bytes(key@) + r3);
                            assert(r2 =~= (enc_bytes(key@) + enc(u)).subrange(0, r2.len() as int));
                            lemma_truncated_dict(rest, dict_model(entries@), r2, key@, u, depth as nat);
                        }
                    }
                    return Err(e);
                },
            }
        }
        let v = BencodeValue::Dictionary(entries);
        assert(v@->Dict_0 =~= dict_model(entries@));
        assert(input@.subrange(pos as int, p + 1) =~= enc(v@));
        Ok((v, p + 1))
    } else {
        proof {
            assert forall|w: Bencode| valid(w, depth as nat) implies !compatible(#[trigger] enc(w), rest) by {
                if compatible(enc(w), rest) {
                    lemma_first_byte_compat(input@, pos as int, w);
                }
            }
        }
        Err(TorrentError::MalformedInput)
    }
}

/// The bytes of `input` from `offset` on; none when `offset` is past the end.
pub open spec fn suffix(input: Seq<u8>, offset: int) -> Seq<u8> {
    if 0 <= offset <= input.len() {
        input.subrange(offset, input.len() as int)
    } else {
        Seq::empty()
    }
}

/// The term that `s` starts with: the one term within the nesting limit whose
/// encoding is a prefix of `s`, if there is one.
pub open spec fn leading_term(s: Seq<u8>) -> Option<Bencode> {
    if exists|w: Bencode| valid(w, MAX_DEPTH as nat) && is_prefix(enc(w), s) {
        Some(choose|w: Bencode| valid(w, MAX_DEPTH as nat) && is_prefix(enc(w), s))
    } else {
        None
    }
}

/// A term whose encoding starts `s` is the leading term of `s`.
pub proof fn lemma_leading_term_unique(s: Seq<u8>, w: Bencode)
    requires
        valid(w, MAX_DEPTH as nat),
        is_prefix(enc(w), s),
    ensures
        leading_term(s) == Some(w),
{
    let u = choose|u: Bencode| valid(u, MAX_DEPTH as nat) && is_prefix(enc(u), s);
    lemma_prefixes_compatible(enc(u), enc(w), s);
    lemma_enc_unique(u, w);
}

/// Input that starts with a whole encoding is not cut off.
pub proof fn lemma_not_truncated(s: Seq<u8>, v: Bencode)
    requires
        is_prefix(enc(v), s),
    ensures
        !truncated(s, MAX_DEPTH as nat),
{
    if truncated(s, MAX_DEPTH as nat) {
        let w = choose|w: Bencode| valid(w, MAX_DEPTH as nat) && is_prefix(s, enc(w)) && s.len() < enc(w).len();
        assert(enc(v) =~= enc(w).subrange(0, enc(v).len() as int));
        lemma_enc_unique(v, w);
    }
}

/// Round trip: the bytes that encode a term the decoder can produce decode
/// to that term, and the term takes all of them.
pub proof fn lemma_round_trip(v: Bencode)
    requires
        valid(v, MAX_DEPTH as nat),
    ensures
        leading_term(enc(v)) == Some(v),
        suffix(enc(v), 0) == enc(v),
{
    assert(enc(v).subrange(0, enc(v).len() as int) =~= enc(v));
    lemma_leading_term_unique(enc(v), v);
}

/// Decodes the term that starts at `offset`. On success it returns the term
/// and the offset just past it.
pub fn decode(input: &[u8], offset: usize) -> (r: Result<(BencodeValue, usize), TorrentError>)
    ensures
        r is Ok <==> leading_term(suffix(input@, offset as int)) is Some,
        r matches Ok((v, end)) ==> v@ == leading_term(suffix(input@, offset as int))->Some_0
            && end == offset + enc(v@).len()
            && valid(v@, MAX_DEPTH as nat),
        r == Err::<(BencodeValue, usize), TorrentError>(TorrentError::UnexpectedEnd)
            <==> truncated(suffix(input@, offset as int), MAX_DEPTH as nat),
        r == Err::<(BencodeValue, usize), TorrentError>(TorrentError::MalformedInput)
            <==> leading_term(suffix(input@, offset as int)) is None
                && !truncated(suffix(input@, offset as int), MAX_DEPTH as nat),
{
    if offset >= input.len() {
        proof {
            let w = Bencode::Int(0);
            assert(enc(w) =~= seq![105u8, 48u8, 101u8]);
            assert(suffix(input@, offset as int) =~= enc(w).subrange(0, 0));
            assert(valid(w, MAX_DEPTH as nat));
            if offset == input@.len() {
                assert(suffix(input@, offset as int) =~= Seq::<u8>::empty());
            }
            assert forall|w: Bencode| valid(w, MAX_DEPTH as nat) implies !is_prefix(
                enc(w),
                suffix(input@, offset as int),
            ) by {
                lemma_enc_first(w);
            }
        }
        return Err(TorrentError::UnexpectedEnd);
    }
    let r = decode_at(input, offset, MAX_DEPTH);
    proof {
        let s = suffix(input@, offset as int);
        assert(s == input@.subrange(offset as int, input@.len() as int));
        if r is Ok {
            let v = r->Ok_0.0;
            assert(enc(v@) =~= s.subrange(0, enc(v@).len() as int));
            lemma_leading_term_unique(s, v@);
            lemma_not_truncated(s, v@);
        } else if r->Err_0 == TorrentError::MalformedInput {
            if truncated(s, MAX_DEPTH as nat) {
                let w = choose|w: Bencode| valid(w, MAX_DEPTH as nat) && is_prefix(s, enc(w)) && s.len() < enc(w).len();
                assert(compatible(enc(w), s));
            }
        }
    }
    r
}

/// The term that `s` encodes, when `s` holds one term and nothing after it.
pub open spec fn whole_term(s: Seq<u8>) -> Option<Bencode> {
    if leading_term(s) is Some && enc(leading_term(s)->Some_0) == s {
        leading_term(s)
    } else {
        None
    }
}

/// Decodes an input that holds exactly one term and nothing after it.
pub fn decode_all(input: &[u8]) -> (r: Result<BencodeValue, TorrentError>)
    ensures
        r is Ok <==> whole_term(input@) is Some,
        r is Ok ==> r->Ok_0@ == whole_term(input@)->Some_0,
        r == Err::<BencodeValue, TorrentError>(TorrentError::UnexpectedEnd) <==> truncated(input@, MAX_DEPTH as nat),
        r == Err::<BencodeValue, TorrentError>(TorrentError::MalformedInput)
            <==> whole_term(input@) is None && !truncated(input@, MAX_DEPTH as nat),
{
    assert(suffix(input@, 0) =~= input@);
    match decode(input, 0) {
        Ok((v, end)) => {
            if end != input.len() {
                return Err(TorrentError::MalformedInput);
            }
            Ok(v)
        },
        Err(e) => Err(e),
    }
}

} // verus!


