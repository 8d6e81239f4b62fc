use vstd::prelude::*;

verus! {

/// The `i`-th record of `size` bytes.
pub open spec fn record(raw: Seq<u8>, size: nat, i: int) -> Seq<u8> {
    raw.subrange(i * size, i * size + size)
}

/// Splits `raw` into records of `size` bytes, in order.
pub fn split_records(raw: &[u8], size: usize) -> (r: Vec<Vec<u8>>)
    requires
        size > 0,
        raw@.len() % (size as nat) == 0,
    ensures
        r@.len() == raw@.len() / (size as nat),
        forall|i: int| 0 <= i < r@.len() ==> (#[trigger] r@[i])@ == record(raw@, size as nat, i),
{
    let total: usize = raw.len();
    let mut out: Vec<Vec<u8>> = Vec::new();
    let mut pos: usize = 0;
    assert(out@.len() * size == 0) by (nonlinear_arith)
        requires out@.len() == 0;
    while pos < raw.len()
        invariant
            size > 0,
            raw@.len() % (size as nat) == 0,
            raw@.len() == total,
            pos == out@.len() * size,
            pos as nat % (size as nat) == 0,
            pos <= raw@.len(),
            forall|i: int| 0 <= i < out@.len() ==> (#[trigger] out@[i])@ == record(raw@, size as nat, i),
        decreases raw@.len() - pos,
    {
        proof {
            assert(pos + size <= raw@.len()) by (nonlinear_arith)
                requires pos as nat % (size as nat) == 0, raw@.len() % (size as nat) == 0, pos < raw@.len(), size > 0;
        }
        let mut item: Vec<u8> = Vec::new();
        let mut k: usize = 0;
        while k < size
            invariant
                pos + size <= raw@.len(),
                raw@.len() == total,
                0 <= k <= size,
                item@ == raw@.subrange(pos as int, pos + k),
            decreases size - k,
        {
            item.push(raw[pos + k]);
            k = k + 1;
            assert(item@ =~= raw@.subrange(pos as int, pos + k));
        }
        let ghost n = out@.len();
        out.push(item);
        proof {
            assert(pos + size == (n + 1) * size) by (nonlinear_arith)
                requires pos == n * size;
            assert((pos + size) as nat % (size as nat) == 0) by (nonlinear_arith)
                requires pos as nat % (size as nat) == 0, size > 0;
        }
        pos = pos + size;
    }
    proof {
        assert(raw@.len() / (size as nat) == out@.len()) by (nonlinear_arith)
            requires raw@.len() == out@.len() * size, size > 0;
    }
    out
}

} // verus!
