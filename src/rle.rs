//! Run-length coding of byte sequences as `(count, value)` pairs.
use vstd::prelude::*;

use crate::error::DecodeError;

verus! {

/// Longest run the container can record: a count is one byte.
pub const MAX_RUN: usize = 255;

/// Length of the run of `v` at the front of `d`, counting at most `limit`.
pub open spec fn run_of(d: Seq<u8>, v: u8, limit: nat) -> nat
    decreases d.len(),
{
    if d.len() == 0 || limit == 0 || d[0] != v {
        0
    } else {
        1 + run_of(d.drop_first(), v, (limit - 1) as nat)
    }
}

/// The runs of `d`, left to right, as `(count, value)` byte pairs: a run
/// ends where the value changes or where it reaches `limit`, never elsewhere.
pub open spec fn rle_of(d: Seq<u8>, limit: nat) -> Seq<u8>
    decreases d.len(),
    via rle_of_decreases
{
    if d.len() == 0 || limit == 0 {
        Seq::empty()
    } else {
        let c = run_of(d, d[0], limit);
        seq![c as u8, d[0]] + rle_of(d.skip(c as int), limit)
    }
}

#[via_fn]
proof fn rle_of_decreases(d: Seq<u8>, limit: nat) {
    if d.len() > 0 && limit > 0 {
        lemma_run_of(d, d[0], limit);
    }
}

/// Each pair `(count, value)` of `pairs` stands for `count` copies of
/// `value`, in order; a trailing odd byte stands for nothing.
pub open spec fn expand(pairs: Seq<u8>) -> Seq<u8>
    decreases pairs.len(),
{
    if pairs.len() < 2 {
        Seq::empty()
    } else {
        Seq::new(pairs[0] as nat, |j: int| pairs[1]) + expand(pairs.skip(2))
    }
}

/// Whether `pairs` is a whole number of pairs, none with a count of zero.
pub open spec fn valid_runs(pairs: Seq<u8>) -> bool {
    &&& pairs.len() % 2 == 0
    &&& forall|i: int| 0 <= i < pairs.len() / 2 ==> #[trigger] pairs[2 * i] != 0
}

/// The run at the front of `d`: every byte in it is `v`, it stops at the end
/// of `d`, at `limit`, or before a byte other than `v`.
pub proof fn lemma_run_of(d: Seq<u8>, v: u8, limit: nat)
    ensures
        run_of(d, v, limit) <= d.len(),
        run_of(d, v, limit) <= limit,
        forall|j: int| 0 <= j < run_of(d, v, limit) ==> d[j] == v,
        run_of(d, v, limit) == d.len() || run_of(d, v, limit) == limit || d[run_of(
            d,
            v,
            limit,
        ) as int] != v,
        d.len() > 0 && limit > 0 && d[0] == v ==> run_of(d, v, limit) >= 1,
    decreases d.len(),
{
    if d.len() > 0 && limit > 0 && d[0] == v {
        lemma_run_of(d.drop_first(), v, (limit - 1) as nat);
        assert forall|j: int| 0 <= j < run_of(d, v, limit) implies d[j] == v by {
            if j > 0 {
                assert(d[j] == d.drop_first()[j - 1]);
            }
        }
    }
}

/// A length that meets the description of the front run is its length.
pub proof fn lemma_run_of_unique(d: Seq<u8>, v: u8, limit: nat, c: nat)
    requires
        c <= d.len(),
        c <= limit,
        forall|j: int| 0 <= j < c ==> d[j] == v,
        c == d.len() || c == limit || d[c as int] != v,
    ensures
        run_of(d, v, limit) == c,
    decreases c,
{
    if c > 0 {
        assert(d[0] == v);
        assert forall|j: int| 0 <= j < c - 1 implies d.drop_first()[j] == v by {
            assert(d[j + 1] == v);
        }
        lemma_run_of_unique(d.drop_first(), v, (limit - 1) as nat, (c - 1) as nat);
    }
}

/// Expanding two runs sequences one after the other expands each in turn.
pub proof fn lemma_expand_append(a: Seq<u8>, b: Seq<u8>)
    requires
        a.len() % 2 == 0,
    ensures
        expand(a + b) == expand(a) + expand(b),
    decreases a.len(),
{
    if a.len() == 0 {
        assert(a + b =~= b);
        assert(expand(a) + expand(b) =~= expand(b));
    } else {
        assert((a + b).skip(2) =~= a.skip(2) + b);
        lemma_expand_append(a.skip(2), b);
        assert(expand(a + b) =~= expand(a) + expand(b));
    }
}

/// Decoding the runs of any byte sequence gives the sequence back: the pairs
/// that `rle` produces are valid runs, which `rle_decode` accepts, and they
/// expand to the sequence. This holds of the empty sequence, of a single
/// byte, and of runs longer than the limit, which are split at it.
pub proof fn rle_decode_inverts_rle(d: Seq<u8>, limit: nat)
    requires
        1 <= limit <= MAX_RUN,
    ensures
        valid_runs(rle_of(d, limit)),
        expand(rle_of(d, limit)) == d,
    decreases d.len(),
{
    if d.len() > 0 {
        let c = run_of(d, d[0], limit);
        lemma_run_of(d, d[0], limit);
        let rest = rle_of(d.skip(c as int), limit);
        rle_decode_inverts_rle(d.skip(c as int), limit);
        let p = seq![c as u8, d[0]];
        assert(rle_of(d, limit) == p + rest);
        assert(p.skip(2) =~= Seq::<u8>::empty());
        assert(expand(p.skip(2)) == Seq::<u8>::empty());
        lemma_expand_append(p, rest);
        assert(expand(p) =~= Seq::new(c, |j: int| d[0]));
        assert(d =~= Seq::new(c, |j: int| d[0]) + d.skip(c as int));
        assert forall|i: int| 0 <= i < (p + rest).len() / 2 implies #[trigger] (p + rest)[2 * i] != 0 by {
            if i > 0 {
                assert((p + rest)[2 * i] == rest[2 * (i - 1)]);
            }
        }
    }
}

/// Run-length encode `data` as `(count, value)` byte pairs, no run longer
/// than `limit`.
pub fn rle(data: &[u8], limit: usize) -> (r: Vec<u8>)
    requires
        1 <= limit <= MAX_RUN,
    ensures
        r@ == rle_of(data@, limit as nat),
{
    let mut out: Vec<u8> = Vec::new();
    let len = data.len();
    let mut i: usize = 0;
    assert(out@ + rle_of(data@.skip(0), limit as nat) =~= rle_of(data@, limit as nat)) by {
        assert(data@.skip(0) =~= data@);
    }
    while i < len
        invariant
            1 <= limit <= MAX_RUN,
            len == data@.len(),
            i <= data@.len(),
            out@ + rle_of(data@.skip(i as int), limit as nat) == rle_of(data@, limit as nat),
        decreases data@.len() - i,
    {
        let mut count: usize = 1;
        while i + count < len && data[i] == data[i + count] && count < limit
            invariant
                1 <= count <= limit,
                limit <= MAX_RUN,
                i < data@.len(),
                len == data@.len(),
                i + count <= data@.len(),
                forall|j: int| i <= j < i + count ==> data@[j] == data@[i as int],
            decreases limit - count,
        {
            count = count + 1;
        }
        let ghost d = data@.skip(i as int);
        proof {
            lemma_run_of_unique(d, data@[i as int], limit as nat, count as nat);
            assert(d.skip(count as int) =~= data@.skip(i + count));
            assert(out@ + rle_of(d, limit as nat) =~= out@.push(count as u8).push(data@[i as int])
                + rle_of(data@.skip(i + count), limit as nat));
        }
        out.push(count as u8);
        out.push(data[i]);
        i = i + count;
    }
    proof {
        assert(data@.skip(i as int) =~= Seq::<u8>::empty());
        assert(out@ + Seq::<u8>::empty() =~= out@);
    }
    out
}

/// Expand `(count, value)` byte pairs into the bytes they stand for. Fails
/// with `InvalidRun` where a count is zero or the last pair is cut short.
pub fn rle_decode(pairs: &[u8]) -> (r: Result<Vec<u8>, DecodeError>)
    ensures
        match r {
            Ok(v) => valid_runs(pairs@) && v@ == expand(pairs@),
            Err(e) => !valid_runs(pairs@) && e == DecodeError::InvalidRun,
        },
{
    if pairs.len() % 2 != 0 {
        return Err(DecodeError::InvalidRun);
    }
    let n = pairs.len() / 2;
    let mut out: Vec<u8> = Vec::new();
    let mut j: usize = 0;
    while j < n
        invariant
            n == pairs@.len() / 2,
            pairs@.len() % 2 == 0,
            pairs@.len() <= usize::MAX,
            j <= n,
            forall|i: int| 0 <= i < j ==> #[trigger] pairs@[2 * i] != 0,
            out@ == expand(pairs@.take(2 * j)),
        decreases n - j,
    {
        let count = pairs[2 * j];
        let value = pairs[2 * j + 1];
        if count == 0 {
            return Err(DecodeError::InvalidRun);
        }
        let ghost before = out@;
        let mut k: u8 = 0;
        while k < count
            invariant
                k <= count,
                out@ == before + Seq::new(k as nat, |x: int| value),
            decreases count - k,
        {
            out.push(value);
            assert(out@ =~= before + Seq::new((k + 1) as nat, |x: int| value));
            k = k + 1;
        }
        proof {
            let p = seq![count, value];
            assert(pairs@.take(2 * j + 2) =~= pairs@.take(2 * j) + p);
            lemma_expand_append(pairs@.take(2 * j), p);
            assert(p.skip(2) =~= Seq::<u8>::empty());
            assert(expand(p.skip(2)) == Seq::<u8>::empty());
            assert(expand(p) =~= Seq::new(count as nat, |x: int| value));
        }
        j = j + 1;
    }
    assert(pairs@.take(2 * n) =~= pairs@);
    Ok(out)
}

} // verus!
