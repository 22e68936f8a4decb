//! A region is a zero-padded byte range: real data followed by padding.
//! No length is stored; the end of the data is recovered by scanning back
//! from the end for the last non-zero byte.
use vstd::prelude::*;

verus! {

/// One past the last non-zero byte of `s`, or 0 when every byte is zero.
pub open spec fn data_end(s: Seq<u8>) -> nat
    decreases s.len(),
{
    if s.len() == 0 {
        0
    } else if s.last() != 0 {
        s.len()
    } else {
        data_end(s.drop_last())
    }
}

/// Every byte of `s` from `from` on is zero.
pub open spec fn zero_from(s: Seq<u8>, from: int) -> bool {
    forall|i: int| from <= i < s.len() ==> #[trigger] s[i] == 0
}

/// `s` with `data` copied over the bytes `[pos, pos + data.len())`.
pub open spec fn written(s: Seq<u8>, pos: int, data: Seq<u8>) -> Seq<u8> {
    s.take(pos) + data + s.skip(pos + data.len())
}

/// A region that holds `bytes`, followed by `pad` zero bytes.
pub open spec fn padded(bytes: Seq<u8>, pad: nat) -> Seq<u8> {
    bytes + Seq::new(pad, |i: int| 0u8)
}

/// The boundary lies within the region, everything from it on is zero, and
/// the byte before it, if any, is not.
pub proof fn lemma_data_end(s: Seq<u8>)
    ensures
        data_end(s) <= s.len(),
        zero_from(s, data_end(s) as int),
        data_end(s) > 0 ==> s[data_end(s) - 1] != 0,
    decreases s.len(),
{
    if s.len() > 0 && s.last() == 0 {
        let t = s.drop_last();
        lemma_data_end(t);
        assert forall|i: int| data_end(s) <= i < s.len() implies #[trigger] s[i] == 0 by {
            if i < t.len() {
                assert(s[i] == t[i]);
            }
        }
    }
}

/// A region whose bytes from `n` on are zero and whose byte `n - 1`, if any,
/// is non-zero has its boundary at `n`.
pub proof fn lemma_data_end_at(s: Seq<u8>, n: nat)
    requires
        n <= s.len(),
        zero_from(s, n as int),
        n > 0 ==> s[n - 1] != 0,
    ensures
        data_end(s) == n,
    decreases s.len(),
{
    if s.len() > n {
        assert(s.last() == 0);
        let t = s.drop_last();
        assert(zero_from(t, n as int));
        lemma_data_end_at(t, n);
    }
}

/// Zero padding added at the end never moves the boundary.
pub proof fn lemma_data_end_padded(bytes: Seq<u8>, pad: nat)
    ensures
        data_end(padded(bytes, pad)) == data_end(bytes),
{
    let s = padded(bytes, pad);
    lemma_data_end(bytes);
    let n = data_end(bytes);
    assert(zero_from(s, n as int)) by {
        assert forall|i: int| n <= i < s.len() implies #[trigger] s[i] == 0 by {
            if i < bytes.len() {
                assert(s[i] == bytes[i]);
            }
        }
    }
    if n > 0 {
        assert(s[n - 1] == bytes[n - 1]);
    }
    lemma_data_end_at(s, n);
}

/// Writing a non-empty batch whose last byte is non-zero at the boundary
/// moves the boundary by exactly the batch length: nothing written is lost
/// and no padding is taken for data.
pub proof fn lemma_write_moves_boundary(s: Seq<u8>, data: Seq<u8>)
    requires
        data.len() > 0,
        data.last() != 0,
        data_end(s) + data.len() <= s.len(),
    ensures
        data_end(written(s, data_end(s) as int, data)) == data_end(s) + data.len(),
{
    lemma_data_end(s);
    let b = data_end(s) as int;
    let t = written(s, b, data);
    let n = (b + data.len()) as nat;
    assert(t.len() == s.len());
    assert(zero_from(t, n as int)) by {
        assert forall|i: int| n <= i < t.len() implies #[trigger] t[i] == 0 by {
            assert(t[i] == s[i]);
        }
    }
    assert(t[n - 1] == data.last());
    lemma_data_end_at(t, n);
}

/// Appending batches one after another into an all-zero region: the
/// boundary ends exactly at the total length written.
pub open spec fn append_all(s: Seq<u8>, batches: Seq<Seq<u8>>) -> Seq<u8>
    decreases batches.len(),
{
    if batches.len() == 0 {
        s
    } else {
        let before = append_all(s, batches.drop_last());
        written(before, data_end(before) as int, batches.last())
    }
}

/// The total number of bytes in `batches`.
pub open spec fn total_len(batches: Seq<Seq<u8>>) -> nat
    decreases batches.len(),
{
    if batches.len() == 0 {
        0
    } else {
        total_len(batches.drop_last()) + batches.last().len()
    }
}

/// After any sequence of appends of non-empty batches that end in a
/// non-zero byte (a record terminator), into a region that started as
/// zeros and is large enough, scanning back from the end finds exactly the
/// number of bytes written.
pub proof fn lemma_boundary_after_appends(len: nat, batches: Seq<Seq<u8>>)
    requires
        forall|k: int|
            0 <= k < batches.len() ==> #[trigger] batches[k].len() > 0 && batches[k].last() != 0,
        total_len(batches) <= len,
    ensures
        data_end(append_all(Seq::new(len, |i: int| 0u8), batches)) == total_len(batches),
        append_all(Seq::new(len, |i: int| 0u8), batches).len() == len,
    decreases batches.len(),
{
    let z = Seq::new(len, |i: int| 0u8);
    if batches.len() == 0 {
        assert(zero_from(z, 0));
        lemma_data_end_at(z, 0);
    } else {
        let rest = batches.drop_last();
        assert forall|k: int| 0 <= k < rest.len() implies #[trigger] rest[k].len() > 0
            && rest[k].last() != 0 by {
            assert(rest[k] == batches[k]);
        }
        lemma_boundary_after_appends(len, rest);
        let before = append_all(z, rest);
        assert(batches.last() == batches[batches.len() - 1]);
        lemma_write_moves_boundary(before, batches.last());
    }
}

/// Scanning a region in pieces from its tail finds the same boundary as a
/// scan of the whole: the boundary lies in the last piece that holds a
/// non-zero byte, and a piece of zeros at the tail can be skipped.
pub proof fn lemma_data_end_concat(a: Seq<u8>, b: Seq<u8>)
    ensures
        data_end(a + b) == if data_end(b) > 0 {
            a.len() + data_end(b)
        } else {
            data_end(a)
        },
{
    let s = a + b;
    lemma_data_end(a);
    lemma_data_end(b);
    if data_end(b) > 0 {
        let n = a.len() + data_end(b);
        assert(zero_from(s, n as int)) by {
            assert forall|i: int| n <= i < s.len() implies #[trigger] s[i] == 0 by {
                assert(s[i] == b[i - a.len()]);
            }
        }
        assert(s[n - 1] == b[data_end(b) - 1]);
        lemma_data_end_at(s, n);
    } else {
        let n = data_end(a);
        assert(zero_from(s, n as int)) by {
            assert forall|i: int| n <= i < s.len() implies #[trigger] s[i] == 0 by {
                if i < a.len() {
                    assert(s[i] == a[i]);
                } else {
                    assert(s[i] == b[i - a.len()]);
                }
            }
        }
        if n > 0 {
            assert(s[n - 1] == a[n - 1]);
        }
        lemma_data_end_at(s, n);
    }
}

/// One step of a scan from the tail, over the piece `chunk` that starts at
/// offset `start` of a file: the boundary, if the piece holds a non-zero
/// byte; `None` when the piece is all padding and the scan moves on to the
/// piece before it.
pub fn tail_boundary(chunk: &[u8], start: u64) -> (r: Option<u64>)
    requires
        start + chunk@.len() <= u64::MAX,
    ensures
        data_end(chunk@) > 0 ==> r == Some((start + data_end(chunk@)) as u64),
        data_end(chunk@) == 0 ==> r is None,
{
    let end = find_boundary(chunk);
    proof {
        lemma_data_end(chunk@);
    }
    if end == 0 {
        None
    } else {
        Some(start + end as u64)
    }
}

/// The boundary of `bytes`: one past its last non-zero byte.
pub fn find_boundary(bytes: &[u8]) -> (r: usize)
    ensures
        r == data_end(bytes@),
{
    let mut pos: usize = bytes.len();
    proof {
        assert(bytes@.subrange(0, pos as int) =~= bytes@);
    }
    while pos > 0 && bytes[pos - 1] == 0
        invariant
            pos <= bytes@.len(),
            data_end(bytes@) == data_end(bytes@.subrange(0, pos as int)),
        decreases pos,
    {
        proof {
            assert(bytes@.subrange(0, pos as int).drop_last() =~= bytes@.subrange(
                0,
                pos - 1,
            ));
        }
        pos = pos - 1;
    }
    pos
}

/// Copies `data` into `region` at `pos`.
pub fn write_at(region: &mut [u8], pos: usize, data: &[u8])
    requires
        pos + data@.len() <= old(region)@.len(),
    ensures
        final(region)@ == written(old(region)@, pos as int, data@),
{
    let ghost start = region@;
    let size: usize = region.len();
    let mut i: usize = 0;
    while i < data.len()
        invariant
            i <= data@.len(),
            pos + data@.len() <= start.len(),
            start.len() == old(region)@.len(),
            start.len() == size,
            region@.len() == start.len(),
            forall|j: int| 0 <= j < pos ==> #[trigger] region@[j] == start[j],
            forall|j: int| 0 <= j < i ==> #[trigger] region@[pos + j] == data@[j],
            forall|j: int| pos + data@.len() <= j < start.len() ==> #[trigger] region@[j] == start[j],
        decreases data@.len() - i,
    {
        region[pos + i] = data[i];
        i = i + 1;
    }
    proof {
        let w = written(start, pos as int, data@);
        assert forall|j: int| 0 <= j < w.len() implies #[trigger] region@[j] == w[j] by {
            if pos <= j < pos + data@.len() {
                assert(region@[pos + (j - pos)] == data@[j - pos]);
            }
        }
        assert(region@ =~= w);
    }
}

} // verus!
