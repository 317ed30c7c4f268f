//! Fixed-length views of a buffer: single extraction and multi-segment
//! partition, in read-only and mutable variants.

use vstd::prelude::*;
use vstd::slice::{slice_index_get, slice_subrange};
use crate::OutOfBounds;

verus! {

/// The sum of the first `i` entries of `lens`, as an unbounded integer, so
/// that no overflow can hide an out-of-bounds request.
pub open spec fn prefix_sum(lens: Seq<usize>, i: int) -> int
    decreases i,
{
    if i <= 0 {
        0
    } else {
        prefix_sum(lens, i - 1) + lens[i - 1]
    }
}

/// The sum of all entries of `lens`.
pub open spec fn sum_of(lens: Seq<usize>) -> int {
    prefix_sum(lens, lens.len() as int)
}

/// The `i`-th of the contiguous, gap-free segments that `lens` cuts `buf`
/// into: it starts where segment `i - 1` ends and holds `lens[i]` elements.
pub open spec fn segment<T>(buf: Seq<T>, lens: Seq<usize>, i: int) -> Seq<T> {
    buf.subrange(prefix_sum(lens, i), prefix_sum(lens, i) + lens[i])
}

/// Prefix sums of non-negative lengths grow monotonically.
pub proof fn lemma_prefix_sum_mono(lens: Seq<usize>, i: int, j: int)
    requires
        0 <= i <= j,
    ensures
        prefix_sum(lens, i) <= prefix_sum(lens, j),
    decreases j - i,
{
    if i < j {
        lemma_prefix_sum_mono(lens, i, j - 1);
    }
}

/// Relies on `<&[T; N] as TryFrom<&[T]>>::try_from`: converting a slice to an
/// array reference of the same length succeeds and aliases the same elements.
#[verifier::external_body]
pub(crate) fn slice_as_array<T, const N: usize>(s: &[T]) -> (r: &[T; N])
    requires
        s@.len() == N,
    ensures
        r@ == s@,
{
    <&[T; N]>::try_from(s).ok().unwrap()
}

/// Relies on `<&mut [T; N] as TryFrom<&mut [T]>>::try_from`: converting a
/// mutable slice to a mutable array reference of the same length succeeds and
/// aliases the same elements, so writes through the result are writes through
/// the argument.
#[verifier::external_body]
pub(crate) fn slice_as_array_mut<T, const N: usize>(s: &mut [T]) -> (r: &mut [T; N])
    requires
        old(s)@.len() == N,
    ensures
        r@ == old(s)@,
        final(s)@ == final(r)@,
{
    <&mut [T; N]>::try_from(s).ok().unwrap()
}

/// A read-only reference to exactly `N` contiguous elements of `buffer`,
/// starting at `offset`, aliasing the buffer's own storage.
///
/// Succeeds exactly when `offset + N` fits within the buffer; the length `N`
/// is part of the result's type, so callers may index the result without
/// further bounds checks.
pub fn take_fixed_view<'a, T, const N: usize>(buffer: &'a [T], offset: usize) -> (r: Result<
    &'a [T; N],
    OutOfBounds,
>)
    ensures
        match r {
            Ok(a) => offset + N <= buffer@.len() && a@ == buffer@.subrange(
                offset as int,
                offset + N,
            ),
            Err(e) => offset + N > buffer@.len() && e == OutOfBounds,
        },
{
    if offset <= buffer.len() && N <= buffer.len() - offset {
        let s = slice_subrange(buffer, offset, offset + N);
        Ok(slice_as_array(s))
    } else {
        Err(OutOfBounds)
    }
}

/// A mutable reference to exactly `N` contiguous elements of `buffer`,
/// starting at `offset`, aliasing the buffer's own storage.
///
/// Succeeds exactly when `offset + N` fits within the buffer. While the
/// returned view is alive, the borrow of `buffer` excludes every other
/// access to it; when the borrows expire, the buffer holds whatever was
/// written through the view at `[offset, offset + N)` and its old contents
/// everywhere else.
pub fn take_fixed_view_mut<'a, T, const N: usize>(
    buffer: &'a mut [T],
    offset: usize,
) -> (r: Result<&'a mut [T; N], OutOfBounds>)
    ensures
        match r {
            Ok(a) => {
                &&& offset + N <= old(buffer)@.len()
                &&& a@ == old(buffer)@.subrange(offset as int, offset + N)
                &&& final(buffer)@ == old(buffer)@.take(offset as int) + final(a)@ + old(
                    buffer,
                )@.skip(offset + N)
            },
            Err(e) => {
                &&& offset + N > old(buffer)@.len()
                &&& final(buffer)@ == old(buffer)@
                &&& e == OutOfBounds
            },
        },
{
    if offset <= buffer.len() && N <= buffer.len() - offset {
        let (_pre, rest) = buffer.split_at_mut(offset);
        let (mid, _post) = rest.split_at_mut(N);
        Ok(slice_as_array_mut(mid))
    } else {
        Err(OutOfBounds)
    }
}

/// Cuts `buffer` into one read-only view per entry of `lens`, contiguous, in
/// order, with no gaps and no overlaps.
///
/// Succeeds exactly when the lengths sum to the whole buffer length; the sum
/// is judged as an unbounded integer, so an overflowing list of lengths is
/// rejected rather than wrapped.
pub fn partition_fixed<'a, T>(buffer: &'a [T], lens: &[usize]) -> (r: Result<
    Vec<&'a [T]>,
    OutOfBounds,
>)
    ensures
        match r {
            Ok(parts) => {
                &&& sum_of(lens@) == buffer@.len()
                &&& parts@.len() == lens@.len()
                &&& forall|i: int|
                    0 <= i < lens@.len() ==> (#[trigger] parts@[i])@ == segment(
                        buffer@,
                        lens@,
                        i,
                    )
            },
            Err(e) => sum_of(lens@) != buffer@.len() && e == OutOfBounds,
        },
{
    let mut rem: &'a [T] = buffer;
    let mut parts: Vec<&'a [T]> = Vec::new();
    let mut k: usize = 0;
    while k < lens.len()
        invariant
            k <= lens@.len(),
            parts@.len() == k,
            0 <= prefix_sum(lens@, k as int) <= buffer@.len(),
            rem@ == buffer@.skip(prefix_sum(lens@, k as int)),
            forall|i: int|
                0 <= i < k ==> (#[trigger] parts@[i])@ == segment(buffer@, lens@, i),
        decreases lens@.len() - k,
    {
        let n = *slice_index_get(lens, k);
        match crate::reserve::reserve(&mut rem, n) {
            Ok(piece) => {
                proof {
                    assert(piece@ =~= segment(buffer@, lens@, k as int));
                    assert(rem@ =~= buffer@.skip(prefix_sum(lens@, k as int + 1)));
                }
                parts.push(piece);
            },
            Err(_) => {
                proof {
                    lemma_prefix_sum_mono(lens@, k as int + 1, lens@.len() as int);
                }
                return Err(OutOfBounds);
            },
        }
        k = k + 1;
    }
    if rem.len() > 0 {
        return Err(OutOfBounds);
    }
    Ok(parts)
}

/// Cuts `buffer` into one independently writable view per entry of `lens`,
/// contiguous, in order, with no gaps and no overlaps.
///
/// Succeeds exactly when the lengths sum to the whole buffer length, judged
/// as an unbounded integer. The views are disjoint by construction, so the
/// caller may hold and mutate all of them at once; when every borrow
/// expires, the buffer is exactly the concatenation, in order, of what each
/// view then holds.
pub fn partition_fixed_mut<'a, T>(buffer: &'a mut [T], lens: &[usize]) -> (r: Result<
    Vec<&'a mut [T]>,
    OutOfBounds,
>)
    ensures
        match r {
            Ok(parts) => {
                &&& sum_of(lens@) == old(buffer)@.len()
                &&& parts@.len() == lens@.len()
                &&& forall|i: int|
                    #![trigger parts@[i]]
                    0 <= i < lens@.len() ==> parts@[i]@ == segment(old(buffer)@, lens@, i)
                &&& final(buffer)@ == Seq::new(
                    lens@.len(),
                    |i: int| final(parts@[i])@,
                ).flatten()
            },
            Err(e) => {
                &&& sum_of(lens@) != old(buffer)@.len()
                &&& final(buffer)@ == old(buffer)@
                &&& e == OutOfBounds
            },
        },
{
    let mut rem_len: usize = buffer.len();
    let mut k: usize = 0;
    while k < lens.len()
        invariant
            k <= lens@.len(),
            prefix_sum(lens@, k as int) == old(buffer)@.len() - rem_len,
            rem_len <= old(buffer)@.len(),
        decreases lens@.len() - k,
    {
        let n = *slice_index_get(lens, k);
        if n > rem_len {
            proof {
                lemma_prefix_sum_mono(lens@, k as int + 1, lens@.len() as int);
            }
            return Err(OutOfBounds);
        }
        rem_len = rem_len - n;
        k = k + 1;
    }
    if rem_len > 0 {
        return Err(OutOfBounds);
    }
    let ghost buf_fin = final(buffer)@;
    let mut rem: &'a mut [T] = buffer;
    let mut parts: Vec<&'a mut [T]> = Vec::new();
    let mut j: usize = 0;
    while j < lens.len()
        invariant
            j <= lens@.len(),
            parts@.len() == j,
            sum_of(lens@) == old(buffer)@.len(),
            0 <= prefix_sum(lens@, j as int) <= old(buffer)@.len(),
            rem@ == old(buffer)@.skip(prefix_sum(lens@, j as int)),
            forall|i: int|
                #![trigger parts@[i]]
                0 <= i < j ==> parts@[i]@ == segment(old(buffer)@, lens@, i),
            buf_fin == Seq::new(j as nat, |i: int| final(parts@[i])@).flatten() + final(rem)@,
        decreases lens@.len() - j,
    {
        let n = *slice_index_get(lens, j);
        proof {
            lemma_prefix_sum_mono(lens@, j as int + 1, lens@.len() as int);
        }
        let ghost parts_pre = parts@;
        match crate::reserve::reserve_mut(&mut rem, n) {
            Ok(piece) => {
                let ghost piece_fin = final(piece)@;
                proof {
                    assert(piece@ =~= segment(old(buffer)@, lens@, j as int));
                    assert(rem@ =~= old(buffer)@.skip(prefix_sum(lens@, j as int + 1)));
                }
                parts.push(piece);
                proof {
                    broadcast use Seq::lemma_flatten_push;

                    assert(Seq::new(j as nat + 1, |i: int| final(parts@[i])@) =~= Seq::new(
                        j as nat,
                        |i: int| final(parts_pre[i])@,
                    ).push(piece_fin));
                    assert(Seq::new(j as nat, |i: int| final(parts_pre[i])@).flatten()
                        + (piece_fin + final(rem)@) =~= Seq::new(
                        j as nat,
                        |i: int| final(parts_pre[i])@,
                    ).flatten().add(piece_fin) + final(rem)@);
                }
            },
            Err(_) => {
                proof {
                    assert(false);
                }
                return Err(OutOfBounds);
            },
        }
        j = j + 1;
    }
    proof {
        assert(has_resolved(rem));
        assert(final(rem)@ =~= Seq::<T>::empty());
        assert(Seq::new(lens@.len(), |i: int| final(parts@[i])@).flatten() + Seq::<T>::empty()
            =~= Seq::new(lens@.len(), |i: int| final(parts@[i])@).flatten());
    }
    Ok(parts)
}

/// Relates the prefix sums of a list of lengths to those of its tail.
proof fn lemma_prefix_sum_drop_first(lens: Seq<usize>, i: int)
    requires
        lens.len() >= 1,
        0 <= i <= lens.len() - 1,
    ensures
        prefix_sum(lens.drop_first(), i) == prefix_sum(lens, i + 1) - lens[0],
    decreases i,
{
    if i > 0 {
        lemma_prefix_sum_drop_first(lens, i - 1);
        assert(prefix_sum(lens.drop_first(), i) == prefix_sum(lens.drop_first(), i - 1)
            + lens.drop_first()[i - 1]);
        assert(lens.drop_first()[i - 1] == lens[i]);
        assert(prefix_sum(lens, i + 1) == prefix_sum(lens, i) + lens[i]);
    } else {
        assert(prefix_sum(lens.drop_first(), 0) == 0);
        assert(prefix_sum(lens, 1) == prefix_sum(lens, 0) + lens[0]);
        assert(prefix_sum(lens, 0) == 0);
    }
}

/// Partition law: fixed views cut out of `buf` by a list of lengths summing
/// exactly to its length — contiguous, in order, gap-free — concatenate, in
/// order, back to `buf` exactly.
pub proof fn lemma_partition_concat<T>(buf: Seq<T>, lens: Seq<usize>, parts: Seq<Seq<T>>)
    requires
        parts.len() == lens.len(),
        sum_of(lens) == buf.len(),
        forall|i: int| 0 <= i < parts.len() ==> #[trigger] parts[i] == segment(buf, lens, i),
    ensures
        parts.flatten() == buf,
    decreases parts.len(),
{
    if parts.len() == 0 {
        assert(parts.flatten() =~= buf);
    } else {
        let n = lens[0] as int;
        let buf2 = buf.skip(n);
        let lens2 = lens.drop_first();
        let parts2 = parts.drop_first();
        assert(prefix_sum(lens, 0) == 0);
        assert(prefix_sum(lens, 1) == lens[0]);
        lemma_prefix_sum_mono(lens, 1, lens.len() as int);
        lemma_prefix_sum_drop_first(lens, lens.len() - 1);
        assert(sum_of(lens2) == prefix_sum(lens2, lens.len() - 1));
        assert(buf2.len() == buf.len() - n);
        assert(sum_of(lens2) == buf2.len());
        assert forall|i: int| 0 <= i < parts2.len() implies #[trigger] parts2[i] == segment(
            buf2,
            lens2,
            i,
        ) by {
            lemma_prefix_sum_drop_first(lens, i);
            lemma_prefix_sum_drop_first(lens, i + 1);
            lemma_prefix_sum_mono(lens, 0, i + 1);
            lemma_prefix_sum_mono(lens, 1, i + 1);
            lemma_prefix_sum_mono(lens, i + 2, lens.len() as int);
            assert(parts2[i] == parts[i + 1]);
            assert(lens2[i] == lens[i + 1]);
            assert(segment(buf2, lens2, i) =~= segment(buf, lens, i + 1));
        }
        lemma_partition_concat(buf2, lens2, parts2);
        assert(parts.flatten() == parts.first() + parts.drop_first().flatten());
        assert(parts.flatten() =~= buf);
    }
}

/// Mutation visibility: with a buffer whose final contents are its old
/// contents with `[offset, offset + n)` replaced by a view's contents — the
/// shape that [`take_fixed_view_mut`] ensures — reading the buffer at the
/// absolute position `offset + k` observes what the view holds at `k`.
pub proof fn lemma_view_write_visible<T>(buf: Seq<T>, offset: int, view: Seq<T>, k: int)
    requires
        0 <= offset,
        offset + view.len() <= buf.len(),
        0 <= k < view.len(),
    ensures
        (buf.take(offset) + view + buf.skip(offset + view.len()))[offset + k] == view[k],
{
}

/// Mutation isolation: if a buffer changed only inside segment `i` of a
/// partition — all that a write through that segment's view can touch —
/// then every other segment of the partition reads exactly as before.
pub proof fn lemma_segment_isolation<T>(
    buf: Seq<T>,
    buf2: Seq<T>,
    lens: Seq<usize>,
    i: int,
    j: int,
)
    requires
        buf2.len() == buf.len(),
        sum_of(lens) == buf.len(),
        0 <= i < lens.len(),
        0 <= j < lens.len(),
        i != j,
        forall|k: int|
            0 <= k < buf.len() && !(prefix_sum(lens, i) <= k < prefix_sum(lens, i) + lens[i])
                ==> #[trigger] buf2[k] == buf[k],
    ensures
        segment(buf2, lens, j) == segment(buf, lens, j),
{
    lemma_prefix_sum_mono(lens, 0, j);
    lemma_prefix_sum_mono(lens, j + 1, lens.len() as int);
    if j < i {
        lemma_prefix_sum_mono(lens, j + 1, i);
    } else {
        lemma_prefix_sum_mono(lens, i + 1, j);
    }
    assert(segment(buf2, lens, j) =~= segment(buf, lens, j));
}

} // verus!
