//! Reserve operations: peel a prefix or suffix off a handle to a buffer
//! reference, returning the removed segment while the handle shrinks, in
//! place, to the remainder.
//!
//! A handle is a mutable binding to a slice reference (`&mut &[T]`, or
//! `&mut &mut [T]` for exclusively writable buffers). Each call removes a
//! segment from the front or the back; the segment and the narrowed handle
//! are disjoint and together reconstitute the pre-call view exactly.

use vstd::prelude::*;
use vstd::array::ref_mut_array_unsizing_coercion;
use crate::OutOfBounds;
use crate::fixed::{slice_as_array, slice_as_array_mut};

verus! {

/// Removes and returns the first `len` elements of the handle's view; the
/// handle becomes the remaining suffix.
///
/// Succeeds exactly when `len` fits within the current view. The returned
/// segment, followed by the new handle value, reconstitutes the old view:
/// no element is lost, duplicated, or reordered.
pub fn reserve<'heap, T>(heap: &mut &'heap [T], len: usize) -> (r: Result<&'heap [T], OutOfBounds>)
    ensures
        match r {
            Ok(head) => {
                &&& len <= old(heap)@.len()
                &&& head@ == old(heap)@.subrange(0, len as int)
                &&& final(heap)@ == old(heap)@.subrange(len as int, old(heap)@.len() as int)
                &&& old(heap)@ == head@ + final(heap)@
            },
            Err(e) => {
                &&& len > old(heap)@.len()
                &&& final(heap)@ == old(heap)@
                &&& e == OutOfBounds
            },
        },
{
    let tmp: &'heap [T] = *heap;
    if len > tmp.len() {
        return Err(OutOfBounds);
    }
    let (head, rest) = tmp.split_at(len);
    *heap = rest;
    proof {
        assert(old(heap)@ =~= head@ + rest@);
    }
    Ok(head)
}

/// Removes and returns the last `len` elements of the handle's view; the
/// handle becomes the remaining prefix.
///
/// Succeeds exactly when `len` fits within the current view. The new handle
/// value, followed by the returned segment, reconstitutes the old view.
pub fn reserve_tail<'heap, T>(heap: &mut &'heap [T], len: usize) -> (r: Result<
    &'heap [T],
    OutOfBounds,
>)
    ensures
        match r {
            Ok(tail) => {
                &&& len <= old(heap)@.len()
                &&& tail@ == old(heap)@.subrange(old(heap)@.len() - len, old(heap)@.len() as int)
                &&& final(heap)@ == old(heap)@.subrange(0, old(heap)@.len() - len)
                &&& old(heap)@ == final(heap)@ + tail@
            },
            Err(e) => {
                &&& len > old(heap)@.len()
                &&& final(heap)@ == old(heap)@
                &&& e == OutOfBounds
            },
        },
{
    let tmp: &'heap [T] = *heap;
    if len > tmp.len() {
        return Err(OutOfBounds);
    }
    let cut = tmp.len() - len;
    let (rest, tail) = tmp.split_at(cut);
    *heap = rest;
    proof {
        assert(old(heap)@ =~= rest@ + tail@);
    }
    Ok(tail)
}

/// Removes and returns the first `len` elements of a mutable handle's view;
/// the handle becomes the remaining suffix.
///
/// Succeeds exactly when `len` fits within the current view. The returned
/// segment and the narrowed handle reference strictly disjoint memory, so
/// both may be held and mutated at once; when every borrow expires, the
/// original buffer is whatever was written through the segment, followed by
/// whatever the remainder then holds.
pub fn reserve_mut<'heap, T>(heap: &mut &'heap mut [T], len: usize) -> (r: Result<
    &'heap mut [T],
    OutOfBounds,
>)
    ensures
        match r {
            Ok(head) => {
                &&& len <= old(heap)@.len()
                &&& head@ == old(heap)@.subrange(0, len as int)
                &&& final(heap)@ == old(heap)@.subrange(len as int, old(heap)@.len() as int)
                &&& old(heap)@ == head@ + final(heap)@
                &&& final(*old(heap))@ == final(head)@ + final(*final(heap))@
            },
            Err(e) => {
                &&& len > old(heap)@.len()
                &&& *final(heap) == *old(heap)
                &&& e == OutOfBounds
            },
        },
{
    if len > heap.len() {
        return Err(OutOfBounds);
    }
    let empty: &mut [T; 0] = &mut [];
    let mut tmp: &'heap mut [T] = ref_mut_array_unsizing_coercion(empty);
    core::mem::swap(heap, &mut tmp);
    let (head, rest) = tmp.split_at_mut(len);
    *heap = rest;
    Ok(head)
}

/// Removes and returns the last `len` elements of a mutable handle's view;
/// the handle becomes the remaining prefix.
///
/// Succeeds exactly when `len` fits within the current view. The returned
/// segment and the narrowed handle reference strictly disjoint memory; when
/// every borrow expires, the original buffer is whatever the remainder then
/// holds, followed by whatever was written through the segment.
pub fn reserve_tail_mut<'heap, T>(heap: &mut &'heap mut [T], len: usize) -> (r: Result<
    &'heap mut [T],
    OutOfBounds,
>)
    ensures
        match r {
            Ok(tail) => {
                &&& len <= old(heap)@.len()
                &&& tail@ == old(heap)@.subrange(old(heap)@.len() - len, old(heap)@.len() as int)
                &&& final(heap)@ == old(heap)@.subrange(0, old(heap)@.len() - len)
                &&& old(heap)@ == final(heap)@ + tail@
                &&& final(*old(heap))@ == final(*final(heap))@ + final(tail)@
            },
            Err(e) => {
                &&& len > old(heap)@.len()
                &&& *final(heap) == *old(heap)
                &&& e == OutOfBounds
            },
        },
{
    if len > heap.len() {
        return Err(OutOfBounds);
    }
    let empty: &mut [T; 0] = &mut [];
    let mut tmp: &'heap mut [T] = ref_mut_array_unsizing_coercion(empty);
    core::mem::swap(heap, &mut tmp);
    let cut = tmp.len() - len;
    let (rest, tail) = tmp.split_at_mut(cut);
    *heap = rest;
    Ok(tail)
}

/// Like [`reserve`], but the removed initial segment is returned as a
/// fixed-length array reference, its length `N` part of its type.
pub fn reserve_fixed<'heap, T, const N: usize>(heap: &mut &'heap [T]) -> (r: Result<
    &'heap [T; N],
    OutOfBounds,
>)
    ensures
        match r {
            Ok(head) => {
                &&& N <= old(heap)@.len()
                &&& head@ == old(heap)@.subrange(0, N as int)
                &&& final(heap)@ == old(heap)@.subrange(N as int, old(heap)@.len() as int)
                &&& old(heap)@ == head@ + final(heap)@
            },
            Err(e) => {
                &&& N > old(heap)@.len()
                &&& final(heap)@ == old(heap)@
                &&& e == OutOfBounds
            },
        },
{
    match reserve(heap, N) {
        Ok(head) => Ok(slice_as_array(head)),
        Err(e) => Err(e),
    }
}

/// Like [`reserve_tail`], but the removed trailing segment is returned as a
/// fixed-length array reference, its length `N` part of its type.
pub fn reserve_tail_fixed<'heap, T, const N: usize>(heap: &mut &'heap [T]) -> (r: Result<
    &'heap [T; N],
    OutOfBounds,
>)
    ensures
        match r {
            Ok(tail) => {
                &&& N <= old(heap)@.len()
                &&& tail@ == old(heap)@.subrange(old(heap)@.len() - N, old(heap)@.len() as int)
                &&& final(heap)@ == old(heap)@.subrange(0, old(heap)@.len() - N)
                &&& old(heap)@ == final(heap)@ + tail@
            },
            Err(e) => {
                &&& N > old(heap)@.len()
                &&& final(heap)@ == old(heap)@
                &&& e == OutOfBounds
            },
        },
{
    match reserve_tail(heap, N) {
        Ok(tail) => Ok(slice_as_array(tail)),
        Err(e) => Err(e),
    }
}

/// Like [`reserve_mut`], but the removed initial segment is returned as a
/// mutably borrowed fixed-length array, its length `N` part of its type.
pub fn reserve_fixed_mut<'heap, T, const N: usize>(heap: &mut &'heap mut [T]) -> (r: Result<
    &'heap mut [T; N],
    OutOfBounds,
>)
    ensures
        match r {
            Ok(head) => {
                &&& N <= old(heap)@.len()
                &&& head@ == old(heap)@.subrange(0, N as int)
                &&& final(heap)@ == old(heap)@.subrange(N as int, old(heap)@.len() as int)
                &&& old(heap)@ == head@ + final(heap)@
                &&& final(*old(heap))@ == final(head)@ + final(*final(heap))@
            },
            Err(e) => {
                &&& N > old(heap)@.len()
                &&& *final(heap) == *old(heap)
                &&& e == OutOfBounds
            },
        },
{
    match reserve_mut(heap, N) {
        Ok(head) => Ok(slice_as_array_mut(head)),
        Err(e) => Err(e),
    }
}

/// Like [`reserve_tail_mut`], but the removed trailing segment is returned
/// as a mutably borrowed fixed-length array, its length `N` part of its type.
pub fn reserve_tail_fixed_mut<'heap, T, const N: usize>(heap: &mut &'heap mut [T]) -> (r: Result<
    &'heap mut [T; N],
    OutOfBounds,
>)
    ensures
        match r {
            Ok(tail) => {
                &&& N <= old(heap)@.len()
                &&& tail@ == old(heap)@.subrange(old(heap)@.len() - N, old(heap)@.len() as int)
                &&& final(heap)@ == old(heap)@.subrange(0, old(heap)@.len() - N)
                &&& old(heap)@ == final(heap)@ + tail@
                &&& final(*old(heap))@ == final(*final(heap))@ + final(tail)@
            },
            Err(e) => {
                &&& N > old(heap)@.len()
                &&& *final(heap) == *old(heap)
                &&& e == OutOfBounds
            },
        },
{
    match reserve_tail_mut(heap, N) {
        Ok(tail) => Ok(slice_as_array_mut(tail)),
        Err(e) => Err(e),
    }
}

/// Exhaustion law, preservation step: if the chunks reserved so far,
/// concatenated in order with the handle's remaining view, reproduce the
/// original buffer, then one more front reserve — which splits the remainder
/// into a chunk and a new remainder — keeps that true.
pub proof fn lemma_reserve_exhaustion_step<T>(
    orig: Seq<T>,
    taken: Seq<Seq<T>>,
    chunk: Seq<T>,
    rem_before: Seq<T>,
    rem_after: Seq<T>,
)
    requires
        taken.flatten() + rem_before == orig,
        rem_before == chunk + rem_after,
    ensures
        taken.push(chunk).flatten() + rem_after == orig,
{
    broadcast use Seq::lemma_flatten_push;

    assert(taken.push(chunk).flatten() + rem_after =~= taken.flatten() + (chunk + rem_after));
}

/// Exhaustion law, conclusion: when the handle's remaining length reaches 0,
/// the chunks reserved along the way hold the whole buffer, each element
/// handed out exactly once — their concatenation is the original, with
/// nothing lost, duplicated, or reordered.
pub proof fn lemma_reserve_exhaustion_done<T>(orig: Seq<T>, taken: Seq<Seq<T>>, rem: Seq<T>)
    requires
        taken.flatten() + rem == orig,
        rem.len() == 0,
    ensures
        taken.flatten() == orig,
{
    assert(taken.flatten() =~= taken.flatten() + rem);
}

} // verus!
