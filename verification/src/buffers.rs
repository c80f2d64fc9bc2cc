//! Sizes and offsets of vertex data handed to the GPU.
use vstd::prelude::*;

verus! {

/// The number of bytes that `val` occupies, as the signed size type that
/// buffer uploads take. A slice never spans more than `isize::MAX` bytes, so
/// the cast keeps the value; the clause for the general case states the cast.
pub fn byte_size_of_array<T>(val: &[T]) -> (size: isize)
    ensures
        size == (val@.len() * vstd::layout::size_of::<T>()) as isize,
        val@.len() * vstd::layout::size_of::<T>() <= isize::MAX ==> size as int == val@.len()
            * vstd::layout::size_of::<T>(),
{
    broadcast use vstd::layout::layout_of_slices;

    let bytes = core::mem::size_of_val(val);
    bytes as isize
}

/// The size of `T` in bytes, as the signed integer that vertex-attribute
/// strides take (the cast truncates only for types larger than `i32::MAX` bytes).
pub fn size_of<T>() -> (size: i32)
    ensures
        size == vstd::layout::size_of::<T>() as i32,
        vstd::layout::size_of::<T>() <= i32::MAX ==> size as int == vstd::layout::size_of::<T>(),
{
    let bytes = core::mem::size_of::<T>();
    bytes as i32
}

/// The byte offset of the `n`-th value of type `T` in a tightly packed
/// buffer: `n` times the size of `T` taken as a `u32`. The product must fit in
/// a `u32`, as it would overflow otherwise.
pub fn offset<T>(n: u32) -> (bytes: u32)
    requires
        n * (vstd::layout::size_of::<T>() as u32) <= u32::MAX,
    ensures
        bytes == n * (vstd::layout::size_of::<T>() as u32),
{
    let unit = core::mem::size_of::<T>() as u32;
    n * unit
}

/// The element indices `0, 1, .., k - 1` for a vertex buffer holding
/// `value_count` coordinates, three per vertex, where `k` is the number of
/// whole vertices in `value_count as u32` (the count is taken as a `u32` first,
/// as index buffers hold `u32`).
pub fn sequential_indices(value_count: usize) -> (indices: Vec<u32>)
    ensures
        indices@.len() == (value_count as u32) / 3,
        forall|i: int| 0 <= i < indices@.len() ==> indices@[i] == i,
{
    let count: u32 = (value_count as u32) / 3;
    let mut indices: Vec<u32> = Vec::new();
    let mut next: u32 = 0;
    while next < count
        invariant
            next <= count,
            indices@.len() == next,
            forall|i: int| 0 <= i < indices@.len() ==> indices@[i] == i,
        decreases count - next,
    {
        indices.push(next);
        next = next + 1;
    }
    indices
}

} // verus!
