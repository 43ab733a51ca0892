//! Byte buffers with their contents stated as sequences.

use vstd::prelude::*;
use vstd::slice::slice_to_vec;

verus! {

/// Appends bytes to a buffer.
pub fn append(buffer: &mut Vec<u8>, bytes: &[u8])
    ensures
        final(buffer)@ == old(buffer)@ + bytes@,
{
    buffer.extend_from_slice(bytes);
    assert(buffer@ =~= old(buffer)@ + bytes@);
}

/// Copies a buffer.
pub fn copy(bytes: &Vec<u8>) -> (copied: Vec<u8>)
    ensures
        copied@ == bytes@,
{
    slice_to_vec(bytes.as_slice())
}

/// Compares two buffers.
pub fn same_bytes(left: &Vec<u8>, right: &Vec<u8>) -> (same: bool)
    ensures
        same == (left@ == right@),
{
    if left.len() != right.len() {
        return false;
    }
    for i in 0..left.len()
        invariant
            left@.len() == right@.len(),
            left@.take(i as int) == right@.take(i as int),
    {
        if left[i] != right[i] {
            return false;
        }
        assert(left@.take(i + 1) =~= left@.take(i as int).push(left@[i as int]));
        assert(right@.take(i + 1) =~= right@.take(i as int).push(right@[i as int]));
    }
    assert(left@.take(left@.len() as int) =~= left@);
    assert(right@.take(right@.len() as int) =~= right@);
    true
}

/// Compares two texts.
pub fn same_text(left: &str, right: &str) -> (same: bool)
    ensures
        same == (left@ == right@),
{
    let size: usize = left.unicode_len();
    if size != right.unicode_len() {
        return false;
    }
    for i in 0..size
        invariant
            size == left@.len(),
            size == right@.len(),
            forall|j: int| 0 <= j < i ==> left@[j] == right@[j],
    {
        if left.get_char(i) != right.get_char(i) {
            return false;
        }
    }
    assert(left@ =~= right@);
    true
}

/// Replaces a value, handing out what was there.
pub fn replace<T>(slot: &mut T, value: T) -> (previous: T)
    ensures
        previous == *old(slot),
        *final(slot) == value,
{
    let mut value = value;
    std::mem::swap(slot, &mut value);
    value
}

} // verus!
