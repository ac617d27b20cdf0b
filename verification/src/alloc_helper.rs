//! Vectors whose growth reports a refused allocation as `ENOMEM`.

use crate::errnos::{Errno, PosixResult};
use vstd::prelude::*;

verus! {

/// Whether memory was refused. Only the functions of this module can tell, since they are the ones
/// that ask the allocator: who reports want of memory has been told so by one of them.
pub closed spec fn memory_refused() -> bool {
    true
}

/// For what is longer than any length of the machine there is no memory.
pub proof fn lemma_no_memory_for(len: int)
    requires
        len > usize::MAX,
    ensures
        memory_refused(),
{
}

/// Appends `value`. Whether memory is at hand is up to the allocator; where it is not, the
/// vector stays as it was.
pub fn push_vec<T>(v: &mut Vec<T>, value: T) -> (r: PosixResult<()>)
    ensures
        match r {
            Ok(()) => final(v)@ == old(v)@.push(value),
            Err(e) => e == Errno::ENOMEM && memory_refused() && final(v)@ == old(v)@,
        },
{
    if v.try_reserve(1).is_err() {
        return Err(Errno::ENOMEM);
    }
    v.push(value);
    Ok(())
}

/// Appends clones of the elements of `slice`. Whether memory is at hand is up to the allocator;
/// where it is not, the vector stays as it was.
pub fn extend_from_slice<T: Clone>(v: &mut Vec<T>, slice: &[T]) -> (r: PosixResult<()>)
    ensures
        match r {
            Ok(()) => {
                &&& final(v)@.len() == old(v)@.len() + slice@.len()
                &&& final(v)@.take(old(v)@.len() as int) == old(v)@
                &&& forall|i: int|
                    0 <= i < slice@.len() ==> cloned::<T>(
                        #[trigger] slice@[i],
                        final(v)@[old(v)@.len() + i],
                    )
            },
            Err(e) => e == Errno::ENOMEM && memory_refused() && final(v)@ == old(v)@,
        },
{
    if v.try_reserve(slice.len()).is_err() {
        return Err(Errno::ENOMEM);
    }
    v.extend_from_slice(slice);
    assert(v@.take(old(v)@.len() as int) =~= old(v)@);
    assert forall|i: int| 0 <= i < slice@.len() implies cloned::<T>(
        #[trigger] slice@[i],
        v@[old(v)@.len() + i],
    ) by {
        let k = old(v)@.len() + i;
        assert(cloned::<T>(slice@[k - old(v)@.len()], v@[k]));
    }
    Ok(())
}

/// Makes a vector of `capacity` clones of the default value: its length, not only its room, is
/// `capacity`, so that the buffer can be filled in place.
pub fn vec_with_capacity<T: Default + Clone>(capacity: usize) -> (r: PosixResult<Vec<T>>)
    ensures
        match r {
            Ok(v) => {
                &&& v@.len() == capacity
                &&& exists|zero: T|
                    #![trigger T::default.ensures((), zero)]
                    T::default.ensures((), zero) && forall|i: int|
                        0 <= i < capacity ==> cloned::<T>(zero, #[trigger] v@[i])
            },
            Err(e) => e == Errno::ENOMEM && memory_refused(),
        },
{
    let mut v: Vec<T> = Vec::new();
    if v.try_reserve(capacity).is_err() {
        return Err(Errno::ENOMEM);
    }
    let zero = T::default();
    v.resize(capacity, zero);
    assert(T::default.ensures((), zero));
    Ok(v)
}

/// `len` zero bytes.
pub open spec fn zeros(len: nat) -> Seq<u8> {
    Seq::new(len, |i: int| 0u8)
}

/// Makes a buffer of `len` zero bytes.
pub fn zeroed(len: usize) -> (r: PosixResult<Vec<u8>>)
    ensures
        match r {
            Ok(v) => v@ == zeros(len as nat),
            Err(e) => e == Errno::ENOMEM && memory_refused(),
        },
{
    let v: Vec<u8> = vec_with_capacity(len)?;
    assert(v@ =~= zeros(len as nat));
    Ok(v)
}

/// Makes a copy of `slice`.
pub fn copied(slice: &[u8]) -> (r: PosixResult<Vec<u8>>)
    ensures
        match r {
            Ok(v) => v@ == slice@,
            Err(e) => e == Errno::ENOMEM && memory_refused(),
        },
{
    let mut v: Vec<u8> = Vec::new();
    extend_from_slice(&mut v, slice)?;
    assert forall|i: int| 0 <= i < slice@.len() implies v@[i] == slice@[i] by {
        assert(cloned::<u8>(slice@[i], v@[0 + i]));
    }
    assert(v@ =~= slice@);
    Ok(v)
}

} // verus!
