//! An immutable, cheaply cloneable byte buffer and zero-copy views into it.

use crate::byte_order::ByteOrder;
use crate::byte_order::byte_order;
use crate::byte_order::bytes_equal;
use crate::byte_order::compare_bytes;
use crate::error::Error;
use std::cmp::Ordering;
use std::sync::Arc;
use vstd::prelude::*;
use vstd::slice::slice_subrange;
use vstd::slice::slice_to_vec;

verus! {

/// An immutable sequence of bytes. Clones share one allocation; the bytes
/// are copied only where an independent owner is asked for.
///
/// Buffers compare by their bytes, in lexicographic order, so they can key
/// an ordered map.
#[derive(Debug, Ord)]
pub struct CowBytes {
    inner: Arc<Vec<u8>>,
}

impl View for CowBytes {
    type V = Seq<u8>;

    closed spec fn view(&self) -> Seq<u8> {
        self.inner@
    }
}

/// Hands out another handle to the same allocation.
///
/// Calls `Arc::clone`, which std documents as making another pointer to the
/// same allocation; the contract claims that the new handle points to the
/// same vector as the old one.
#[verifier::external_body]
fn share(inner: &Arc<Vec<u8>>) -> (shared: Arc<Vec<u8>>)
    ensures
        shared == *inner,
{
    Arc::clone(inner)
}

impl CowBytes {
    /// An empty buffer.
    pub fn new() -> (c: CowBytes)
        ensures
            c@ == Seq::<u8>::empty(),
    {
        CowBytes { inner: Arc::new(Vec::new()) }
    }

    /// Takes ownership of `bytes` without copying them.
    pub fn from_vec(bytes: Vec<u8>) -> (c: CowBytes)
        ensures
            c@ == bytes@,
    {
        CowBytes { inner: Arc::new(bytes) }
    }

    /// Copies `bytes` into a new buffer.
    pub fn from_slice(bytes: &[u8]) -> (c: CowBytes)
        ensures
            c@ == bytes@,
    {
        CowBytes { inner: Arc::new(slice_to_vec(bytes)) }
    }

    /// Number of bytes held.
    pub fn len(&self) -> (n: usize)
        ensures
            n == self@.len(),
    {
        self.inner.len()
    }

    /// Whether no bytes are held.
    pub fn is_empty(&self) -> (r: bool)
        ensures
            r == (self@.len() == 0),
    {
        self.inner.len() == 0
    }

    /// The bytes, borrowed.
    pub fn as_bytes(&self) -> (bytes: &[u8])
        ensures
            bytes@ == self@,
    {
        self.inner.as_slice()
    }

    /// An independently owned copy of the bytes.
    pub fn to_vec(&self) -> (bytes: Vec<u8>)
        ensures
            bytes@ == self@,
    {
        slice_to_vec(self.inner.as_slice())
    }

    /// A view of the bytes `[offset, offset + len)`, sharing this buffer, or
    /// `OutOfRange` when that range does not lie inside it.
    pub fn slice(self, offset: usize, len: usize) -> (r: Result<SlicedCowBytes, Error>)
        ensures
            offset + len <= self@.len() ==> r is Ok && r->Ok_0@ == self@.subrange(
                offset as int,
                offset + len,
            ),
            offset + len > self@.len() ==> r == Err::<SlicedCowBytes, Error>(Error::OutOfRange),
    {
        let total = self.len();
        if offset > total || len > total - offset {
            return Err(Error::OutOfRange);
        }
        Ok(SlicedCowBytes { data: self, pos: offset, len })
    }

    /// The order of `self` relative to `other`, byte by byte.
    pub fn compare(&self, other: &CowBytes) -> (r: ByteOrder)
        ensures
            r == byte_order(self@, other@),
    {
        compare_bytes(self.as_bytes(), other.as_bytes())
    }
}

impl Clone for CowBytes {
    /// Another handle to the same bytes; nothing is copied.
    fn clone(&self) -> (c: CowBytes)
        ensures
            c@ == self@,
            c == *self,
    {
        CowBytes { inner: share(&self.inner) }
    }
}

impl PartialEq for CowBytes {
    /// Two buffers are equal when they hold the same bytes.
    fn eq(&self, other: &CowBytes) -> (r: bool) {
        bytes_equal(self.as_bytes(), other.as_bytes())
    }
}

impl Eq for CowBytes {

}

impl vstd::std_specs::cmp::PartialEqSpecImpl for CowBytes {
    open spec fn obeys_eq_spec() -> bool {
        true
    }

    open spec fn eq_spec(&self, other: &CowBytes) -> bool {
        self@ == other@
    }
}

impl From<Vec<u8>> for CowBytes {
    /// Takes ownership of `bytes` without copying them.
    fn from(bytes: Vec<u8>) -> (c: CowBytes)
        ensures
            c@ == bytes@,
    {
        CowBytes { inner: Arc::new(bytes) }
    }
}

impl vstd::std_specs::convert::FromSpecImpl<Vec<u8>> for CowBytes {
    open spec fn obeys_from_spec() -> bool {
        true
    }

    closed spec fn from_spec(bytes: Vec<u8>) -> CowBytes {
        CowBytes { inner: Arc::new(bytes) }
    }
}

impl<'a> From<&'a [u8]> for CowBytes {
    /// Copies `bytes` into a new buffer.
    fn from(bytes: &'a [u8]) -> (c: CowBytes)
        ensures
            c@ == bytes@,
    {
        CowBytes { inner: Arc::new(slice_to_vec(bytes)) }
    }
}

impl<'a> vstd::std_specs::convert::FromSpecImpl<&'a [u8]> for CowBytes {
    open spec fn obeys_from_spec() -> bool {
        false
    }

    closed spec fn from_spec(bytes: &'a [u8]) -> CowBytes {
        choose|c: CowBytes| c@ == bytes@
    }
}

impl PartialOrd for CowBytes {
    /// Buffers are ordered lexicographically by their bytes.
    fn partial_cmp(&self, other: &CowBytes) -> (r: Option<Ordering>) {
        match self.compare(other) {
            ByteOrder::Less => Some(Ordering::Less),
            ByteOrder::Equal => Some(Ordering::Equal),
            ByteOrder::Greater => Some(Ordering::Greater),
        }
    }
}

impl vstd::std_specs::cmp::PartialOrdSpecImpl for CowBytes {
    open spec fn obeys_partial_cmp_spec() -> bool {
        true
    }

    open spec fn partial_cmp_spec(&self, other: &CowBytes) -> Option<Ordering> {
        match byte_order(self@, other@) {
            ByteOrder::Less => Some(Ordering::Less),
            ByteOrder::Equal => Some(Ordering::Equal),
            ByteOrder::Greater => Some(Ordering::Greater),
        }
    }
}

/// A view of the bytes `[offset, offset + len)` of a shared buffer. Making
/// or cloning a view copies no bytes.
#[derive(Debug)]
pub struct SlicedCowBytes {
    data: CowBytes,
    pos: usize,
    len: usize,
}

impl View for SlicedCowBytes {
    type V = Seq<u8>;

    closed spec fn view(&self) -> Seq<u8> {
        self.data@.subrange(self.pos as int, self.pos + self.len)
    }
}

impl SlicedCowBytes {
    #[verifier::type_invariant]
    spec fn in_range(self) -> bool {
        self.pos + self.len <= self.data@.len()
    }

    /// Number of bytes in view.
    pub fn len(&self) -> (n: usize)
        ensures
            n == self@.len(),
    {
        proof {
            use_type_invariant(self);
        }
        self.len
    }

    /// Whether the view is empty.
    pub fn is_empty(&self) -> (r: bool)
        ensures
            r == (self@.len() == 0),
    {
        proof {
            use_type_invariant(self);
        }
        self.len == 0
    }

    /// The bytes in view, borrowed from the shared buffer.
    pub fn as_bytes(&self) -> (bytes: &[u8])
        ensures
            bytes@ == self@,
    {
        proof {
            use_type_invariant(self);
        }
        let whole = self.data.as_bytes();
        assert(self.pos + self.len <= whole.len());
        slice_subrange(whole, self.pos, self.pos + self.len)
    }

    /// Narrows the view to `[offset, offset + len)` of itself, or reports
    /// `OutOfRange` when that range does not lie inside it.
    pub fn subslice(&self, offset: usize, len: usize) -> (r: Result<SlicedCowBytes, Error>)
        ensures
            offset + len <= self@.len() ==> r is Ok && r->Ok_0@ == self@.subrange(
                offset as int,
                offset + len,
            ),
            offset + len > self@.len() ==> r == Err::<SlicedCowBytes, Error>(Error::OutOfRange),
    {
        proof {
            use_type_invariant(self);
        }
        if offset > self.len || len > self.len - offset {
            return Err(Error::OutOfRange);
        }
        let total = self.data.len();
        assert(self.pos + offset + len <= total);
        let narrowed = SlicedCowBytes { data: self.data.clone(), pos: self.pos + offset, len };
        proof {
            assert(narrowed@ =~= self@.subrange(offset as int, offset + len));
        }
        Ok(narrowed)
    }

    /// Copies the bytes in view into a buffer of their own.
    pub fn to_cow_bytes(&self) -> (c: CowBytes)
        ensures
            c@ == self@,
    {
        CowBytes::from_slice(self.as_bytes())
    }

    /// Copies the bytes in view into a vector.
    pub fn to_vec(&self) -> (bytes: Vec<u8>)
        ensures
            bytes@ == self@,
    {
        slice_to_vec(self.as_bytes())
    }

    /// The order of `self` relative to `other`, byte by byte.
    pub fn compare(&self, other: &SlicedCowBytes) -> (r: ByteOrder)
        ensures
            r == byte_order(self@, other@),
    {
        compare_bytes(self.as_bytes(), other.as_bytes())
    }
}

impl Clone for SlicedCowBytes {
    /// Another view of the same range of the same buffer; nothing is copied.
    fn clone(&self) -> (c: SlicedCowBytes)
        ensures
            c@ == self@,
            c == *self,
    {
        proof {
            use_type_invariant(self);
        }
        SlicedCowBytes { data: self.data.clone(), pos: self.pos, len: self.len }
    }
}

impl PartialEq for SlicedCowBytes {
    /// Two views are equal when the bytes in view are the same.
    fn eq(&self, other: &SlicedCowBytes) -> (r: bool) {
        bytes_equal(self.as_bytes(), other.as_bytes())
    }
}

impl Eq for SlicedCowBytes {

}

impl vstd::std_specs::cmp::PartialEqSpecImpl for SlicedCowBytes {
    open spec fn obeys_eq_spec() -> bool {
        true
    }

    open spec fn eq_spec(&self, other: &SlicedCowBytes) -> bool {
        self@ == other@
    }
}

impl From<CowBytes> for SlicedCowBytes {
    /// A view of the whole buffer.
    fn from(data: CowBytes) -> (s: SlicedCowBytes)
        ensures
            s@ == data@,
    {
        let len = data.len();
        let s = SlicedCowBytes { data, pos: 0, len };
        proof {
            assert(s@ =~= data@);
        }
        s
    }
}

impl vstd::std_specs::convert::FromSpecImpl<CowBytes> for SlicedCowBytes {
    open spec fn obeys_from_spec() -> bool {
        true
    }

    closed spec fn from_spec(data: CowBytes) -> SlicedCowBytes {
        SlicedCowBytes { data, pos: 0, len: data@.len() as usize }
    }
}

} // verus!
