//! A byte string with a bytewise three-way comparison.

use crate::db::ldbslice::lossy_text;
use crate::util::coding::copy_bytes;
use crate::util::comparator::bytes_le;
use crate::util::comparator::bytewise_order;
use std::cmp::Ordering;
use vstd::prelude::*;

verus! {

/// A byte string.
#[derive(Debug)]
pub struct Slice {
    data: Vec<u8>,
}

impl View for Slice {
    type V = Seq<u8>;

    closed spec fn view(&self) -> Seq<u8> {
        self.data@
    }
}

impl Slice {
    /// The empty byte string.
    pub fn new_empty() -> (r: Self)
        ensures
            r@ == Seq::<u8>::empty(),
    {
        Self { data: Vec::new() }
    }

    /// The first `size` bytes of `data`.
    pub fn new(data: &[u8], size: usize) -> (r: Self)
        requires
            size <= data@.len(),
        ensures
            r@ == data@.subrange(0, size as int),
    {
        Self { data: copy_bytes(&data[0..size]) }
    }

    /// The bytes.
    pub fn data(&self) -> (r: &[u8])
        ensures
            r@ == self@,
    {
        self.data.as_slice()
    }

    /// The bytes.
    pub fn raw_data(&self) -> (r: &[u8])
        ensures
            r@ == self@,
    {
        self.data.as_slice()
    }

    /// The number of bytes.
    pub fn size(&self) -> (r: usize)
        ensures
            r == self@.len(),
    {
        self.data.len()
    }

    /// The byte at `index`.
    pub fn at(&self, index: usize) -> (r: u8)
        requires
            index < self@.len(),
        ensures
            r == self@[index as int],
    {
        self.data[index]
    }

    /// Empties the byte string.
    pub fn clear(&mut self)
        ensures
            final(self)@ == Seq::<u8>::empty(),
    {
        self.data.clear();
    }

    /// Drops the first `n` bytes.
    pub fn remove_prefix(&mut self, n: usize)
        requires
            n < old(self)@.len(),
        ensures
            final(self)@ == old(self)@.skip(n as int),
    {
        let rest = copy_bytes(&self.data[n..self.data.len()]);
        self.data = rest;
    }

    /// The bytes as text.
    pub fn to_string(&self) -> (r: String)
        ensures
            r@ == lossy_text(self@),
    {
        crate::db::ldbslice::Slice::from_bytes(self.data.as_slice()).to_string()
    }

    /// Whether the byte string begins with `other`.
    pub fn strat_with(&self, other: &Slice) -> (r: bool)
        ensures
            r == (other@.len() <= self@.len() && self@.subrange(0, other@.len() as int) == other@),
    {
        let this = crate::db::ldbslice::Slice::from_bytes(self.data.as_slice());
        let that = crate::db::ldbslice::Slice::from_bytes(other.data.as_slice());
        this.starts_with(&that)
    }

    /// Three-way bytewise comparison; a proper prefix sorts first.
    pub fn compare(&self, other: &Slice) -> (r: Ordering)
        ensures
            (r == Ordering::Less) <==> !bytes_le(other@, self@),
            (r == Ordering::Greater) <==> !bytes_le(self@, other@),
            (r == Ordering::Equal) <==> self@ == other@,
    {
        let o = bytewise_order(self.data.as_slice(), other.data.as_slice());
        if o < 0 {
            Ordering::Less
        } else if o > 0 {
            Ordering::Greater
        } else {
            Ordering::Equal
        }
    }
}

impl From<String> for Slice {
    fn from(s: String) -> (r: Self)
        ensures
            r@ == vstd::utf8::encode_utf8(s@),
    {
        Slice { data: copy_bytes(s.as_str().as_bytes()) }
    }
}

impl vstd::std_specs::convert::FromSpecImpl<String> for Slice {
    open spec fn obeys_from_spec() -> bool {
        false
    }

    open spec fn from_spec(s: String) -> Self {
        arbitrary()
    }
}

impl<'a> From<&'a str> for Slice {
    fn from(s: &'a str) -> (r: Self)
        ensures
            r@ == vstd::utf8::encode_utf8(s@),
    {
        Slice { data: copy_bytes(s.as_bytes()) }
    }
}

impl<'a> vstd::std_specs::convert::FromSpecImpl<&'a str> for Slice {
    open spec fn obeys_from_spec() -> bool {
        false
    }

    open spec fn from_spec(s: &'a str) -> Self {
        arbitrary()
    }
}

impl PartialEq for Slice {
    fn eq(&self, other: &Slice) -> (r: bool) {
        bytewise_order(self.data.as_slice(), other.data.as_slice()) == 0
    }
}

impl vstd::std_specs::cmp::PartialEqSpecImpl for Slice {
    open spec fn obeys_eq_spec() -> bool {
        true
    }

    open spec fn eq_spec(&self, other: &Slice) -> bool {
        self@ == other@
    }
}

impl Eq for Slice {

}

} // verus!
