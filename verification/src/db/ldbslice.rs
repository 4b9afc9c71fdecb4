//! An owned byte string.

use crate::util::coding::copy_bytes;
use crate::util::comparator::shared_prefix_len;
use vstd::prelude::*;

verus! {

/// The text that `String::from_utf8_lossy` reads from bytes.
pub uninterp spec fn lossy_text(bytes: Seq<u8>) -> Seq<char>;

/// Calls `String::from_utf8_lossy` of std, which reads bytes as UTF-8 and
/// puts the replacement character in place of what is not.
#[verifier::external_body]
fn text_of(bytes: &[u8]) -> (r: String)
    ensures
        r@ == lossy_text(bytes@),
{
    String::from_utf8_lossy(bytes).into_owned()
}

/// An owned byte string.
#[derive(Debug, PartialEq, Eq, PartialOrd, Ord)]
pub struct Slice {
    data: Vec<u8>,
}

impl View for Slice {
    type V = Seq<u8>;

    closed spec fn view(&self) -> Seq<u8> {
        self.data@
    }
}

impl From<&str> for Slice {
    fn from(data: &str) -> (r: Self)
        ensures
            r@ == vstd::utf8::encode_utf8(data@),
    {
        Slice::from_bytes(data.as_bytes())
    }
}

impl vstd::std_specs::convert::FromSpecImpl<&str> for Slice {
    open spec fn obeys_from_spec() -> bool {
        false
    }

    open spec fn from_spec(data: &str) -> Self {
        arbitrary()
    }
}

impl From<String> for Slice {
    fn from(data: String) -> (r: Self)
        ensures
            r@ == vstd::utf8::encode_utf8(data@),
    {
        Slice::from_bytes(data.as_str().as_bytes())
    }
}

impl vstd::std_specs::convert::FromSpecImpl<String> for Slice {
    open spec fn obeys_from_spec() -> bool {
        false
    }

    open spec fn from_spec(data: String) -> Self {
        arbitrary()
    }
}

impl From<Vec<u8>> for Slice {
    fn from(data: Vec<u8>) -> (r: Self)
        ensures
            r@ == data@,
    {
        Self { data }
    }
}

impl vstd::std_specs::convert::FromSpecImpl<Vec<u8>> for Slice {
    open spec fn obeys_from_spec() -> bool {
        false
    }

    open spec fn from_spec(data: Vec<u8>) -> Self {
        arbitrary()
    }
}

impl Slice {
    /// The empty byte string.
    pub fn New() -> (r: Slice)
        ensures
            r@ == Seq::<u8>::empty(),
    {
        Slice { data: Vec::new() }
    }

    /// A copy of `bytes`.
    pub fn from_bytes(bytes: &[u8]) -> (r: Slice)
        ensures
            r@ == bytes@,
    {
        Slice { data: copy_bytes(bytes) }
    }

    /// The bytes.
    pub fn data(&self) -> (r: &[u8])
        ensures
            r@ == self@,
    {
        self.data.as_slice()
    }

    /// The byte at `index`.
    pub fn at(&self, index: usize) -> (r: u8)
        requires
            index < self@.len(),
        ensures
            r == self@[index as int],
    {
        self.data[index]
    }

    /// Puts `value` at `index`.
    pub fn set(&mut self, index: usize, value: u8)
        requires
            index < old(self)@.len(),
        ensures
            final(self)@ == old(self)@.update(index as int, value),
    {
        self.data[index] = value;
    }

    /// The number of bytes.
    pub fn size(&self) -> (r: usize)
        ensures
            r == self@.len(),
    {
        self.data.len()
    }

    /// Whether the byte string begins with `other`.
    pub fn starts_with(&self, other: &Slice) -> (r: bool)
        ensures
            r == (other@.len() <= self@.len() && self@.subrange(0, other@.len() as int) == other@),
    {
        let d = shared_prefix_len(self.data.as_slice(), other.data.as_slice());
        proof {
            crate::util::comparator::lemma_common_prefix(self@, other@);
            if other@.len() <= self@.len() && self@.subrange(0, other@.len() as int) == other@ {
                assert forall|j: int| 0 <= j < other@.len() implies self@[j] == other@[j] by {
                    assert(self@.subrange(0, other@.len() as int)[j] == self@[j]);
                }
                crate::util::comparator::lemma_common_prefix_unique(
                    self@,
                    other@,
                    other@.len() as int,
                );
            }
            if d == other@.len() {
                assert(other@.subrange(0, d as int) =~= other@);
            }
        }
        d == other.data.len()
    }

    /// Empties the byte string.
    pub fn clear(&mut self)
        ensures
            final(self)@ == Seq::<u8>::empty(),
    {
        self.data.clear()
    }

    /// The byte string without its first `n` bytes.
    pub fn remove_prefix(self, n: usize) -> (r: Self)
        requires
            n <= self@.len(),
        ensures
            r@ == self@.skip(n as int),
    {
        let rest = copy_bytes(&self.data[n..self.data.len()]);
        Slice { data: rest }
    }

    /// Whether there are no bytes.
    pub fn is_empty(&self) -> (r: bool)
        ensures
            r == (self@.len() == 0),
    {
        self.data.is_empty()
    }

    /// The bytes as text.
    pub fn to_string(&self) -> (r: String)
        ensures
            r@ == lossy_text(self@),
    {
        text_of(self.data.as_slice())
    }
}

} // verus!
