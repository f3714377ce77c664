use vstd::prelude::*;
use vstd::utf8::encode_utf8;

verus! {

/// Elements whose encoded form has a byte size.
pub trait SizeInBytes {
    /// The number of bytes this element occupies once encoded.
    spec fn spec_bytes_size(&self) -> nat;

    fn bytes_size(&self) -> (r: usize)
        ensures
            r as nat == self.spec_bytes_size(),
    ;
}

/// Relies on `bytes::Bytes::from(String)`, which keeps the string's UTF-8
/// bytes, and `bytes::Bytes::len`, which counts them.
#[verifier::external_body]
fn encoded_len(s: String) -> (r: usize)
    ensures
        r as nat == encode_utf8(s@).len(),
{
    let b: bytes::Bytes = s.into();
    b.len()
}

impl SizeInBytes for String {
    open spec fn spec_bytes_size(&self) -> nat {
        encode_utf8(self@).len()
    }

    fn bytes_size(&self) -> (r: usize) {
        encoded_len(self.clone())
    }
}

impl<'a> SizeInBytes for &'a str {
    open spec fn spec_bytes_size(&self) -> nat {
        encode_utf8((*self)@).len()
    }

    fn bytes_size(&self) -> (r: usize) {
        encoded_len((*self).to_owned())
    }
}

/// The combined byte size of all elements of `s`.
pub open spec fn total_size<T: SizeInBytes>(s: Seq<T>) -> nat
    decreases s.len(),
{
    if s.len() == 0 {
        0
    } else {
        total_size(s.drop_last()) + s.last().spec_bytes_size()
    }
}

} // verus!
