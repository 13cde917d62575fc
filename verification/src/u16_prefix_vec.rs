//! The wide-prefix sequence container: a two-byte little-endian count,
//! at most 65 535 elements.

use vstd::prelude::*;

use crate::codec::decode_seq;
use crate::codec::encode_seq;
use crate::codec::parse_seq;
use crate::codec::seq_wire;
use crate::element::Element;
use crate::error::Error;

verus! {

/// An owned sequence carried on the wire as a two-byte little-endian
/// element count followed by the elements' own encodings, back to back.
pub struct U16PrefixVec<T>(pub Vec<T>);

impl<T: Element> U16PrefixVec<T> {
    /// Encode the sequence: the two count bytes, then every element's
    /// wire bytes. A sequence of more than 65 535 elements does not fit
    /// the prefix and fails before any byte is produced.
    pub fn encode(&self) -> (r: Result<Vec<u8>, Error>)
        ensures
            self.0@.len() <= 65535 ==> (r matches Ok(b) && b@ == seq_wire(2, self.0@)),
            self.0@.len() > 65535 ==> r == Err::<Vec<u8>, Error>(Error::CountOverflow),
    {
        encode_seq(2, &self.0)
    }

    /// Decode one prefixed sequence from the front of `bytes`,
    /// returning it together with the number of bytes consumed.
    pub fn decode(bytes: &[u8]) -> (r: Result<(Self, usize), Error>)
        ensures
            ({
                let p = parse_seq::<T>(2, bytes@);
                match r {
                    Ok(pair) => {
                        &&& p == Ok::<Seq<T>, Error>(pair.0.0@)
                        &&& pair.1 == 2 + pair.0.0@.len() * T::wire_width()
                        &&& pair.1 <= bytes@.len()
                    },
                    Err(e) => p == Err::<Seq<T>, Error>(e),
                }
            }),
    {
        match decode_seq::<T>(2, bytes) {
            Ok(pair) => Ok((U16PrefixVec(pair.0), pair.1)),
            Err(e) => Err(e),
        }
    }
}

impl<T> From<Vec<T>> for U16PrefixVec<T> {
    fn from(v: Vec<T>) -> (r: U16PrefixVec<T>) {
        U16PrefixVec(v)
    }
}

impl<T> vstd::std_specs::convert::FromSpecImpl<Vec<T>> for U16PrefixVec<T> {
    open spec fn obeys_from_spec() -> bool {
        true
    }

    open spec fn from_spec(v: Vec<T>) -> U16PrefixVec<T> {
        U16PrefixVec(v)
    }
}

} // verus!
