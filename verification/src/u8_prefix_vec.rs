//! The narrow-prefix sequence container: a one-byte count, at most 255
//! elements.

use vstd::prelude::*;

use crate::codec::decode_seq;
use crate::codec::encode_seq;
use crate::codec::parse_seq;
use crate::codec::seq_wire;
use crate::element::Element;
use crate::error::Error;

verus! {

/// An owned sequence carried on the wire as a one-byte element count
/// followed by the elements' own encodings, back to back.
pub struct U8PrefixVec<T>(pub Vec<T>);

impl<T: Element> U8PrefixVec<T> {
    /// Encode the sequence: the count byte, then every element's wire
    /// bytes. A sequence of more than 255 elements does not fit the
    /// prefix and fails before any byte is produced.
    pub fn encode(&self) -> (r: Result<Vec<u8>, Error>)
        ensures
            self.0@.len() <= 255 ==> (r matches Ok(b) && b@ == seq_wire(1, self.0@)),
            self.0@.len() > 255 ==> r == Err::<Vec<u8>, Error>(Error::CountOverflow),
    {
        encode_seq(1, &self.0)
    }

    /// Decode one prefixed sequence from the front of `bytes`,
    /// returning it together with the number of bytes consumed.
    pub fn decode(bytes: &[u8]) -> (r: Result<(Self, usize), Error>)
        ensures
            ({
                let p = parse_seq::<T>(1, bytes@);
                match r {
                    Ok(pair) => {
                        &&& p == Ok::<Seq<T>, Error>(pair.0.0@)
                        &&& pair.1 == 1 + pair.0.0@.len() * T::wire_width()
                        &&& pair.1 <= bytes@.len()
                    },
                    Err(e) => p == Err::<Seq<T>, Error>(e),
                }
            }),
    {
        match decode_seq::<T>(1, bytes) {
            Ok(pair) => Ok((U8PrefixVec(pair.0), pair.1)),
            Err(e) => Err(e),
        }
    }
}

impl<T> From<Vec<T>> for U8PrefixVec<T> {
    fn from(v: Vec<T>) -> (r: U8PrefixVec<T>) {
        U8PrefixVec(v)
    }
}

impl<T> vstd::std_specs::convert::FromSpecImpl<Vec<T>> for U8PrefixVec<T> {
    open spec fn obeys_from_spec() -> bool {
        true
    }

    open spec fn from_spec(v: Vec<T>) -> U8PrefixVec<T> {
        U8PrefixVec(v)
    }
}

} // verus!
