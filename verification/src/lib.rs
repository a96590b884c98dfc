//! A self-describing, type-tagged binary serialization codec in the CBOR
//! style: major types, variable-width length prefixes, nested containers and
//! tagged extension values.
//!
//! The crate converts between an in-memory value tree ([`Cbor`]) and its
//! canonical byte encoding: integers take the narrowest width that represents
//! them exactly, and map entries are emitted in the total key order given by
//! [`cbor::key_lt`].  Decoding is a recursive-descent parse that enforces a
//! fixed nesting limit, [`RECURSION_LIMIT`].  The [`IntoCbor`] / [`FromCbor`]
//! pair maps native values onto the wire model, and user-defined record or
//! enumeration types follow the identifier-tagged array convention read back
//! by [`get_cborize_id`].
#![allow(unused_imports)]
use vstd::prelude::*;

pub mod cbor;
pub mod hdr;
pub mod enc;
pub mod dec;
pub mod laws;
pub mod types;

pub use cbor::Cbor;
pub use cbor::CborS;
pub use cbor::Info;
pub use cbor::Key;
pub use cbor::KeyS;
pub use cbor::SimpleValue;
pub use cbor::Tag;
pub use cbor::TagS;
pub use cbor::RECURSION_LIMIT;

verus! {

/// Error values returned by this crate's API.  Each variant carries a
/// location prefix naming the component that failed, and a human-readable
/// message.
#[derive(Debug)]
pub enum Error {
    /// An internal contract was broken; never expected to be reachable.
    Fatal(String, String),
    /// A native value and the wire model could not be mapped onto each other.
    FailConvert(String, String),
    /// A byte-stream transport error surfaced by a collaborator.
    IOError(String, String),
    /// The input bytes are not a well-formed encoding.
    FailCbor(String, String),
}

/// Gets the unique identifier of a value encoded under the identifier-tagged
/// container convention: a user-defined record or enumeration serializes as
/// an array whose first element is its stable identifier, and this helper
/// hands that first element back without decoding it further.  For any
/// non-array value, or an empty array, there is no identifier.
pub fn get_cborize_id(val: &Cbor) -> (r: Option<Cbor>)
    ensures
        match val@ {
            CborS::Array(items) => if items.len() > 0 {
                r matches Some(c) && c@ == items[0]
            } else {
                r is None
            },
            _ => r is None,
        },
{
    match val {
        Cbor::Major4(items) => {
            if items.len() > 0 {
                proof {
                    assert(val@ == CborS::Array(cbor::view_list(items@)));
                    assert(cbor::view_list(items@)[0] == cbor::view_cbor(items@[0]));
                }
                Some(items[0].dup())
            } else {
                None
            }
        },
        _ => None,
    }
}

/// Conversion capability from a native value into the wire model.  The
/// associated spec function pins, over the native value's deep view, which
/// wire value the conversion must produce, or that it must fail.
pub trait IntoCbor: Sized + DeepView {
    /// The wire value this native value stands for, when representable.
    spec fn to_cbor_spec(v: Self::V) -> Option<CborS>;

    /// Converts the owned native value into its wire model form.
    fn into_cbor(self) -> (r: Result<Cbor, Error>)
        ensures
            match r {
                Ok(c) => Self::to_cbor_spec(self.deep_view()) == Some(c@),
                Err(_) => Self::to_cbor_spec(self.deep_view()) is None,
            },
    ;
}

/// Conversion capability from the wire model back into a native value,
/// failing on type mismatch, numeric overflow or structural mismatch.
pub trait FromCbor: Sized + DeepView {
    /// The native value (by deep view) a wire value stands for, when one
    /// does.
    spec fn from_cbor_spec(v: CborS) -> Option<Self::V>;

    /// Converts an owned wire value into the native value.
    fn from_cbor(val: Cbor) -> (r: Result<Self, Error>)
        ensures
            match r {
                Ok(x) => Self::from_cbor_spec(val@) == Some(x.deep_view()),
                Err(_) => Self::from_cbor_spec(val@) is None,
            },
    ;
}

} // verus!
