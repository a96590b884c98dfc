//! Conversion protocol built-ins: the native types that map directly onto
//! the wire model.  Booleans and the integer width family convert without
//! loss in one direction and fail on overflow in the other; text converts
//! through its UTF-8 bytes.
#![allow(unused_imports)]
use vstd::prelude::*;
use vstd::utf8::decode_utf8;
use vstd::utf8::encode_utf8;
use vstd::utf8::encode_utf8_decode_utf8;
use vstd::utf8::encode_utf8_valid_utf8;
use vstd::utf8::valid_utf8;

use crate::cbor::{Cbor, CborS, SimpleValue};
use crate::{Error, FromCbor, IntoCbor};

verus! {

fn err_convert(msg: &str) -> (r: Error)
    ensures
        r is FailConvert,
{
    Error::FailConvert(String::from_str("cbor::convert"), String::from_str(msg))
}

impl IntoCbor for bool {
    open spec fn to_cbor_spec(v: bool) -> Option<CborS> {
        Some(
            CborS::Simple(
                if v {
                    SimpleValue::True
                } else {
                    SimpleValue::False
                },
            ),
        )
    }

    fn into_cbor(self) -> (r: Result<Cbor, Error>) {
        if self {
            Ok(Cbor::Major7(SimpleValue::True))
        } else {
            Ok(Cbor::Major7(SimpleValue::False))
        }
    }
}

impl FromCbor for bool {
    open spec fn from_cbor_spec(v: CborS) -> Option<bool> {
        match v {
            CborS::Simple(sv) => match sv {
                SimpleValue::True => Some(true),
                SimpleValue::False => Some(false),
                _ => None,
            },
            _ => None,
        }
    }

    fn from_cbor(val: Cbor) -> (r: Result<bool, Error>) {
        match val {
            Cbor::Major7(SimpleValue::True) => Ok(true),
            Cbor::Major7(SimpleValue::False) => Ok(false),
            _ => Err(err_convert("expected a boolean")),
        }
    }
}

impl IntoCbor for u64 {
    open spec fn to_cbor_spec(v: u64) -> Option<CborS> {
        Some(CborS::Uint(v))
    }

    fn into_cbor(self) -> (r: Result<Cbor, Error>) {
        Ok(Cbor::Major0(self))
    }
}

impl FromCbor for u64 {
    open spec fn from_cbor_spec(v: CborS) -> Option<u64> {
        match v {
            CborS::Uint(n) => Some(n),
            _ => None,
        }
    }

    fn from_cbor(val: Cbor) -> (r: Result<u64, Error>) {
        match val {
            Cbor::Major0(n) => Ok(n),
            _ => Err(err_convert("expected an unsigned integer")),
        }
    }
}

impl IntoCbor for u32 {
    open spec fn to_cbor_spec(v: u32) -> Option<CborS> {
        Some(CborS::Uint(v as u64))
    }

    fn into_cbor(self) -> (r: Result<Cbor, Error>) {
        Ok(Cbor::Major0(self as u64))
    }
}

impl FromCbor for u32 {
    open spec fn from_cbor_spec(v: CborS) -> Option<u32> {
        match v {
            CborS::Uint(n) => if n <= u32::MAX {
                Some(n as u32)
            } else {
                None
            },
            _ => None,
        }
    }

    fn from_cbor(val: Cbor) -> (r: Result<u32, Error>) {
        match val {
            Cbor::Major0(n) => {
                if n <= u32::MAX as u64 {
                    Ok(n as u32)
                } else {
                    Err(err_convert("unsigned integer overflows 32 bits"))
                }
            },
            _ => Err(err_convert("expected an unsigned integer")),
        }
    }
}

impl IntoCbor for i64 {
    open spec fn to_cbor_spec(v: i64) -> Option<CborS> {
        if v >= 0 {
            Some(CborS::Uint(v as u64))
        } else {
            Some(CborS::Nint((-1 - v) as u64))
        }
    }

    fn into_cbor(self) -> (r: Result<Cbor, Error>) {
        if self >= 0 {
            Ok(Cbor::Major0(self as u64))
        } else {
            Ok(Cbor::Major1((-1 - self) as u64))
        }
    }
}

impl FromCbor for i64 {
    open spec fn from_cbor_spec(v: CborS) -> Option<i64> {
        match v {
            CborS::Uint(n) => if n <= i64::MAX {
                Some(n as i64)
            } else {
                None
            },
            CborS::Nint(n) => if n <= i64::MAX {
                Some((-1 - n) as i64)
            } else {
                None
            },
            _ => None,
        }
    }

    fn from_cbor(val: Cbor) -> (r: Result<i64, Error>) {
        match val {
            Cbor::Major0(n) => {
                if n <= i64::MAX as u64 {
                    Ok(n as i64)
                } else {
                    Err(err_convert("integer overflows 64 signed bits"))
                }
            },
            Cbor::Major1(n) => {
                if n <= i64::MAX as u64 {
                    Ok(-1 - (n as i64))
                } else {
                    Err(err_convert("integer overflows 64 signed bits"))
                }
            },
            _ => Err(err_convert("expected an integer")),
        }
    }
}

/// Relies on String::into_bytes: it returns exactly the string's UTF-8
/// byte representation.
#[verifier::external_body]
fn text_to_bytes(s: String) -> (r: Vec<u8>)
    ensures
        r@ == encode_utf8(s@),
{
    s.into_bytes()
}

/// Relies on String::from_utf8: it succeeds exactly on valid UTF-8 and
/// takes ownership of the bytes unchanged.
#[verifier::external_body]
fn bytes_to_text(b: Vec<u8>) -> (r: Option<String>)
    ensures
        (r is Some) == valid_utf8(b@),
        r matches Some(s) ==> encode_utf8(s@) == b@,
{
    match String::from_utf8(b) {
        Ok(s) => Some(s),
        Err(_) => None,
    }
}

impl IntoCbor for String {
    open spec fn to_cbor_spec(v: Seq<char>) -> Option<CborS> {
        Some(CborS::Text(encode_utf8(v)))
    }

    fn into_cbor(self) -> (r: Result<Cbor, Error>) {
        Ok(Cbor::Major3(text_to_bytes(self)))
    }
}

impl FromCbor for String {
    open spec fn from_cbor_spec(v: CborS) -> Option<Seq<char>> {
        match v {
            CborS::Text(b) => if valid_utf8(b) {
                Some(decode_utf8(b))
            } else {
                None
            },
            _ => None,
        }
    }

    fn from_cbor(val: Cbor) -> (r: Result<String, Error>) {
        match val {
            Cbor::Major3(b) => {
                let ghost bs = b@;
                match bytes_to_text(b) {
                    Some(s) => {
                        proof {
                            encode_utf8_decode_utf8(s@);
                        }
                        Ok(s)
                    },
                    None => Err(err_convert("text payload is not valid UTF-8")),
                }
            },
            _ => Err(err_convert("expected a text string")),
        }
    }
}

} // verus!
