//! Header codec: every item starts with one byte holding a 3-bit major type
//! and a 5-bit additional-info selector, optionally followed by a 1/2/4/8
//! byte big-endian extension holding the item's numeric argument (a value,
//! a length, or a tag number).
#![allow(unused_imports)]
use vstd::prelude::*;

use crate::cbor::Info;
use crate::Error;

verus! {

/// The initial byte: `(major_type << 5) | additional_info`.
pub open spec fn hdr_byte(major: u8, ai: u8) -> u8 {
    ((major as int) * 32 + (ai as int)) as u8
}

/// Big-endian 2-byte image of `n` (low 16 bits).
pub open spec fn be16(n: u64) -> Seq<u8> {
    seq![((n >> 8) & 0xFF) as u8, (n & 0xFF) as u8]
}

/// Big-endian 4-byte image of `n` (low 32 bits).
pub open spec fn be32(n: u64) -> Seq<u8> {
    seq![
        ((n >> 24) & 0xFF) as u8,
        ((n >> 16) & 0xFF) as u8,
        ((n >> 8) & 0xFF) as u8,
        (n & 0xFF) as u8,
    ]
}

/// Big-endian 8-byte image of `n`.
pub open spec fn be64(n: u64) -> Seq<u8> {
    seq![
        ((n >> 56) & 0xFF) as u8,
        ((n >> 48) & 0xFF) as u8,
        ((n >> 40) & 0xFF) as u8,
        ((n >> 32) & 0xFF) as u8,
        ((n >> 24) & 0xFF) as u8,
        ((n >> 16) & 0xFF) as u8,
        ((n >> 8) & 0xFF) as u8,
        (n & 0xFF) as u8,
    ]
}

/// The canonical additional-info selector for the numeric argument `n`: the
/// narrowest width that represents `n` exactly.
pub open spec fn info_of(n: u64) -> Info {
    if n < 24 {
        Info::Tiny(n as u8)
    } else if n <= 0xFF {
        Info::U8
    } else if n <= 0xFFFF {
        Info::U16
    } else if n <= 0xFFFF_FFFF {
        Info::U32
    } else {
        Info::U64
    }
}

/// Length in bytes of the canonical header for argument `n`.
pub open spec fn hdr_len(n: u64) -> int {
    if n < 24 {
        1
    } else if n <= 0xFF {
        2
    } else if n <= 0xFFFF {
        3
    } else if n <= 0xFFFF_FFFF {
        5
    } else {
        9
    }
}

/// The canonical (minimal-width) header encoding of major type `major` with
/// numeric argument `n`: additional-info 0-23 holds the argument inline, and
/// codes 24/25/26/27 select the smallest of 1/2/4/8 trailing big-endian
/// bytes that hold it exactly.
pub open spec fn enc_hdr(major: u8, n: u64) -> Seq<u8> {
    if n < 24 {
        seq![hdr_byte(major, n as u8)]
    } else if n <= 0xFF {
        seq![hdr_byte(major, 24), n as u8]
    } else if n <= 0xFFFF {
        seq![hdr_byte(major, 25)] + be16(n)
    } else if n <= 0xFFFF_FFFF {
        seq![hdr_byte(major, 26)] + be32(n)
    } else {
        seq![hdr_byte(major, 27)] + be64(n)
    }
}

/// Reading a header from the front of `s`: the major type, the decoded
/// additional-info selector, the numeric argument (0 for the indefinite
/// marker), and the bytes consumed.  `None` when `s` is empty, when the
/// advertised extension overruns `s`, or when the selector is one of the
/// reserved codes 28-30.
pub open spec fn rd_hdr(s: Seq<u8>) -> Option<(u8, Info, u64, int)> {
    if s.len() == 0 {
        None
    } else {
        let major = s[0] / 32;
        let ai = s[0] % 32;
        if ai < 24 {
            Some((major, Info::Tiny(ai), ai as u64, 1))
        } else if ai == 24 {
            if s.len() >= 2 {
                Some((major, Info::U8, s[1] as u64, 2))
            } else {
                None
            }
        } else if ai == 25 {
            if s.len() >= 3 {
                Some((major, Info::U16, ((s[1] as u64) << 8) | (s[2] as u64), 3))
            } else {
                None
            }
        } else if ai == 26 {
            if s.len() >= 5 {
                Some(
                    (
                        major,
                        Info::U32,
                        ((s[1] as u64) << 24) | ((s[2] as u64) << 16) | ((s[3] as u64) << 8) | (
                        s[4] as u64),
                        5,
                    ),
                )
            } else {
                None
            }
        } else if ai == 27 {
            if s.len() >= 9 {
                Some(
                    (
                        major,
                        Info::U64,
                        ((s[1] as u64) << 56) | ((s[2] as u64) << 48) | ((s[3] as u64) << 40) | ((
                        s[4] as u64) << 32) | ((s[5] as u64) << 24) | ((s[6] as u64) << 16) | ((
                        s[7] as u64) << 8) | (s[8] as u64),
                        9,
                    ),
                )
            } else {
                None
            }
        } else if ai == 31 {
            Some((major, Info::Indefinite, 0, 1))
        } else {
            None
        }
    }
}

/// Reading back a canonical header yields exactly what was written,
/// whatever bytes follow it.
pub proof fn lemma_hdr_inverse(major: u8, n: u64, rest: Seq<u8>)
    requires
        major < 8,
    ensures
        enc_hdr(major, n).len() == hdr_len(n),
        rd_hdr(enc_hdr(major, n) + rest) == Some((major, info_of(n), n, hdr_len(n))),
{
    let s = enc_hdr(major, n) + rest;
    if n < 24 {
        let ai = n as u8;
        assert(s[0] == hdr_byte(major, ai));
        assert(hdr_byte(major, ai) / 32 == major && hdr_byte(major, ai) % 32 == ai) by (bit_vector)
            requires
                major < 8,
                ai < 24,
        ;
    } else {
        let ai: u8 = if n <= 0xFF {
            24
        } else if n <= 0xFFFF {
            25
        } else if n <= 0xFFFF_FFFF {
            26
        } else {
            27
        };
        assert(s[0] == hdr_byte(major, ai));
        assert(hdr_byte(major, ai) / 32 == major && hdr_byte(major, ai) % 32 == ai) by (bit_vector)
            requires
                major < 8,
                24 <= ai <= 27,
        ;
        if n <= 0xFF {
            assert(s[1] == n as u8);
            assert((n as u8) as u64 == n) by (bit_vector)
                requires
                    24 <= n <= 0xFF,
            ;
        } else if n <= 0xFFFF {
            assert(s[1] == ((n >> 8) & 0xFF) as u8 && s[2] == (n & 0xFF) as u8);
            assert(((((n >> 8) & 0xFF) as u8) as u64) << 8 | (((n & 0xFF) as u8) as u64) == n)
                by (bit_vector)
                requires
                    n <= 0xFFFF,
            ;
        } else if n <= 0xFFFF_FFFF {
            assert(s[1] == ((n >> 24) & 0xFF) as u8 && s[2] == ((n >> 16) & 0xFF) as u8 && s[3] == ((
            n >> 8) & 0xFF) as u8 && s[4] == (n & 0xFF) as u8);
            assert(((((n >> 24) & 0xFF) as u8) as u64) << 24 | ((((n >> 16) & 0xFF) as u8) as u64)
                << 16 | ((((n >> 8) & 0xFF) as u8) as u64) << 8 | (((n & 0xFF) as u8) as u64) == n)
                by (bit_vector)
                requires
                    n <= 0xFFFF_FFFF,
            ;
        } else {
            assert(s[1] == ((n >> 56) & 0xFF) as u8 && s[2] == ((n >> 48) & 0xFF) as u8 && s[3] == ((
            n >> 40) & 0xFF) as u8 && s[4] == ((n >> 32) & 0xFF) as u8 && s[5] == ((n >> 24) & 0xFF)
                as u8 && s[6] == ((n >> 16) & 0xFF) as u8 && s[7] == ((n >> 8) & 0xFF) as u8 && s[8]
                == (n & 0xFF) as u8);
            assert(((((n >> 56) & 0xFF) as u8) as u64) << 56 | ((((n >> 48) & 0xFF) as u8) as u64)
                << 48 | ((((n >> 40) & 0xFF) as u8) as u64) << 40 | ((((n >> 32) & 0xFF) as u8)
                as u64) << 32 | ((((n >> 24) & 0xFF) as u8) as u64) << 24 | ((((n >> 16) & 0xFF)
                as u8) as u64) << 16 | ((((n >> 8) & 0xFF) as u8) as u64) << 8 | (((n & 0xFF) as u8)
                as u64) == n) by (bit_vector);
        }
    }
}

/// Appends the canonical header for major type `major` with argument `n`.
pub fn write_header(buf: &mut Vec<u8>, major: u8, n: u64)
    requires
        major < 8,
    ensures
        final(buf)@ == old(buf)@ + enc_hdr(major, n),
{
    if n < 24 {
        buf.push(major * 32 + n as u8);
    } else if n <= 0xFF {
        buf.push(major * 32 + 24);
        buf.push(n as u8);
    } else if n <= 0xFFFF {
        buf.push(major * 32 + 25);
        buf.push((n >> 8) as u8);
        buf.push(n as u8);
        proof {
            assert((n >> 8) as u8 == ((n >> 8) & 0xFF) as u8 && n as u8 == (n & 0xFF) as u8)
                by (bit_vector);
        }
    } else if n <= 0xFFFF_FFFF {
        buf.push(major * 32 + 26);
        buf.push((n >> 24) as u8);
        buf.push((n >> 16) as u8);
        buf.push((n >> 8) as u8);
        buf.push(n as u8);
        proof {
            assert((n >> 24) as u8 == ((n >> 24) & 0xFF) as u8 && (n >> 16) as u8 == ((n >> 16)
                & 0xFF) as u8 && (n >> 8) as u8 == ((n >> 8) & 0xFF) as u8 && n as u8 == (n & 0xFF)
                as u8) by (bit_vector);
        }
    } else {
        buf.push(major * 32 + 27);
        buf.push((n >> 56) as u8);
        buf.push((n >> 48) as u8);
        buf.push((n >> 40) as u8);
        buf.push((n >> 32) as u8);
        buf.push((n >> 24) as u8);
        buf.push((n >> 16) as u8);
        buf.push((n >> 8) as u8);
        buf.push(n as u8);
        proof {
            assert((n >> 56) as u8 == ((n >> 56) & 0xFF) as u8 && (n >> 48) as u8 == ((n >> 48)
                & 0xFF) as u8 && (n >> 40) as u8 == ((n >> 40) & 0xFF) as u8 && (n >> 32) as u8 == ((
            n >> 32) & 0xFF) as u8 && (n >> 24) as u8 == ((n >> 24) & 0xFF) as u8 && (n >> 16) as u8
                == ((n >> 16) & 0xFF) as u8 && (n >> 8) as u8 == ((n >> 8) & 0xFF) as u8 && n as u8
                == (n & 0xFF) as u8) by (bit_vector);
        }
    }
    proof {
        assert(buf@ =~= old(buf)@ + enc_hdr(major, n));
    }
}

/// Reads the header at `buf[from..]`: returns the major type, the decoded
/// additional-info selector, the numeric argument and the count of bytes
/// consumed.  Inspects only the minimum bytes needed.  Fails on an empty
/// input, a reserved selector (28-30), or an extension that overruns the
/// input.
pub fn read_header(buf: &[u8], from: usize) -> (r: Result<(u8, Info, u64, usize), Error>)
    requires
        from <= buf.len(),
    ensures
        match r {
            Ok((major, info, n, c)) => rd_hdr(buf@.skip(from as int)) == Some(
                (major, info, n, c as int),
            ) && from + c <= buf.len() && 1 <= c,
            Err(_) => rd_hdr(buf@.skip(from as int)) is None,
        },
{
    let ghost s = buf@.skip(from as int);
    if buf.len() == from {
        return Err(Error::FailCbor(dec_prefix(), msg_truncated()));
    }
    let b0 = buf[from];
    let major = b0 / 32;
    let ai = b0 % 32;
    assert(s[0] == b0 && s.len() == buf.len() - from);
    if ai < 24 {
        Ok((major, Info::Tiny(ai), ai as u64, 1))
    } else if ai == 24 {
        if buf.len() - from >= 2 {
            Ok((major, Info::U8, buf[from + 1] as u64, 2))
        } else {
            Err(Error::FailCbor(dec_prefix(), msg_truncated()))
        }
    } else if ai == 25 {
        if buf.len() - from >= 3 {
            let n = ((buf[from + 1] as u64) << 8) | (buf[from + 2] as u64);
            Ok((major, Info::U16, n, 3))
        } else {
            Err(Error::FailCbor(dec_prefix(), msg_truncated()))
        }
    } else if ai == 26 {
        if buf.len() - from >= 5 {
            let n = ((buf[from + 1] as u64) << 24) | ((buf[from + 2] as u64) << 16) | ((buf[from
                + 3] as u64) << 8) | (buf[from + 4] as u64);
            Ok((major, Info::U32, n, 5))
        } else {
            Err(Error::FailCbor(dec_prefix(), msg_truncated()))
        }
    } else if ai == 27 {
        if buf.len() - from >= 9 {
            let n = ((buf[from + 1] as u64) << 56) | ((buf[from + 2] as u64) << 48) | ((buf[from
                + 3] as u64) << 40) | ((buf[from + 4] as u64) << 32) | ((buf[from + 5] as u64)
                << 24) | ((buf[from + 6] as u64) << 16) | ((buf[from + 7] as u64) << 8) | (buf[from
                + 8] as u64);
            Ok((major, Info::U64, n, 9))
        } else {
            Err(Error::FailCbor(dec_prefix(), msg_truncated()))
        }
    } else if ai == 31 {
        Ok((major, Info::Indefinite, 0, 1))
    } else {
        Err(Error::FailCbor(dec_prefix(), msg_reserved()))
    }
}

/// Location prefix for decode-side errors.
pub fn dec_prefix() -> String {
    String::from_str("cbor::decode")
}

fn msg_truncated() -> String {
    String::from_str("truncated input")
}

fn msg_reserved() -> String {
    String::from_str("reserved additional-info code")
}

} // verus!
