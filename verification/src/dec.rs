//! Decode engine: a recursive-descent parser from bytes back to a value,
//! enforcing the fixed nesting limit.  One header is read per item; strings
//! may arrive in indefinite-length chunks, arrays and maps either with a
//! stated count or indefinite until a break marker.  Reserved selectors,
//! truncated payloads, invalid text, duplicate map keys, a break outside an
//! indefinite container and exhausted depth are all malformed-encoding
//! errors.
#![allow(unused_imports)]
use vstd::prelude::*;
use vstd::utf8::valid_utf8;

use crate::cbor::{lemma_view_list_push, lemma_view_pairs_push, view_cbor, view_key, view_list, view_pairs};
use crate::cbor::{Cbor, CborS, Info, Key, KeyS, SimpleValue, Tag, TagS, RECURSION_LIMIT};
use crate::hdr::{dec_prefix, rd_hdr, read_header};
use crate::Error;

verus! {

broadcast use vstd::std_specs::vec::group_vec_axioms;

/// The key a decoded value stands for, when it is legal as a map key.
pub open spec fn key_of(v: CborS) -> Option<KeyS> {
    match v {
        CborS::Uint(x) => Some(KeyS::U64(x)),
        CborS::Nint(x) => Some(KeyS::N64(x)),
        CborS::Bytes(b) => Some(KeyS::Bytes(b)),
        CborS::Text(b) => Some(KeyS::Text(b)),
        CborS::Simple(sv) => match sv {
            SimpleValue::True => Some(KeyS::Bool(true)),
            SimpleValue::False => Some(KeyS::Bool(false)),
            _ => None,
        },
        _ => None,
    }
}

/// Two entries somewhere in the run share a key.
pub open spec fn has_dup(ps: Seq<(KeyS, CborS)>) -> bool {
    exists|i: int, j: int| 0 <= i < j < ps.len() && (#[trigger] ps[i]).0 == (#[trigger] ps[j]).0
}

/// Reading one simple value (major type 7) from the front of `s`: named
/// codes and small codes inline, a one-byte code behind selector 24 (legal
/// only from 32 up), float bit patterns behind 25/26/27.  The break marker
/// (selector 31) is not a value, so it is a failure here.
pub open spec fn sd_simple(s: Seq<u8>) -> Option<(CborS, int)> {
    match rd_hdr(s) {
        None => None,
        Some((major, info, n, c)) => match info {
            Info::Tiny(ai) => if ai < 20 {
                Some((CborS::Simple(SimpleValue::Code(ai)), 1))
            } else if ai == 20 {
                Some((CborS::Simple(SimpleValue::False), 1))
            } else if ai == 21 {
                Some((CborS::Simple(SimpleValue::True), 1))
            } else if ai == 22 {
                Some((CborS::Simple(SimpleValue::Null), 1))
            } else {
                Some((CborS::Simple(SimpleValue::Undefined), 1))
            },
            Info::U8 => if n >= 32 {
                Some((CborS::Simple(SimpleValue::Code(n as u8)), 2))
            } else {
                None
            },
            Info::U16 => Some((CborS::Simple(SimpleValue::F16(n as u16)), 3)),
            Info::U32 => Some((CborS::Simple(SimpleValue::F32(n as u32)), 5)),
            Info::U64 => Some((CborS::Simple(SimpleValue::F64(n)), 9)),
            _ => None,
        },
    }
}

/// Reading the chunks of an indefinite-length string of major type
/// `major`: definite same-major chunks up to a break marker, concatenated.
pub open spec fn sd_chunks(s: Seq<u8>, major: u8) -> Option<(Seq<u8>, int)>
    decreases s.len(),
{
    if s.len() == 0 {
        None
    } else if s[0] == 0xFF {
        Some((Seq::empty(), 1))
    } else {
        match rd_hdr(s) {
            None => None,
            Some((mj, info, l, c)) => {
                if mj != major || info is Indefinite || c < 1 {
                    None
                } else if s.len() - c < l {
                    None
                } else {
                    match sd_chunks(s.skip(c + l), major) {
                        None => None,
                        Some((restp, c2)) => Some((s.subrange(c, c + l) + restp, c + l + c2)),
                    }
                }
            },
        }
    }
}

/// Reading one value from the front of `s` with `fuel` descents left:
/// `Some((value, consumed))` or `None` for every malformed input.
pub open spec fn sd(s: Seq<u8>, fuel: nat) -> Option<(CborS, int)>
    decreases fuel, s.len(), 0int,
{
    match rd_hdr(s) {
        None => None,
        Some((major, info, n, c)) => {
            if major == 0 {
                if info is Indefinite {
                    None
                } else {
                    Some((CborS::Uint(n), c))
                }
            } else if major == 1 {
                if info is Indefinite {
                    None
                } else {
                    Some((CborS::Nint(n), c))
                }
            } else if major == 2 {
                if info is Indefinite {
                    match sd_chunks(s.skip(1), 2) {
                        None => None,
                        Some((payload, c2)) => Some((CborS::Bytes(payload), 1 + c2)),
                    }
                } else if s.len() - c < n {
                    None
                } else {
                    Some((CborS::Bytes(s.subrange(c, c + n)), c + n))
                }
            } else if major == 3 {
                if info is Indefinite {
                    match sd_chunks(s.skip(1), 3) {
                        None => None,
                        Some((payload, c2)) => if valid_utf8(payload) {
                            Some((CborS::Text(payload), 1 + c2))
                        } else {
                            None
                        },
                    }
                } else if s.len() - c < n {
                    None
                } else if valid_utf8(s.subrange(c, c + n)) {
                    Some((CborS::Text(s.subrange(c, c + n)), c + n))
                } else {
                    None
                }
            } else if major == 4 {
                if fuel == 0 {
                    None
                } else if info is Indefinite {
                    match sd_list_indef(s.skip(1), (fuel - 1) as nat) {
                        None => None,
                        Some((items, c2)) => Some((CborS::Array(items), 1 + c2)),
                    }
                } else {
                    match sd_list(s.skip(c), n, (fuel - 1) as nat) {
                        None => None,
                        Some((items, c2)) => Some((CborS::Array(items), c + c2)),
                    }
                }
            } else if major == 5 {
                if fuel == 0 {
                    None
                } else if info is Indefinite {
                    match sd_pairs_indef(s.skip(1), (fuel - 1) as nat) {
                        None => None,
                        Some((ps, c2)) => if has_dup(ps) {
                            None
                        } else {
                            Some((CborS::Dict(ps), 1 + c2))
                        },
                    }
                } else {
                    match sd_pairs(s.skip(c), n, (fuel - 1) as nat) {
                        None => None,
                        Some((ps, c2)) => if has_dup(ps) {
                            None
                        } else {
                            Some((CborS::Dict(ps), c + c2))
                        },
                    }
                }
            } else if major == 6 {
                if info is Indefinite || fuel == 0 {
                    None
                } else {
                    match sd(s.skip(c), (fuel - 1) as nat) {
                        None => None,
                        Some((child, c2)) => if n == 2 {
                            match child {
                                CborS::Bytes(m) => Some((CborS::Tagged(TagS::Ubig(m)), c + c2)),
                                other => Some(
                                    (CborS::Tagged(TagS::Any(2, Box::new(other))), c + c2),
                                ),
                            }
                        } else if n == 3 {
                            match child {
                                CborS::Bytes(m) => Some((CborS::Tagged(TagS::Sbig(m)), c + c2)),
                                other => Some(
                                    (CborS::Tagged(TagS::Any(3, Box::new(other))), c + c2),
                                ),
                            }
                        } else {
                            Some((CborS::Tagged(TagS::Any(n, Box::new(child))), c + c2))
                        },
                    }
                }
            } else {
                sd_simple(s)
            }
        },
    }
}

/// Reading exactly `n` values in sequence.
pub open spec fn sd_list(s: Seq<u8>, n: u64, fuel: nat) -> Option<(Seq<CborS>, int)>
    decreases fuel, s.len(), 1int + n,
{
    if n == 0 {
        Some((Seq::empty(), 0))
    } else {
        match sd(s, fuel) {
            None => None,
            Some((v, c)) => if c < 1 || c > s.len() {
                None
            } else {
                match sd_list(s.skip(c), (n - 1) as u64, fuel) {
                    None => None,
                    Some((items, c2)) => Some((seq![v] + items, c + c2)),
                }
            },
        }
    }
}

/// Reading values until a break marker.
pub open spec fn sd_list_indef(s: Seq<u8>, fuel: nat) -> Option<(Seq<CborS>, int)>
    decreases fuel, s.len(), 1int,
{
    if s.len() == 0 {
        None
    } else if s[0] == 0xFF {
        Some((Seq::empty(), 1))
    } else {
        match sd(s, fuel) {
            None => None,
            Some((v, c)) => if c < 1 || c > s.len() {
                None
            } else {
                match sd_list_indef(s.skip(c), fuel) {
                    None => None,
                    Some((items, c2)) => Some((seq![v] + items, c + c2)),
                }
            },
        }
    }
}

/// Reading exactly `n` key-value entries in sequence.
pub open spec fn sd_pairs(s: Seq<u8>, n: u64, fuel: nat) -> Option<(Seq<(KeyS, CborS)>, int)>
    decreases fuel, s.len(), 1int + n,
{
    if n == 0 {
        Some((Seq::empty(), 0))
    } else {
        match sd(s, fuel) {
            None => None,
            Some((kv, c)) => if c < 1 || c > s.len() {
                None
            } else {
                match key_of(kv) {
                    None => None,
                    Some(k) => match sd(s.skip(c), fuel) {
                        None => None,
                        Some((v, c2)) => if c2 < 1 || c + c2 > s.len() {
                            None
                        } else {
                            match sd_pairs(s.skip(c + c2), (n - 1) as u64, fuel) {
                                None => None,
                                Some((ps, c3)) => Some((seq![(k, v)] + ps, c + c2 + c3)),
                            }
                        },
                    },
                }
            },
        }
    }
}

/// Reading key-value entries until a break marker.
pub open spec fn sd_pairs_indef(s: Seq<u8>, fuel: nat) -> Option<(Seq<(KeyS, CborS)>, int)>
    decreases fuel, s.len(), 1int,
{
    if s.len() == 0 {
        None
    } else if s[0] == 0xFF {
        Some((Seq::empty(), 1))
    } else {
        match sd(s, fuel) {
            None => None,
            Some((kv, c)) => if c < 1 || c > s.len() {
                None
            } else {
                match key_of(kv) {
                    None => None,
                    Some(k) => match sd(s.skip(c), fuel) {
                        None => None,
                        Some((v, c2)) => if c2 < 1 || c + c2 > s.len() {
                            None
                        } else {
                            match sd_pairs_indef(s.skip(c + c2), fuel) {
                                None => None,
                                Some((ps, c3)) => Some((seq![(k, v)] + ps, c + c2 + c3)),
                            }
                        },
                    },
                }
            },
        }
    }
}


/// Extends a partial parse of a run of values by what was already read.
pub open spec fn compose_list(
    pre: Option<(Seq<CborS>, int)>,
    done: Seq<CborS>,
    base: int,
) -> Option<(Seq<CborS>, int)> {
    match pre {
        None => None,
        Some((r, c)) => Some((done + r, base + c)),
    }
}

/// Extends a partial parse of a run of entries by what was already read.
pub open spec fn compose_pairs(
    pre: Option<(Seq<(KeyS, CborS)>, int)>,
    done: Seq<(KeyS, CborS)>,
    base: int,
) -> Option<(Seq<(KeyS, CborS)>, int)> {
    match pre {
        None => None,
        Some((r, c)) => Some((done + r, base + c)),
    }
}

/// Extends a partial parse of string chunks by what was already read.
pub open spec fn compose_bytes(
    pre: Option<(Seq<u8>, int)>,
    done: Seq<u8>,
    base: int,
) -> Option<(Seq<u8>, int)> {
    match pre {
        None => None,
        Some((r, c)) => Some((done + r, base + c)),
    }
}

/// Relies on core::str::from_utf8, which accepts exactly the byte
/// sequences that are valid UTF-8.
#[verifier::external_body]
fn check_utf8(b: &Vec<u8>) -> (r: bool)
    ensures
        r == valid_utf8(b@),
{
    core::str::from_utf8(b.as_slice()).is_ok()
}

fn err_cbor(msg: &str) -> (r: Error)
    ensures
        r is FailCbor,
{
    Error::FailCbor(dec_prefix(), String::from_str(msg))
}

/// Compares two byte vectors for equality.
fn bytes_eq(a: &Vec<u8>, b: &Vec<u8>) -> (r: bool)
    ensures
        r == (a@ == b@),
{
    if a.len() != b.len() {
        return false;
    }
    let n = a.len();
    let mut i: usize = 0;
    while i < n
        invariant
            n == a@.len(),
            n == b@.len(),
            0 <= i <= n,
            forall|k: int| 0 <= k < i ==> a@[k] == b@[k],
        decreases n - i,
    {
        if a[i] != b[i] {
            return false;
        }
        i = i + 1;
    }
    proof {
        assert(a@ =~= b@);
    }
    true
}

/// Compares two keys for equality.
fn key_eq(a: &Key, b: &Key) -> (r: bool)
    ensures
        r == (a@ == b@),
{
    match (a, b) {
        (Key::U64(x), Key::U64(y)) => *x == *y,
        (Key::N64(x), Key::N64(y)) => *x == *y,
        (Key::Bytes(x), Key::Bytes(y)) => bytes_eq(x, y),
        (Key::Text(x), Key::Text(y)) => bytes_eq(x, y),
        (Key::Bool(x), Key::Bool(y)) => *x == *y,
        _ => false,
    }
}

/// Whether some two entries share a key; see [`has_dup`].
fn find_dup(pairs: &Vec<(Key, Cbor)>) -> (r: bool)
    ensures
        r == has_dup(view_pairs(pairs@)),
{
    let ghost ps = view_pairs(pairs@);
    let n = pairs.len();
    let mut j: usize = 1;
    while j < n
        invariant
            n == pairs@.len(),
            ps == view_pairs(pairs@),
            ps.len() == n,
            1 <= j <= n + 1,
            n > 0 ==> j <= n,
            forall|x: int, y: int| 0 <= x < y < j && y < n ==> (#[trigger] ps[x]).0 != (
            #[trigger] ps[y]).0,
        decreases n - j,
    {
        let mut i: usize = 0;
        while i < j
            invariant
                n == pairs@.len(),
                ps == view_pairs(pairs@),
                ps.len() == n,
                0 <= i <= j < n,
                forall|x: int| 0 <= x < i ==> (#[trigger] ps[x]).0 != ps[j as int].0,
            decreases j - i,
        {
            if key_eq(&pairs[i].0, &pairs[j].0) {
                proof {
                    assert(ps[i as int].0 == view_key(pairs@[i as int].0));
                    assert(ps[j as int].0 == view_key(pairs@[j as int].0));
                }
                return true;
            }
            proof {
                assert(ps[i as int].0 == view_key(pairs@[i as int].0));
                assert(ps[j as int].0 == view_key(pairs@[j as int].0));
            }
            i = i + 1;
        }
        j = j + 1;
    }
    proof {
        assert(!has_dup(ps));
    }
    false
}

/// Turns a decoded value into the map key it stands for, rejecting values
/// that are not legal keys.
fn key_from_cbor(v: Cbor) -> (r: Result<Key, Error>)
    ensures
        match r {
            Ok(k) => key_of(v@) == Some(k@),
            Err(_) => key_of(v@) is None,
        },
{
    match v {
        Cbor::Major0(n) => Ok(Key::U64(n)),
        Cbor::Major1(n) => Ok(Key::N64(n)),
        Cbor::Major2(b) => Ok(Key::Bytes(b)),
        Cbor::Major3(b) => Ok(Key::Text(b)),
        Cbor::Major7(sv) => match sv {
            SimpleValue::True => Ok(Key::Bool(true)),
            SimpleValue::False => Ok(Key::Bool(false)),
            _ => Err(err_cbor("value is not legal as a map key")),
        },
        _ => Err(err_cbor("value is not legal as a map key")),
    }
}


/// Reads the chunks of an indefinite-length string of major type `major`
/// starting at `start`, returning the concatenated payload and the bytes
/// consumed (break marker included).
#[verifier::loop_isolation(false)]
#[verifier::rlimit(100)]
fn decode_chunks_at(buf: &[u8], start: usize, major: u8) -> (r: Result<(Vec<u8>, usize), Error>)
    requires
        start <= buf.len(),
    ensures
        match r {
            Ok((out, c)) => start + c <= buf.len() && sd_chunks(buf@.skip(start as int), major)
                == Some((out@, c as int)),
            Err(_) => sd_chunks(buf@.skip(start as int), major) is None,
        },
{
    let mut out: Vec<u8> = Vec::new();
    let mut cur: usize = start;
    loop
        invariant
            start <= cur <= buf.len(),
            compose_bytes(sd_chunks(buf@.skip(cur as int), major), out@, cur - start)
                == sd_chunks(buf@.skip(start as int), major),
        decreases buf.len() - cur,
    {
        let ghost sc = buf@.skip(cur as int);
        if cur == buf.len() {
            return Err(err_cbor("unterminated indefinite-length string"));
        }
        assert(sc[0] == buf@[cur as int]);
        if buf[cur] == 0xFF {
            proof {
                assert(sd_chunks(sc, major) == Some((Seq::<u8>::empty(), 1int)));
                assert(out@ + Seq::<u8>::empty() =~= out@);
            }
            return Ok((out, cur + 1 - start));
        }
        let (mj, info, l, cc) = match read_header(buf, cur) {
            Ok(h) => h,
            Err(e) => {
                return Err(e);
            },
        };
        if mj != major || info == Info::Indefinite {
            return Err(err_cbor("bad chunk inside indefinite-length string"));
        }
        if l > (buf.len() - cur - cc) as u64 {
            return Err(err_cbor("truncated input"));
        }
        let l_us = l as usize;
        let ghost out0 = out@;
        let mut k: usize = 0;
        while k < l_us
            invariant
                cur + cc + l_us <= buf.len(),
                0 <= k <= l_us,
                l_us == l,
                out@ == out0 + sc.subrange(cc as int, cc + k),
            decreases l_us - k,
        {
            out.push(buf[cur + cc + k]);
            proof {
                assert(sc[cc + k] == buf@[cur + cc + k]);
                assert(out0 + sc.subrange(cc as int, cc + k) + seq![sc[cc + k]] =~= out0
                    + sc.subrange(cc as int, cc + k + 1));
            }
            k = k + 1;
        }
        let prev = cur;
        cur = cur + cc + l_us;
        proof {
            let scn = buf@.skip(cur as int);
            assert(scn =~= sc.skip(cc + l as int));
            assert(sd_chunks(sc, major) == compose_bytes(
                sd_chunks(scn, major),
                sc.subrange(cc as int, cc + l as int),
                cc + l as int,
            ));
            assert(compose_bytes(sd_chunks(scn, major), out@, cur - start) == sd_chunks(
                buf@.skip(start as int),
                major,
            )) by {
                match sd_chunks(scn, major) {
                    None => {},
                    Some((rp, c2)) => {
                        assert(out0 + (sc.subrange(cc as int, cc + l as int) + rp) =~= out@
                            + rp);
                    },
                }
            }
        }
    }
}

/// Decodes one value starting at `from`, with `depth` container descents
/// already on the stack.  Mirrors [`sd`] exactly.
#[verifier::loop_isolation(false)]
#[verifier::rlimit(80)]
fn decode_at(buf: &[u8], from: usize, depth: u32) -> (r: Result<(Cbor, usize), Error>)
    requires
        from <= buf.len(),
        depth <= RECURSION_LIMIT,
    ensures
        match r {
            Ok((v, c)) => 1 <= c && from + c <= buf.len() && sd(
                buf@.skip(from as int),
                (RECURSION_LIMIT - depth) as nat,
            ) == Some((v@, c as int)),
            Err(_) => sd(buf@.skip(from as int), (RECURSION_LIMIT - depth) as nat) is None,
        },
    decreases buf.len() - from, 0int,
{
    let ghost s = buf@.skip(from as int);
    let ghost fuel = (RECURSION_LIMIT - depth) as nat;
    let (major, info, n, c) = match read_header(buf, from) {
        Ok(h) => h,
        Err(e) => {
            return Err(e);
        },
    };
    if major == 0 {
        if info == Info::Indefinite {
            return Err(err_cbor("indefinite length is not legal for an integer"));
        }
        Ok((Cbor::Major0(n), c))
    } else if major == 1 {
        if info == Info::Indefinite {
            return Err(err_cbor("indefinite length is not legal for an integer"));
        }
        Ok((Cbor::Major1(n), c))
    } else if major == 2 || major == 3 {
        if info == Info::Indefinite {
            let (payload, c2) = match decode_chunks_at(buf, from + 1, major) {
                Ok(p) => p,
                Err(e) => {
                    proof {
                        assert(s.skip(1) =~= buf@.skip(from + 1));
                    }
                    return Err(e);
                },
            };
            proof {
                assert(s.skip(1) =~= buf@.skip(from + 1));
            }
            if major == 2 {
                Ok((Cbor::Major2(payload), 1 + c2))
            } else {
                if !check_utf8(&payload) {
                    return Err(err_cbor("text string is not valid UTF-8"));
                }
                Ok((Cbor::Major3(payload), 1 + c2))
            }
        } else {
            if n > (buf.len() - from - c) as u64 {
                return Err(err_cbor("truncated input"));
            }
            let len = n as usize;
            let mut payload: Vec<u8> = Vec::new();
            let mut k: usize = 0;
            while k < len
                invariant
                    from + c + len <= buf.len(),
                    0 <= k <= len,
                    len == n,
                    payload@ == s.subrange(c as int, c + k),
                decreases len - k,
            {
                payload.push(buf[from + c + k]);
                proof {
                    assert(s[c + k] == buf@[from + c + k]);
                    assert(s.subrange(c as int, c + k).push(s[c + k]) =~= s.subrange(
                        c as int,
                        c + k + 1,
                    ));
                }
                k = k + 1;
            }
            if major == 2 {
                Ok((Cbor::Major2(payload), c + len))
            } else {
                if !check_utf8(&payload) {
                    return Err(err_cbor("text string is not valid UTF-8"));
                }
                Ok((Cbor::Major3(payload), c + len))
            }
        }
    } else if major == 4 {
        if depth == RECURSION_LIMIT {
            return Err(err_cbor("recursion limit exceeded"));
        }
        if info == Info::Indefinite {
            match decode_list_indef_at(buf, from + 1, depth + 1) {
                Ok((items, c2)) => {
                    proof {
                        assert(s.skip(1) =~= buf@.skip(from + 1));
                    }
                    Ok((Cbor::Major4(items), 1 + c2))
                },
                Err(e) => {
                    proof {
                        assert(s.skip(1) =~= buf@.skip(from + 1));
                    }
                    Err(e)
                },
            }
        } else {
            match decode_list_at(buf, from + c, n, depth + 1) {
                Ok((items, c2)) => {
                    proof {
                        assert(s.skip(c as int) =~= buf@.skip(from + c));
                    }
                    Ok((Cbor::Major4(items), c + c2))
                },
                Err(e) => {
                    proof {
                        assert(s.skip(c as int) =~= buf@.skip(from + c));
                    }
                    Err(e)
                },
            }
        }
    } else if major == 5 {
        if depth == RECURSION_LIMIT {
            return Err(err_cbor("recursion limit exceeded"));
        }
        let (pairs, c2, base) = if info == Info::Indefinite {
            match decode_pairs_indef_at(buf, from + 1, depth + 1) {
                Ok((pairs, c2)) => {
                    proof {
                        assert(s.skip(1) =~= buf@.skip(from + 1));
                    }
                    (pairs, c2, 1usize)
                },
                Err(e) => {
                    proof {
                        assert(s.skip(1) =~= buf@.skip(from + 1));
                    }
                    return Err(e);
                },
            }
        } else {
            match decode_pairs_at(buf, from + c, n, depth + 1) {
                Ok((pairs, c2)) => {
                    proof {
                        assert(s.skip(c as int) =~= buf@.skip(from + c));
                    }
                    (pairs, c2, c)
                },
                Err(e) => {
                    proof {
                        assert(s.skip(c as int) =~= buf@.skip(from + c));
                    }
                    return Err(e);
                },
            }
        };
        if find_dup(&pairs) {
            return Err(err_cbor("duplicate map key"));
        }
        Ok((Cbor::Major5(pairs), base + c2))
    } else if major == 6 {
        if info == Info::Indefinite {
            return Err(err_cbor("indefinite length is not legal for a tag"));
        }
        if depth == RECURSION_LIMIT {
            return Err(err_cbor("recursion limit exceeded"));
        }
        let (child, c2) = match decode_at(buf, from + c, depth + 1) {
            Ok(p) => p,
            Err(e) => {
                proof {
                    assert(s.skip(c as int) =~= buf@.skip(from + c));
                }
                return Err(e);
            },
        };
        proof {
            assert(s.skip(c as int) =~= buf@.skip(from + c));
        }
        if n == 2 {
            match child {
                Cbor::Major2(m) => Ok((Cbor::Major6(Tag::Ubig(m)), c + c2)),
                other => Ok((Cbor::Major6(Tag::Any(2, Box::new(other))), c + c2)),
            }
        } else if n == 3 {
            match child {
                Cbor::Major2(m) => Ok((Cbor::Major6(Tag::Sbig(m)), c + c2)),
                other => Ok((Cbor::Major6(Tag::Any(3, Box::new(other))), c + c2)),
            }
        } else {
            Ok((Cbor::Major6(Tag::Any(n, Box::new(child))), c + c2))
        }
    } else {
        match info {
            Info::Tiny(ai) => {
                if ai < 20 {
                    Ok((Cbor::Major7(SimpleValue::Code(ai)), 1))
                } else if ai == 20 {
                    Ok((Cbor::Major7(SimpleValue::False), 1))
                } else if ai == 21 {
                    Ok((Cbor::Major7(SimpleValue::True), 1))
                } else if ai == 22 {
                    Ok((Cbor::Major7(SimpleValue::Null), 1))
                } else {
                    Ok((Cbor::Major7(SimpleValue::Undefined), 1))
                }
            },
            Info::U8 => {
                if n >= 32 {
                    Ok((Cbor::Major7(SimpleValue::Code(n as u8)), 2))
                } else {
                    Err(err_cbor("simple code below 32 behind selector 24"))
                }
            },
            Info::U16 => Ok((Cbor::Major7(SimpleValue::F16(n as u16)), 3)),
            Info::U32 => Ok((Cbor::Major7(SimpleValue::F32(n as u32)), 5)),
            Info::U64 => Ok((Cbor::Major7(SimpleValue::F64(n)), 9)),
            _ => Err(err_cbor("break marker outside an indefinite-length container")),
        }
    }
}

/// Decodes exactly `n` values starting at `start`; mirrors [`sd_list`].
#[verifier::loop_isolation(false)]
fn decode_list_at(buf: &[u8], start: usize, n: u64, depth: u32) -> (r: Result<
    (Vec<Cbor>, usize),
    Error,
>)
    requires
        start <= buf.len(),
        1 <= depth <= RECURSION_LIMIT,
    ensures
        match r {
            Ok((items, c)) => start + c <= buf.len() && sd_list(
                buf@.skip(start as int),
                n,
                (RECURSION_LIMIT - depth) as nat,
            ) == Some((view_list(items@), c as int)),
            Err(_) => sd_list(buf@.skip(start as int), n, (RECURSION_LIMIT - depth) as nat)
                is None,
        },
    decreases buf.len() - start, 1int,
{
    let ghost fuel = (RECURSION_LIMIT - depth) as nat;
    let mut items: Vec<Cbor> = Vec::new();
    let mut cur: usize = start;
    let mut i: u64 = 0;
    while i < n
        invariant
            start <= cur <= buf.len(),
            0 <= i <= n,
            compose_list(
                sd_list(buf@.skip(cur as int), (n - i) as u64, fuel),
                view_list(items@),
                cur - start,
            ) == sd_list(buf@.skip(start as int), n, fuel),
        decreases n - i,
    {
        let ghost sc = buf@.skip(cur as int);
        let (v, cv) = match decode_at(buf, cur, depth) {
            Ok(p) => p,
            Err(e) => {
                return Err(e);
            },
        };
        proof {
            assert(sc.skip(cv as int) =~= buf@.skip(cur + cv));
            lemma_view_list_push(items@, v);
        }
        let ghost items0 = items@;
        items.push(v);
        let ghost prev = cur;
        cur = cur + cv;
        i = i + 1;
        proof {
            let pre = sd_list(buf@.skip(cur as int), (n - i) as u64, fuel);
            assert(compose_list(pre, view_list(items@), cur - start) == sd_list(
                buf@.skip(start as int),
                n,
                fuel,
            )) by {
                match pre {
                    None => {},
                    Some((rest, c2)) => {
                        assert(view_list(items0) + (seq![view_cbor(v)] + rest) =~= view_list(
                            items@,
                        ) + rest);
                    },
                }
            }
        }
    }
    proof {
        assert(view_list(items@) + Seq::<CborS>::empty() =~= view_list(items@));
    }
    Ok((items, cur - start))
}

/// Decodes values until a break marker; mirrors [`sd_list_indef`].
#[verifier::loop_isolation(false)]
fn decode_list_indef_at(buf: &[u8], start: usize, depth: u32) -> (r: Result<
    (Vec<Cbor>, usize),
    Error,
>)
    requires
        start <= buf.len(),
        1 <= depth <= RECURSION_LIMIT,
    ensures
        match r {
            Ok((items, c)) => start + c <= buf.len() && sd_list_indef(
                buf@.skip(start as int),
                (RECURSION_LIMIT - depth) as nat,
            ) == Some((view_list(items@), c as int)),
            Err(_) => sd_list_indef(buf@.skip(start as int), (RECURSION_LIMIT - depth) as nat)
                is None,
        },
    decreases buf.len() - start, 1int,
{
    let ghost fuel = (RECURSION_LIMIT - depth) as nat;
    let mut items: Vec<Cbor> = Vec::new();
    let mut cur: usize = start;
    loop
        invariant
            start <= cur <= buf.len(),
            compose_list(
                sd_list_indef(buf@.skip(cur as int), fuel),
                view_list(items@),
                cur - start,
            ) == sd_list_indef(buf@.skip(start as int), fuel),
        decreases buf.len() - cur,
    {
        let ghost sc = buf@.skip(cur as int);
        if cur == buf.len() {
            return Err(err_cbor("unterminated indefinite-length array"));
        }
        assert(sc[0] == buf@[cur as int]);
        if buf[cur] == 0xFF {
            proof {
                assert(sd_list_indef(sc, fuel) == Some((Seq::<CborS>::empty(), 1int)));
                assert(view_list(items@) + Seq::<CborS>::empty() =~= view_list(items@));
            }
            return Ok((items, cur + 1 - start));
        }
        let (v, cv) = match decode_at(buf, cur, depth) {
            Ok(p) => p,
            Err(e) => {
                return Err(e);
            },
        };
        proof {
            assert(sc.skip(cv as int) =~= buf@.skip(cur + cv));
            lemma_view_list_push(items@, v);
        }
        let ghost items0 = items@;
        items.push(v);
        cur = cur + cv;
        proof {
            let pre = sd_list_indef(buf@.skip(cur as int), fuel);
            assert(compose_list(pre, view_list(items@), cur - start) == sd_list_indef(
                buf@.skip(start as int),
                fuel,
            )) by {
                match pre {
                    None => {},
                    Some((rest, c2)) => {
                        assert(view_list(items0) + (seq![view_cbor(v)] + rest) =~= view_list(
                            items@,
                        ) + rest);
                    },
                }
            }
        }
    }
}

/// Decodes exactly `n` key-value entries; mirrors [`sd_pairs`].
#[verifier::loop_isolation(false)]
#[verifier::rlimit(100)]
fn decode_pairs_at(buf: &[u8], start: usize, n: u64, depth: u32) -> (r: Result<
    (Vec<(Key, Cbor)>, usize),
    Error,
>)
    requires
        start <= buf.len(),
        1 <= depth <= RECURSION_LIMIT,
    ensures
        match r {
            Ok((pairs, c)) => start + c <= buf.len() && sd_pairs(
                buf@.skip(start as int),
                n,
                (RECURSION_LIMIT - depth) as nat,
            ) == Some((view_pairs(pairs@), c as int)),
            Err(_) => sd_pairs(buf@.skip(start as int), n, (RECURSION_LIMIT - depth) as nat)
                is None,
        },
    decreases buf.len() - start, 1int,
{
    let ghost fuel = (RECURSION_LIMIT - depth) as nat;
    let mut pairs: Vec<(Key, Cbor)> = Vec::new();
    let mut cur: usize = start;
    let mut i: u64 = 0;
    while i < n
        invariant
            start <= cur <= buf.len(),
            0 <= i <= n,
            compose_pairs(
                sd_pairs(buf@.skip(cur as int), (n - i) as u64, fuel),
                view_pairs(pairs@),
                cur - start,
            ) == sd_pairs(buf@.skip(start as int), n, fuel),
        decreases n - i,
    {
        let ghost sc = buf@.skip(cur as int);
        let (kv, ck) = match decode_at(buf, cur, depth) {
            Ok(p) => p,
            Err(e) => {
                return Err(e);
            },
        };
        let ghost kvv = kv@;
        let k = match key_from_cbor(kv) {
            Ok(k) => k,
            Err(e) => {
                return Err(e);
            },
        };
        proof {
            assert(sc.skip(ck as int) =~= buf@.skip(cur + ck));
        }
        let (v, cv) = match decode_at(buf, cur + ck, depth) {
            Ok(p) => p,
            Err(e) => {
                return Err(e);
            },
        };
        proof {
            assert(sc.skip(ck + cv) =~= buf@.skip(cur + ck + cv));
            lemma_view_pairs_push(pairs@, k, v);
        }
        let ghost pairs0 = pairs@;
        pairs.push((k, v));
        cur = cur + ck + cv;
        i = i + 1;
        proof {
            let pre = sd_pairs(buf@.skip(cur as int), (n - i) as u64, fuel);
            assert(compose_pairs(pre, view_pairs(pairs@), cur - start) == sd_pairs(
                buf@.skip(start as int),
                n,
                fuel,
            )) by {
                match pre {
                    None => {},
                    Some((rest, c2)) => {
                        assert(view_pairs(pairs0) + (seq![(view_key(k), view_cbor(v))] + rest)
                            =~= view_pairs(pairs@) + rest);
                    },
                }
            }
        }
    }
    proof {
        assert(view_pairs(pairs@) + Seq::<(KeyS, CborS)>::empty() =~= view_pairs(pairs@));
    }
    Ok((pairs, cur - start))
}

/// Decodes key-value entries until a break marker; mirrors
/// [`sd_pairs_indef`].
#[verifier::loop_isolation(false)]
#[verifier::rlimit(100)]
fn decode_pairs_indef_at(buf: &[u8], start: usize, depth: u32) -> (r: Result<
    (Vec<(Key, Cbor)>, usize),
    Error,
>)
    requires
        start <= buf.len(),
        1 <= depth <= RECURSION_LIMIT,
    ensures
        match r {
            Ok((pairs, c)) => start + c <= buf.len() && sd_pairs_indef(
                buf@.skip(start as int),
                (RECURSION_LIMIT - depth) as nat,
            ) == Some((view_pairs(pairs@), c as int)),
            Err(_) => sd_pairs_indef(buf@.skip(start as int), (RECURSION_LIMIT - depth) as nat)
                is None,
        },
    decreases buf.len() - start, 1int,
{
    let ghost fuel = (RECURSION_LIMIT - depth) as nat;
    let mut pairs: Vec<(Key, Cbor)> = Vec::new();
    let mut cur: usize = start;
    loop
        invariant
            start <= cur <= buf.len(),
            compose_pairs(
                sd_pairs_indef(buf@.skip(cur as int), fuel),
                view_pairs(pairs@),
                cur - start,
            ) == sd_pairs_indef(buf@.skip(start as int), fuel),
        decreases buf.len() - cur,
    {
        let ghost sc = buf@.skip(cur as int);
        if cur == buf.len() {
            return Err(err_cbor("unterminated indefinite-length map"));
        }
        assert(sc[0] == buf@[cur as int]);
        if buf[cur] == 0xFF {
            proof {
                assert(sd_pairs_indef(sc, fuel) == Some((Seq::<(KeyS, CborS)>::empty(), 1int)));
                assert(view_pairs(pairs@) + Seq::<(KeyS, CborS)>::empty() =~= view_pairs(
                    pairs@,
                ));
            }
            return Ok((pairs, cur + 1 - start));
        }
        let (kv, ck) = match decode_at(buf, cur, depth) {
            Ok(p) => p,
            Err(e) => {
                return Err(e);
            },
        };
        let k = match key_from_cbor(kv) {
            Ok(k) => k,
            Err(e) => {
                return Err(e);
            },
        };
        proof {
            assert(sc.skip(ck as int) =~= buf@.skip(cur + ck));
        }
        let (v, cv) = match decode_at(buf, cur + ck, depth) {
            Ok(p) => p,
            Err(e) => {
                return Err(e);
            },
        };
        proof {
            assert(sc.skip(ck + cv) =~= buf@.skip(cur + ck + cv));
            lemma_view_pairs_push(pairs@, k, v);
        }
        let ghost pairs0 = pairs@;
        pairs.push((k, v));
        cur = cur + ck + cv;
        proof {
            let pre = sd_pairs_indef(buf@.skip(cur as int), fuel);
            assert(compose_pairs(pre, view_pairs(pairs@), cur - start) == sd_pairs_indef(
                buf@.skip(start as int),
                fuel,
            )) by {
                match pre {
                    None => {},
                    Some((rest, c2)) => {
                        assert(view_pairs(pairs0) + (seq![(view_key(k), view_cbor(v))] + rest)
                            =~= view_pairs(pairs@) + rest);
                    },
                }
            }
        }
    }
}

impl Cbor {
    /// Decodes one value from the front of `buf`, returning it with the
    /// count of bytes consumed; trailing bytes are left for the caller.
    /// Fails exactly on malformed input: an empty or truncated buffer, a
    /// reserved selector, nesting deeper than [`RECURSION_LIMIT`], invalid
    /// text, an illegal map key, a duplicate map key, or a break marker
    /// outside an indefinite-length container.
    pub fn decode(buf: &[u8]) -> (r: Result<(Cbor, usize), Error>)
        ensures
            match r {
                Ok((v, c)) => 1 <= c && c <= buf.len() && sd(buf@, RECURSION_LIMIT as nat)
                    == Some((v@, c as int)),
                Err(_) => sd(buf@, RECURSION_LIMIT as nat) is None,
            },
    {
        proof {
            assert(buf@.skip(0) =~= buf@);
        }
        decode_at(buf, 0, 0)
    }
}

} // verus!
