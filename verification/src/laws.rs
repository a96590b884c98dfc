//! The laws the codec obeys: decoding a canonical encoding restores the
//! value exactly, the key order is a strict total order, and sorted maps
//! have no duplicate keys.
#![allow(unused_imports)]
use vstd::prelude::*;
use vstd::utf8::valid_utf8;

use crate::cbor::{
    canon_list, canon_pairs, canonical, fits_depth, fits_list, fits_pairs, key_canonical, key_lt,
    key_rank, lemma_canon_list_iff, lemma_canon_pairs_iff, lemma_fits_list_iff,
    lemma_fits_pairs_iff, seq_lex_lt, str_key_lt, CborS, Info, KeyS, SimpleValue, TagS,
};
use crate::dec::{has_dup, key_of, sd, sd_list, sd_pairs, sd_simple};
use crate::enc::{enc_key, enc_list_to, enc_pairs_to, enc_simple, insert_pair, norm, norm_list, norm_pairs, sort_from, sort_pairs, spec_encode};
use crate::hdr::{enc_hdr, hdr_byte, hdr_len, info_of, lemma_hdr_inverse, rd_hdr};

verus! {

/// Suffix byte image of an array body from item `i` on.
pub open spec fn enc_list_from(items: Seq<CborS>, i: int) -> Seq<u8>
    decreases items, 1int, items.len() - i,
{
    if i < 0 || i >= items.len() {
        Seq::empty()
    } else {
        spec_encode(items[i]) + enc_list_from(items, i + 1)
    }
}

/// Suffix byte image of a map body from entry `j` on.
pub open spec fn enc_pairs_from(ps: Seq<(KeyS, CborS)>, j: int) -> Seq<u8>
    decreases ps, 1int, ps.len() - j,
{
    if j < 0 || j >= ps.len() {
        Seq::empty()
    } else {
        enc_key(ps[j].0) + spec_encode(ps[j].1) + enc_pairs_from(ps, j + 1)
    }
}

/// The prefix and suffix images assemble the whole body.
proof fn lemma_enc_list_to_from(items: Seq<CborS>, i: int)
    requires
        0 <= i <= items.len(),
    ensures
        enc_list_to(items, i) + enc_list_from(items, i) == enc_list_from(items, 0),
    decreases i,
{
    if i == 0 {
        assert(enc_list_to(items, 0) + enc_list_from(items, 0) =~= enc_list_from(items, 0));
    } else {
        lemma_enc_list_to_from(items, i - 1);
        assert(enc_list_to(items, i) + enc_list_from(items, i) =~= enc_list_to(items, i - 1) + (
        spec_encode(items[i - 1]) + enc_list_from(items, i)));
        assert(spec_encode(items[i - 1]) + enc_list_from(items, i) == enc_list_from(items, i - 1));
    }
}

proof fn lemma_enc_pairs_to_from(ps: Seq<(KeyS, CborS)>, j: int)
    requires
        0 <= j <= ps.len(),
    ensures
        enc_pairs_to(ps, j) + enc_pairs_from(ps, j) == enc_pairs_from(ps, 0),
    decreases j,
{
    if j == 0 {
        assert(enc_pairs_to(ps, 0) + enc_pairs_from(ps, 0) =~= enc_pairs_from(ps, 0));
    } else {
        lemma_enc_pairs_to_from(ps, j - 1);
        assert(enc_pairs_to(ps, j) + enc_pairs_from(ps, j) =~= enc_pairs_to(ps, j - 1) + (enc_key(
            ps[j - 1].0,
        ) + spec_encode(ps[j - 1].1) + enc_pairs_from(ps, j)));
        assert(enc_key(ps[j - 1].0) + spec_encode(ps[j - 1].1) + enc_pairs_from(ps, j)
            == enc_pairs_from(ps, j - 1));
    }
}

/// Every value's encoding is non-empty.
pub proof fn lemma_spec_encode_len_pos(v: CborS)
    ensures
        spec_encode(v).len() >= 1,
{
}

/// The lexicographic order never relates a sequence to itself.
proof fn lemma_seq_lex_lt_irrefl(a: Seq<u8>)
    ensures
        !seq_lex_lt(a, a),
    decreases a.len(),
{
    if a.len() > 0 {
        lemma_seq_lex_lt_irrefl(a.drop_first());
    }
}

/// The lexicographic order is transitive over equal-length sequences.
proof fn lemma_seq_lex_lt_trans(a: Seq<u8>, b: Seq<u8>, c: Seq<u8>)
    requires
        a.len() == b.len(),
        b.len() == c.len(),
        seq_lex_lt(a, b),
        seq_lex_lt(b, c),
    ensures
        seq_lex_lt(a, c),
    decreases a.len(),
{
    if a.len() > 0 {
        if a[0] == b[0] && b[0] == c[0] {
            lemma_seq_lex_lt_trans(a.drop_first(), b.drop_first(), c.drop_first());
        }
    }
}

/// The key order is irreflexive.
pub proof fn lemma_key_lt_irrefl(k: KeyS)
    ensures
        !key_lt(k, k),
{
    match k {
        KeyS::Bytes(b) => lemma_seq_lex_lt_irrefl(b),
        KeyS::Text(b) => lemma_seq_lex_lt_irrefl(b),
        _ => {},
    }
}

/// The key order is transitive.
pub proof fn lemma_key_lt_trans(a: KeyS, b: KeyS, c: KeyS)
    requires
        key_lt(a, b),
        key_lt(b, c),
    ensures
        key_lt(a, c),
{
    if key_rank(a) == key_rank(b) && key_rank(b) == key_rank(c) {
        match (a, b, c) {
            (KeyS::Bytes(x), KeyS::Bytes(y), KeyS::Bytes(z)) => {
                if x.len() == y.len() && y.len() == z.len() {
                    lemma_seq_lex_lt_trans(x, y, z);
                }
            },
            (KeyS::Text(x), KeyS::Text(y), KeyS::Text(z)) => {
                if x.len() == y.len() && y.len() == z.len() {
                    lemma_seq_lex_lt_trans(x, y, z);
                }
            },
            _ => {},
        }
    }
}

/// In a run whose adjacent keys ascend, any earlier key precedes any later
/// one.
proof fn lemma_key_chain(ps: Seq<(KeyS, CborS)>, i: int, j: int)
    requires
        forall|k: int| 1 <= k < ps.len() ==> key_lt((#[trigger] ps[k - 1]).0, ps[k].0),
        0 <= i < j < ps.len(),
    ensures
        key_lt(ps[i].0, ps[j].0),
    decreases j - i,
{
    if j == i + 1 {
        assert(key_lt(ps[j - 1].0, ps[j].0));
    } else {
        lemma_key_chain(ps, i, j - 1);
        assert(key_lt(ps[j - 1].0, ps[j].0));
        lemma_key_lt_trans(ps[i].0, ps[j - 1].0, ps[j].0);
    }
}

/// A run whose adjacent keys strictly ascend holds no duplicate key.
pub proof fn lemma_sorted_no_dup(ps: Seq<(KeyS, CborS)>)
    requires
        forall|k: int| 1 <= k < ps.len() ==> key_lt((#[trigger] ps[k - 1]).0, ps[k].0),
    ensures
        !has_dup(ps),
{
    assert forall|i: int, j: int| 0 <= i < j < ps.len() implies (#[trigger] ps[i]).0 != (
    #[trigger] ps[j]).0 by {
        lemma_key_chain(ps, i, j);
        if ps[i].0 == ps[j].0 {
            lemma_key_lt_irrefl(ps[i].0);
        }
    }
}

/// The wire value a key travels as.
pub open spec fn cbor_of_key(k: KeyS) -> CborS {
    match k {
        KeyS::U64(n) => CborS::Uint(n),
        KeyS::N64(n) => CborS::Nint(n),
        KeyS::Bytes(b) => CborS::Bytes(b),
        KeyS::Text(b) => CborS::Text(b),
        KeyS::Bool(x) => CborS::Simple(
            if x {
                SimpleValue::True
            } else {
                SimpleValue::False
            },
        ),
    }
}

/// A definite byte string decodes back to its payload.
proof fn lemma_rt_bytes(b: Seq<u8>, rest: Seq<u8>, fuel: nat)
    requires
        b.len() <= u64::MAX,
    ensures
        sd(enc_hdr(2, b.len() as u64) + b + rest, fuel) == Some(
            (CborS::Bytes(b), hdr_len(b.len() as u64) + b.len()),
        ),
{
    let n = b.len() as u64;
    let s = enc_hdr(2, n) + b + rest;
    lemma_hdr_inverse(2, n, b + rest);
    assert(s =~= enc_hdr(2, n) + (b + rest));
    let c = hdr_len(n);
    assert(rd_hdr(s) == Some((2u8, info_of(n), n, c)));
    assert(!(info_of(n) is Indefinite));
    assert(s.len() - c >= n);
    assert(s.subrange(c, c + n) =~= b);
}

/// A simple value decodes back to itself, whatever follows.
#[verifier::rlimit(100)]
proof fn lemma_rt_simple(sv: SimpleValue, rest: Seq<u8>, fuel: nat)
    requires
        match sv {
            SimpleValue::Code(c) => c <= 19 || c >= 32,
            _ => true,
        },
    ensures
        sd(enc_simple(sv) + rest, fuel) == Some((CborS::Simple(sv), enc_simple(sv).len() as int)),
{
    let s = enc_simple(sv) + rest;
    match sv {
        SimpleValue::False => {
            assert(s[0] == 0xF4);
        },
        SimpleValue::True => {
            assert(s[0] == 0xF5);
        },
        SimpleValue::Null => {
            assert(s[0] == 0xF6);
        },
        SimpleValue::Undefined => {
            assert(s[0] == 0xF7);
        },
        SimpleValue::Code(c) => {
            if c < 24 {
                assert(s[0] == hdr_byte(7, c));
                assert(hdr_byte(7, c) / 32 == 7 && hdr_byte(7, c) % 32 == c) by (bit_vector)
                    requires
                        c < 24,
                ;
            } else {
                assert(s[0] == 0xF8 && s[1] == c);
                assert((c as u64) as u8 == c);
            }
        },
        SimpleValue::F16(x) => {
            assert(s[0] == 0xF9);
            assert(s[1] == (((x as u64) >> 8) & 0xFF) as u8 && s[2] == ((x as u64) & 0xFF) as u8);
            assert((((((x as u64) >> 8) & 0xFF) as u8) as u64) << 8 | ((((x as u64) & 0xFF) as u8)
                as u64) == x as u64 && ((x as u64) as u16) == x) by (bit_vector);
        },
        SimpleValue::F32(x) => {
            assert(s[0] == 0xFA);
            assert(s[1] == (((x as u64) >> 24) & 0xFF) as u8 && s[2] == (((x as u64) >> 16) & 0xFF)
                as u8 && s[3] == (((x as u64) >> 8) & 0xFF) as u8 && s[4] == ((x as u64) & 0xFF)
                as u8);
            assert((((((x as u64) >> 24) & 0xFF) as u8) as u64) << 24 | (((((x as u64) >> 16)
                & 0xFF) as u8) as u64) << 16 | (((((x as u64) >> 8) & 0xFF) as u8) as u64) << 8 | ((
            ((x as u64) & 0xFF) as u8) as u64) == x as u64 && ((x as u64) as u32) == x)
                by (bit_vector);
        },
        SimpleValue::F64(x) => {
            assert(s[0] == 0xFB);
            assert(s[1] == ((x >> 56) & 0xFF) as u8 && s[2] == ((x >> 48) & 0xFF) as u8 && s[3] == ((
            x >> 40) & 0xFF) as u8 && s[4] == ((x >> 32) & 0xFF) as u8 && s[5] == ((x >> 24) & 0xFF)
                as u8 && s[6] == ((x >> 16) & 0xFF) as u8 && s[7] == ((x >> 8) & 0xFF) as u8 && s[8]
                == (x & 0xFF) as u8);
            assert(((((x >> 56) & 0xFF) as u8) as u64) << 56 | ((((x >> 48) & 0xFF) as u8) as u64)
                << 48 | ((((x >> 40) & 0xFF) as u8) as u64) << 40 | ((((x >> 32) & 0xFF) as u8)
                as u64) << 32 | ((((x >> 24) & 0xFF) as u8) as u64) << 24 | ((((x >> 16) & 0xFF)
                as u8) as u64) << 16 | ((((x >> 8) & 0xFF) as u8) as u64) << 8 | (((x & 0xFF) as u8)
                as u64) == x) by (bit_vector);
        },
    }
}

/// An unsigned-integer key decodes back.
#[verifier::rlimit(100)]
#[verifier::spinoff_prover]
proof fn lemma_rt_key_u64(n: u64, rest: Seq<u8>, fuel: nat)
    ensures
        sd(enc_key(KeyS::U64(n)) + rest, fuel) == Some(
            (cbor_of_key(KeyS::U64(n)), enc_key(KeyS::U64(n)).len() as int),
        ),
{
    lemma_hdr_inverse(0, n, rest);
    assert(!(info_of(n) is Indefinite));
}

/// A negative-integer key decodes back.
#[verifier::rlimit(100)]
#[verifier::spinoff_prover]
proof fn lemma_rt_key_n64(n: u64, rest: Seq<u8>, fuel: nat)
    ensures
        sd(enc_key(KeyS::N64(n)) + rest, fuel) == Some(
            (cbor_of_key(KeyS::N64(n)), enc_key(KeyS::N64(n)).len() as int),
        ),
{
    lemma_hdr_inverse(1, n, rest);
    assert(!(info_of(n) is Indefinite));
}

/// A byte-string key decodes back.
#[verifier::rlimit(100)]
#[verifier::spinoff_prover]
proof fn lemma_rt_key_bytes(b: Seq<u8>, rest: Seq<u8>, fuel: nat)
    requires
        b.len() <= u64::MAX,
    ensures
        sd(enc_key(KeyS::Bytes(b)) + rest, fuel) == Some(
            (cbor_of_key(KeyS::Bytes(b)), enc_key(KeyS::Bytes(b)).len() as int),
        ),
{
    let n = b.len() as u64;
    let s = enc_key(KeyS::Bytes(b)) + rest;
    lemma_hdr_inverse(2, n, b + rest);
    assert(s =~= enc_hdr(2, n) + (b + rest));
    let c = hdr_len(n);
    assert(rd_hdr(s) == Some((2u8, info_of(n), n, c)));
    assert(!(info_of(n) is Indefinite));
    assert(s.len() - c >= n);
    assert(s.subrange(c, c + n) =~= b);
}

/// A text-string key decodes back.
#[verifier::rlimit(100)]
#[verifier::spinoff_prover]
proof fn lemma_rt_key_text(b: Seq<u8>, rest: Seq<u8>, fuel: nat)
    requires
        b.len() <= u64::MAX,
        valid_utf8(b),
    ensures
        sd(enc_key(KeyS::Text(b)) + rest, fuel) == Some(
            (cbor_of_key(KeyS::Text(b)), enc_key(KeyS::Text(b)).len() as int),
        ),
{
    let n = b.len() as u64;
    let s = enc_key(KeyS::Text(b)) + rest;
    lemma_hdr_inverse(3, n, b + rest);
    assert(s =~= enc_hdr(3, n) + (b + rest));
    let c = hdr_len(n);
    assert(rd_hdr(s) == Some((3u8, info_of(n), n, c)));
    assert(!(info_of(n) is Indefinite));
    assert(s.len() - c >= n);
    assert(s.subrange(c, c + n) =~= b);
}

/// A boolean key decodes back.
#[verifier::rlimit(100)]
#[verifier::spinoff_prover]
proof fn lemma_rt_key_bool(x: bool, rest: Seq<u8>, fuel: nat)
    ensures
        sd(enc_key(KeyS::Bool(x)) + rest, fuel) == Some(
            (cbor_of_key(KeyS::Bool(x)), enc_key(KeyS::Bool(x)).len() as int),
        ),
{
    let sv = if x {
        SimpleValue::True
    } else {
        SimpleValue::False
    };
    lemma_rt_simple(sv, rest, fuel);
    assert(enc_key(KeyS::Bool(x)) =~= enc_simple(sv));
}

/// A key's encoding decodes back to the value it travels as, and that value
/// converts back to the key.
#[verifier::spinoff_prover]
proof fn lemma_rt_key(k: KeyS, rest: Seq<u8>, fuel: nat)
    requires
        key_canonical(k),
    ensures
        sd(enc_key(k) + rest, fuel) == Some((cbor_of_key(k), enc_key(k).len() as int)),
        key_of(cbor_of_key(k)) == Some(k),
        enc_key(k).len() >= 1,
{
    match k {
        KeyS::U64(n) => lemma_rt_key_u64(n, rest, fuel),
        KeyS::N64(n) => lemma_rt_key_n64(n, rest, fuel),
        KeyS::Bytes(b) => lemma_rt_key_bytes(b, rest, fuel),
        KeyS::Text(b) => lemma_rt_key_text(b, rest, fuel),
        KeyS::Bool(x) => lemma_rt_key_bool(x, rest, fuel),
    }
}

/// The unsigned-integer case of the round trip.
#[verifier::rlimit(100)]
#[verifier::spinoff_prover]
proof fn lemma_rt_uint(n: u64, rest: Seq<u8>, fuel: nat)
    ensures
        sd(spec_encode(CborS::Uint(n)) + rest, fuel) == Some(
            (CborS::Uint(n), spec_encode(CborS::Uint(n)).len() as int),
        ),
{
    lemma_hdr_inverse(0, n, rest);
    assert(!(info_of(n) is Indefinite));
}

/// The negative-integer case of the round trip.
#[verifier::rlimit(100)]
#[verifier::spinoff_prover]
proof fn lemma_rt_nint(n: u64, rest: Seq<u8>, fuel: nat)
    ensures
        sd(spec_encode(CborS::Nint(n)) + rest, fuel) == Some(
            (CborS::Nint(n), spec_encode(CborS::Nint(n)).len() as int),
        ),
{
    lemma_hdr_inverse(1, n, rest);
    assert(!(info_of(n) is Indefinite));
}

/// The byte-string case of the round trip.
#[verifier::rlimit(100)]
#[verifier::spinoff_prover]
proof fn lemma_rt_val_bytes(b: Seq<u8>, rest: Seq<u8>, fuel: nat)
    requires
        b.len() <= u64::MAX,
    ensures
        sd(spec_encode(CborS::Bytes(b)) + rest, fuel) == Some(
            (CborS::Bytes(b), spec_encode(CborS::Bytes(b)).len() as int),
        ),
{
    let n = b.len() as u64;
    let s = spec_encode(CborS::Bytes(b)) + rest;
    lemma_hdr_inverse(2, n, b + rest);
    assert(s =~= enc_hdr(2, n) + (b + rest));
    let c = hdr_len(n);
    assert(rd_hdr(s) == Some((2u8, info_of(n), n, c)));
    assert(!(info_of(n) is Indefinite));
    assert(s.len() - c >= n);
    assert(s.subrange(c, c + n) =~= b);
}

/// The text-string case of the round trip.
#[verifier::rlimit(100)]
#[verifier::spinoff_prover]
proof fn lemma_rt_val_text(b: Seq<u8>, rest: Seq<u8>, fuel: nat)
    requires
        b.len() <= u64::MAX,
        valid_utf8(b),
    ensures
        sd(spec_encode(CborS::Text(b)) + rest, fuel) == Some(
            (CborS::Text(b), spec_encode(CborS::Text(b)).len() as int),
        ),
{
    let n = b.len() as u64;
    let s = spec_encode(CborS::Text(b)) + rest;
    lemma_hdr_inverse(3, n, b + rest);
    assert(s =~= enc_hdr(3, n) + (b + rest));
    let c = hdr_len(n);
    assert(rd_hdr(s) == Some((3u8, info_of(n), n, c)));
    assert(!(info_of(n) is Indefinite));
    assert(s.len() - c >= n);
    assert(s.subrange(c, c + n) =~= b);
}

/// Round trip: decoding a canonical value's encoding restores the value
/// exactly and consumes exactly its bytes, whatever bytes follow and for
/// any fuel that covers its nesting.
#[verifier::rlimit(100)]
#[verifier::spinoff_prover]
pub proof fn lemma_round_trip(v: CborS, rest: Seq<u8>, fuel: nat)
    requires
        canonical(v),
        fits_depth(v, fuel),
    ensures
        sd(spec_encode(v) + rest, fuel) == Some((v, spec_encode(v).len() as int)),
    decreases v, 0int, 0int,
{
    match v {
        CborS::Uint(n) => lemma_rt_uint(n, rest, fuel),
        CborS::Nint(n) => lemma_rt_nint(n, rest, fuel),
        CborS::Bytes(b) => lemma_rt_val_bytes(b, rest, fuel),
        CborS::Text(b) => lemma_rt_val_text(b, rest, fuel),
        CborS::Array(items) => {
            lemma_rt_array(items, rest, fuel);
        },
        CborS::Dict(ps) => {
            lemma_rt_dict(ps, rest, fuel);
        },
        CborS::Tagged(t) => {
            lemma_rt_tagged(t, rest, fuel);
        },
        CborS::Simple(sv) => {
            lemma_rt_simple(sv, rest, fuel);
        },
    }
}

/// The array case of the round trip.
#[verifier::rlimit(100)]
#[verifier::spinoff_prover]
proof fn lemma_rt_array(items: Seq<CborS>, rest: Seq<u8>, fuel: nat)
    requires
        canonical(CborS::Array(items)),
        fits_depth(CborS::Array(items), fuel),
    ensures
        sd(spec_encode(CborS::Array(items)) + rest, fuel) == Some(
            (CborS::Array(items), spec_encode(CborS::Array(items)).len() as int),
        ),
    decreases items, 2int, 0int,
{
    let v = CborS::Array(items);
    let s = spec_encode(v) + rest;
    let n = items.len() as u64;
    let body = enc_list_from(items, 0);
    lemma_enc_list_to_from(items, items.len() as int);
    assert(enc_list_to(items, items.len() as int) + enc_list_from(items, items.len() as int)
        =~= enc_list_to(items, items.len() as int));
    assert(body == enc_list_to(items, items.len() as int));
    lemma_hdr_inverse(4, n, body + rest);
    assert(s =~= enc_hdr(4, n) + (body + rest));
    let c = hdr_len(n);
    assert(rd_hdr(s) == Some((4u8, info_of(n), n, c)));
    assert(!(info_of(n) is Indefinite));
    assert(fuel >= 1);
    assert(s.skip(c) =~= body + rest);
    lemma_canon_list_iff(items, items.len() as int);
    lemma_fits_list_iff(items, items.len() as int, (fuel - 1) as nat);
    lemma_rt_list(items, 0, rest, (fuel - 1) as nat);
    assert(items.skip(0) =~= items);
}

/// The map case of the round trip.
#[verifier::rlimit(100)]
#[verifier::spinoff_prover]
proof fn lemma_rt_dict(ps: Seq<(KeyS, CborS)>, rest: Seq<u8>, fuel: nat)
    requires
        canonical(CborS::Dict(ps)),
        fits_depth(CborS::Dict(ps), fuel),
    ensures
        sd(spec_encode(CborS::Dict(ps)) + rest, fuel) == Some(
            (CborS::Dict(ps), spec_encode(CborS::Dict(ps)).len() as int),
        ),
    decreases ps, 2int, 0int,
{
    let v = CborS::Dict(ps);
    let s = spec_encode(v) + rest;
    let n = ps.len() as u64;
    let body = enc_pairs_from(ps, 0);
    lemma_enc_pairs_to_from(ps, ps.len() as int);
    assert(enc_pairs_to(ps, ps.len() as int) + enc_pairs_from(ps, ps.len() as int)
        =~= enc_pairs_to(ps, ps.len() as int));
    assert(body == enc_pairs_to(ps, ps.len() as int));
    lemma_hdr_inverse(5, n, body + rest);
    assert(s =~= enc_hdr(5, n) + (body + rest));
    let c = hdr_len(n);
    assert(rd_hdr(s) == Some((5u8, info_of(n), n, c)));
    assert(!(info_of(n) is Indefinite));
    assert(fuel >= 1);
    assert(s.skip(c) =~= body + rest);
    lemma_canon_pairs_iff(ps, ps.len() as int);
    lemma_fits_pairs_iff(ps, ps.len() as int, (fuel - 1) as nat);
    lemma_rt_pairs(ps, 0, rest, (fuel - 1) as nat);
    assert(ps.skip(0) =~= ps);
    lemma_sorted_no_dup(ps);
}

/// A registered big-integer tag decodes back; `tagnum` selects the sign.
#[verifier::rlimit(100)]
#[verifier::spinoff_prover]
proof fn lemma_rt_big(tagnum: u64, m: Seq<u8>, rest: Seq<u8>, fuel: nat)
    requires
        tagnum == 2 || tagnum == 3,
        m.len() <= u64::MAX,
        fuel >= 1,
    ensures
        sd(enc_hdr(6, tagnum) + enc_hdr(2, m.len() as u64) + m + rest, fuel) == Some(
            (
                CborS::Tagged(
                    if tagnum == 2 {
                        TagS::Ubig(m)
                    } else {
                        TagS::Sbig(m)
                    },
                ),
                1 + hdr_len(m.len() as u64) + m.len(),
            ),
        ),
{
    let s = enc_hdr(6, tagnum) + enc_hdr(2, m.len() as u64) + m + rest;
    lemma_hdr_inverse(6, tagnum, enc_hdr(2, m.len() as u64) + m + rest);
    assert(s =~= enc_hdr(6, tagnum) + (enc_hdr(2, m.len() as u64) + m + rest));
    assert(rd_hdr(s) == Some((6u8, info_of(tagnum), tagnum, 1int)));
    assert(s.skip(1) =~= enc_hdr(2, m.len() as u64) + m + rest);
    lemma_rt_bytes(m, rest, (fuel - 1) as nat);
}

/// The tag case of the round trip.
#[verifier::rlimit(100)]
#[verifier::spinoff_prover]
proof fn lemma_rt_tagged(t: TagS, rest: Seq<u8>, fuel: nat)
    requires
        canonical(CborS::Tagged(t)),
        fits_depth(CborS::Tagged(t), fuel),
    ensures
        sd(spec_encode(CborS::Tagged(t)) + rest, fuel) == Some(
            (CborS::Tagged(t), spec_encode(CborS::Tagged(t)).len() as int),
        ),
    decreases t, 2int, 0int,
{
    let v = CborS::Tagged(t);
    let s = spec_encode(v) + rest;
    match t {
        TagS::Ubig(m) => {
            lemma_rt_big(2, m, rest, fuel);
            assert(s =~= enc_hdr(6, 2) + enc_hdr(2, m.len() as u64) + m + rest);
        },
        TagS::Sbig(m) => {
            lemma_rt_big(3, m, rest, fuel);
            assert(s =~= enc_hdr(6, 3) + enc_hdr(2, m.len() as u64) + m + rest);
        },
        TagS::Any(num, child) => {
            lemma_hdr_inverse(6, num, spec_encode(*child) + rest);
            assert(s =~= enc_hdr(6, num) + (spec_encode(*child) + rest));
            let c = hdr_len(num);
            assert(rd_hdr(s) == Some((6u8, info_of(num), num, c)));
            assert(!(info_of(num) is Indefinite));
            assert(fuel >= 1);
            assert(s.skip(c) =~= spec_encode(*child) + rest);
            lemma_round_trip(*child, rest, (fuel - 1) as nat);
        },
    }
}

/// Round trip for the items of an array body, from item `i` on.
#[verifier::rlimit(100)]
#[verifier::spinoff_prover]
proof fn lemma_rt_list(items: Seq<CborS>, i: int, rest: Seq<u8>, fuel: nat)
    requires
        0 <= i <= items.len(),
        items.len() <= u64::MAX,
        forall|k: int| 0 <= k < items.len() ==> canonical(#[trigger] items[k]),
        forall|k: int| 0 <= k < items.len() ==> fits_depth(#[trigger] items[k], fuel),
    ensures
        sd_list(enc_list_from(items, i) + rest, (items.len() - i) as u64, fuel) == Some(
            (items.skip(i), enc_list_from(items, i).len() as int),
        ),
    decreases items, 1int, items.len() - i,
{
    if i == items.len() {
        assert(enc_list_from(items, i) + rest =~= rest);
        assert(items.skip(i) =~= Seq::<CborS>::empty());
    } else {
        let ev = spec_encode(items[i]);
        let tail = enc_list_from(items, i + 1);
        assert(enc_list_from(items, i) + rest =~= ev + (tail + rest));
        lemma_round_trip(items[i], tail + rest, fuel);
        lemma_spec_encode_len_pos(items[i]);
        let s = enc_list_from(items, i) + rest;
        assert(sd(s, fuel) == Some((items[i], ev.len() as int)));
        assert(ev.len() <= s.len());
        assert(s.skip(ev.len() as int) =~= tail + rest);
        lemma_rt_list(items, i + 1, rest, fuel);
        assert(((items.len() - i) as u64 - 1) as u64 == (items.len() - (i + 1)) as u64);
        assert(seq![items[i]] + items.skip(i + 1) =~= items.skip(i));
    }
}

/// One map entry at the head of the input: its key and then its value
/// decode in turn.
#[verifier::rlimit(100)]
#[verifier::spinoff_prover]
proof fn lemma_rt_pair_head(k: KeyS, v: CborS, tail: Seq<u8>, fuel: nat)
    requires
        key_canonical(k),
        canonical(v),
        fits_depth(v, fuel),
    ensures
        sd(enc_key(k) + spec_encode(v) + tail, fuel) == Some(
            (cbor_of_key(k), enc_key(k).len() as int),
        ),
        key_of(cbor_of_key(k)) == Some(k),
        sd((enc_key(k) + spec_encode(v) + tail).skip(enc_key(k).len() as int), fuel) == Some(
            (v, spec_encode(v).len() as int),
        ),
        (enc_key(k) + spec_encode(v) + tail).skip(
            enc_key(k).len() + spec_encode(v).len() as int,
        ) == tail,
        enc_key(k).len() >= 1,
        spec_encode(v).len() >= 1,
    decreases v, 3int, 0int,
{
    let s = enc_key(k) + spec_encode(v) + tail;
    lemma_rt_key(k, spec_encode(v) + tail, fuel);
    assert(s =~= enc_key(k) + (spec_encode(v) + tail));
    lemma_round_trip(v, tail, fuel);
    lemma_spec_encode_len_pos(v);
    assert(s.skip(enc_key(k).len() as int) =~= spec_encode(v) + tail);
    assert(s.skip(enc_key(k).len() + spec_encode(v).len() as int) =~= tail);
}

/// Round trip for the entries of a map body, from entry `j` on.
#[verifier::rlimit(100)]
#[verifier::spinoff_prover]
proof fn lemma_rt_pairs(ps: Seq<(KeyS, CborS)>, j: int, rest: Seq<u8>, fuel: nat)
    requires
        0 <= j <= ps.len(),
        ps.len() <= u64::MAX,
        forall|k: int| 0 <= k < ps.len() ==> key_canonical((#[trigger] ps[k]).0),
        forall|k: int| 0 <= k < ps.len() ==> canonical((#[trigger] ps[k]).1),
        forall|k: int| 0 <= k < ps.len() ==> fits_depth((#[trigger] ps[k]).1, fuel),
    ensures
        sd_pairs(enc_pairs_from(ps, j) + rest, (ps.len() - j) as u64, fuel) == Some(
            (ps.skip(j), enc_pairs_from(ps, j).len() as int),
        ),
    decreases ps, 1int, ps.len() - j,
{
    if j == ps.len() {
        assert(enc_pairs_from(ps, j) + rest =~= rest);
        assert(ps.skip(j) =~= Seq::<(KeyS, CborS)>::empty());
    } else {
        let ek = enc_key(ps[j].0);
        let ev = spec_encode(ps[j].1);
        let tail = enc_pairs_from(ps, j + 1);
        let s = enc_pairs_from(ps, j) + rest;
        assert(s =~= ek + ev + (tail + rest));
        lemma_rt_pair_head(ps[j].0, ps[j].1, tail + rest, fuel);
        assert(ek.len() + ev.len() <= s.len());
        lemma_rt_pairs(ps, j + 1, rest, fuel);
        assert(((ps.len() - j) as u64 - 1) as u64 == (ps.len() - (j + 1)) as u64);
        assert(seq![(ps[j].0, ps[j].1)] + ps.skip(j + 1) =~= ps.skip(j));
        assert((ps[j].0, ps[j].1) == ps[j]);
    }
}

/// Adjacent map entries never descend in the key order.
pub open spec fn entries_sorted(ps: Seq<(KeyS, CborS)>) -> bool {
    forall|k: int| 1 <= k < ps.len() ==> !key_lt((#[trigger] ps[k]).0, ps[k - 1].0)
}

/// Insertion keeps a run sorted.
proof fn lemma_insert_pair_sorted(p: (KeyS, CborS), s: Seq<(KeyS, CborS)>)
    requires
        entries_sorted(s),
    ensures
        entries_sorted(insert_pair(p, s)),
        insert_pair(p, s).len() == s.len() + 1,
    decreases s.len(),
{
    if s.len() == 0 {
    } else if key_lt(p.0, s[0].0) {
        let r = seq![p] + s;
        assert forall|k: int| 1 <= k < r.len() implies !key_lt((#[trigger] r[k]).0, r[k - 1].0) by {
            if k == 1 {
                lemma_key_lt_irrefl(p.0);
                if key_lt(s[0].0, p.0) {
                    lemma_key_lt_trans(p.0, s[0].0, p.0);
                }
            } else {
                assert(r[k] == s[k - 1] && r[k - 1] == s[k - 2]);
            }
        }
    } else {
        assert(entries_sorted(s.drop_first())) by {
            assert forall|k: int| 1 <= k < s.drop_first().len() implies !key_lt(
                (#[trigger] s.drop_first()[k]).0,
                s.drop_first()[k - 1].0,
            ) by {
                assert(s.drop_first()[k] == s[k + 1] && s.drop_first()[k - 1] == s[k]);
            }
        }
        lemma_insert_pair_sorted(p, s.drop_first());
        let t = insert_pair(p, s.drop_first());
        let r = seq![s[0]] + t;
        assert(insert_pair(p, s) == r);
        assert forall|k: int| 1 <= k < r.len() implies !key_lt((#[trigger] r[k]).0, r[k - 1].0) by {
            if k == 1 {
                if s.drop_first().len() == 0 {
                    assert(r[1] == p);
                } else if key_lt(p.0, s.drop_first()[0].0) {
                    assert(r[1] == p);
                } else {
                    assert(r[1] == s.drop_first()[0]);
                    assert(!key_lt(s[1].0, s[0].0));
                }
            } else {
                assert(r[k] == t[k - 1] && r[k - 1] == t[k - 2]);
            }
        }
    }
}

/// The insertion-sort fold keeps its accumulator sorted.
proof fn lemma_sort_from_sorted(acc: Seq<(KeyS, CborS)>, ps: Seq<(KeyS, CborS)>, i: int)
    requires
        entries_sorted(acc),
    ensures
        entries_sorted(sort_from(acc, ps, i)),
    decreases ps.len() - i,
{
    if 0 <= i < ps.len() {
        lemma_insert_pair_sorted(ps[i], acc);
        lemma_sort_from_sorted(insert_pair(ps[i], acc), ps, i + 1);
    }
}

/// Map canonicalization: however the entries were supplied, the entry run
/// the encoder serializes for a map is sorted in the canonical key order.
pub proof fn lemma_encode_sorts_maps(ps: Seq<(KeyS, CborS)>)
    ensures
        norm(CborS::Dict(ps)) == CborS::Dict(sort_pairs(norm_pairs(ps))),
        entries_sorted(sort_pairs(norm_pairs(ps))),
        spec_encode(norm(CborS::Dict(ps))) == enc_hdr(
            5,
            sort_pairs(norm_pairs(ps)).len() as u64,
        ) + enc_pairs_to(sort_pairs(norm_pairs(ps)), sort_pairs(norm_pairs(ps)).len() as int),
{
    lemma_sort_from_sorted(Seq::empty(), norm_pairs(ps), 0);
}

/// Appending past every key of a sorted run is ordinary insertion at the
/// end.
proof fn lemma_insert_pair_end(p: (KeyS, CborS), s: Seq<(KeyS, CborS)>)
    requires
        forall|k: int| 0 <= k < s.len() ==> key_lt((#[trigger] s[k]).0, p.0),
    ensures
        insert_pair(p, s) == s.push(p),
    decreases s.len(),
{
    if s.len() == 0 {
        assert(insert_pair(p, s) =~= s.push(p));
    } else {
        if key_lt(p.0, s[0].0) {
            lemma_key_lt_trans(s[0].0, p.0, s[0].0);
            lemma_key_lt_irrefl(s[0].0);
        }
        assert forall|k: int| 0 <= k < s.drop_first().len() implies key_lt(
            (#[trigger] s.drop_first()[k]).0,
            p.0,
        ) by {
            assert(s.drop_first()[k] == s[k + 1]);
        }
        lemma_insert_pair_end(p, s.drop_first());
        assert(seq![s[0]] + s.drop_first().push(p) =~= s.push(p));
    }
}

/// Sorting a strictly ascending run leaves it unchanged.
proof fn lemma_sort_sorted_id(ps: Seq<(KeyS, CborS)>, i: int)
    requires
        0 <= i <= ps.len(),
        forall|k: int| 1 <= k < ps.len() ==> key_lt((#[trigger] ps[k - 1]).0, ps[k].0),
    ensures
        sort_from(ps.take(i), ps, i) == ps,
    decreases ps.len() - i,
{
    if i == ps.len() {
        assert(ps.take(i) =~= ps);
    } else {
        assert forall|k: int| 0 <= k < ps.take(i).len() implies key_lt(
            (#[trigger] ps.take(i)[k]).0,
            ps[i].0,
        ) by {
            assert(ps.take(i)[k] == ps[k]);
            lemma_key_chain(ps, k, i);
        }
        lemma_insert_pair_end(ps[i], ps.take(i));
        assert(ps.take(i).push(ps[i]) =~= ps.take(i + 1));
        lemma_sort_sorted_id(ps, i + 1);
    }
}

/// A canonical value is its own canonical form: the encoder serializes it
/// unchanged.
#[verifier::rlimit(100)]
pub proof fn lemma_norm_canonical_id(v: CborS)
    requires
        canonical(v),
    ensures
        norm(v) == v,
    decreases v, 0int, 0int,
{
    match v {
        CborS::Array(items) => {
            lemma_canon_list_iff(items, items.len() as int);
            assert forall|k: int| 0 <= k < items.len() implies norm(#[trigger] items[k])
                == items[k] by {
                lemma_norm_canonical_id(items[k]);
            }
            assert(norm_list(items) =~= items);
        },
        CborS::Dict(ps) => {
            lemma_canon_pairs_iff(ps, ps.len() as int);
            assert forall|k: int| 0 <= k < ps.len() implies norm((#[trigger] ps[k]).1)
                == ps[k].1 by {
                lemma_norm_canonical_id(ps[k].1);
            }
            assert(norm_pairs(ps) =~= ps);
            assert(ps.take(0) =~= Seq::<(KeyS, CborS)>::empty());
            lemma_sort_sorted_id(ps, 0);
            assert(sort_pairs(ps) == ps);
        },
        CborS::Tagged(t) => match t {
            TagS::Any(num, child) => {
                lemma_norm_canonical_id(*child);
                assert(norm(v) == CborS::Tagged(TagS::Any(num, Box::new(norm(*child)))));
            },
            _ => {},
        },
        _ => {},
    }
}

/// Canonical minimality: the encoder gives an integer's numeric argument
/// the narrowest header that represents it exactly, for both integer major
/// types: inline below 24, then the smallest of the 1, 2, 4 or 8 byte
/// widths.
pub proof fn lemma_canonical_minimality(n: u64)
    ensures
        spec_encode(CborS::Uint(n)).len() == hdr_len(n),
        spec_encode(CborS::Nint(n)).len() == hdr_len(n),
        hdr_len(n) == 1 <==> n < 24,
        hdr_len(n) == 2 <==> 24 <= n <= 0xFF,
        hdr_len(n) == 3 <==> 0xFF < n <= 0xFFFF,
        hdr_len(n) == 5 <==> 0xFFFF < n <= 0xFFFF_FFFF,
        hdr_len(n) == 9 <==> 0xFFFF_FFFF < n,
{
    lemma_hdr_inverse(0, n, Seq::empty());
    lemma_hdr_inverse(1, n, Seq::empty());
}

/// Encode is idempotent under decode: decoding canonical bytes and
/// re-encoding what came back yields the same canonical bytes.
pub proof fn lemma_encode_idempotent(v: CborS, fuel: nat)
    requires
        canonical(norm(v)),
        fits_depth(norm(v), fuel),
    ensures
        sd(spec_encode(norm(v)), fuel) matches Some(p) && norm(p.0) == norm(v) && spec_encode(
            norm(p.0),
        ) == spec_encode(norm(v)),
{
    lemma_round_trip(norm(v), Seq::empty(), fuel);
    assert(spec_encode(norm(v)) + Seq::<u8>::empty() =~= spec_encode(norm(v)));
    lemma_norm_canonical_id(norm(v));
}

} // verus!
