//! Encode engine: the canonical byte image of a value, and the recursive
//! serializer that produces it.  Canonicalization happens here, not in
//! decode: integers take the narrowest width that holds them, and map
//! entries are emitted in key order whatever order they were supplied in.
#![allow(unused_imports)]
use vstd::assert_by_contradiction;
use vstd::prelude::*;

use crate::cbor::{key_lt, key_rank, lemma_wf_list_iff, lemma_wf_pairs_iff, seq_lex_lt, str_key_lt, view_cbor, view_key, view_list, view_pairs, wf, wf_list, wf_pairs};
use crate::cbor::{Cbor, CborS, Key, KeyS, SimpleValue, Tag, TagS};
use crate::hdr::{be16, be32, be64, enc_hdr, hdr_byte, write_header};
use crate::Error;

verus! {

broadcast use vstd::std_specs::vec::group_vec_axioms;

/// Byte image of a map key.
pub open spec fn enc_key(k: KeyS) -> Seq<u8> {
    match k {
        KeyS::U64(n) => enc_hdr(0, n),
        KeyS::N64(n) => enc_hdr(1, n),
        KeyS::Bytes(b) => enc_hdr(2, b.len() as u64) + b,
        KeyS::Text(b) => enc_hdr(3, b.len() as u64) + b,
        KeyS::Bool(x) => if x {
            seq![0xF5u8]
        } else {
            seq![0xF4u8]
        },
    }
}

/// Byte image of a simple value: the named codes, one-byte simple codes
/// (inline below 24, behind selector 24 from 32 up), and the three float
/// widths at their stored width.
pub open spec fn enc_simple(sv: SimpleValue) -> Seq<u8> {
    match sv {
        SimpleValue::False => seq![0xF4u8],
        SimpleValue::True => seq![0xF5u8],
        SimpleValue::Null => seq![0xF6u8],
        SimpleValue::Undefined => seq![0xF7u8],
        SimpleValue::Code(c) => if c < 24 {
            seq![hdr_byte(7, c)]
        } else {
            seq![0xF8u8, c]
        },
        SimpleValue::F16(x) => seq![0xF9u8] + be16(x as u64),
        SimpleValue::F32(x) => seq![0xFAu8] + be32(x as u64),
        SimpleValue::F64(x) => seq![0xFBu8] + be64(x),
    }
}

/// Byte image of the first `i` items of an array body.
pub open spec fn enc_list_to(items: Seq<CborS>, i: int) -> Seq<u8>
    decreases items, 1int, i,
{
    if i <= 0 || i > items.len() {
        Seq::empty()
    } else {
        enc_list_to(items, i - 1) + spec_encode(items[i - 1])
    }
}

/// Byte image of the first `j` entries of a map body, in the order given.
pub open spec fn enc_pairs_to(ps: Seq<(KeyS, CborS)>, j: int) -> Seq<u8>
    decreases ps, 1int, j,
{
    if j <= 0 || j > ps.len() {
        Seq::empty()
    } else {
        enc_pairs_to(ps, j - 1) + enc_key(ps[j - 1].0) + spec_encode(ps[j - 1].1)
    }
}

/// The canonical byte image of a value whose maps are already in key order
/// (see [`norm`]): a minimal-width header followed by the payload, with
/// arrays and maps prefixed by their entry count and big integers framed as
/// a tag around a byte string.
pub open spec fn spec_encode(v: CborS) -> Seq<u8>
    decreases v, 0int, 0int,
{
    match v {
        CborS::Uint(n) => enc_hdr(0, n),
        CborS::Nint(n) => enc_hdr(1, n),
        CborS::Bytes(b) => enc_hdr(2, b.len() as u64) + b,
        CborS::Text(b) => enc_hdr(3, b.len() as u64) + b,
        CborS::Array(items) => enc_hdr(4, items.len() as u64) + enc_list_to(
            items,
            items.len() as int,
        ),
        CborS::Dict(ps) => enc_hdr(5, ps.len() as u64) + enc_pairs_to(ps, ps.len() as int),
        CborS::Tagged(t) => match t {
            TagS::Ubig(m) => enc_hdr(6, 2) + enc_hdr(2, m.len() as u64) + m,
            TagS::Sbig(m) => enc_hdr(6, 3) + enc_hdr(2, m.len() as u64) + m,
            TagS::Any(num, child) => enc_hdr(6, num) + spec_encode(*child),
        },
        CborS::Simple(sv) => enc_simple(sv),
    }
}

/// Insertion of one entry into a key-ordered run: `p` goes in front of the
/// first entry whose key it precedes.
pub open spec fn insert_pair(p: (KeyS, CborS), s: Seq<(KeyS, CborS)>) -> Seq<(KeyS, CborS)>
    decreases s.len(),
{
    if s.len() == 0 {
        seq![p]
    } else if key_lt(p.0, s[0].0) {
        seq![p] + s
    } else {
        seq![s[0]] + insert_pair(p, s.drop_first())
    }
}

/// Insertion sort of map entries by key, folded left over `ps` from `i`.
pub open spec fn sort_from(acc: Seq<(KeyS, CborS)>, ps: Seq<(KeyS, CborS)>, i: int) -> Seq<
    (KeyS, CborS),
>
    decreases ps.len() - i,
{
    if i < 0 || i >= ps.len() {
        acc
    } else {
        sort_from(insert_pair(ps[i], acc), ps, i + 1)
    }
}

/// Map entries rearranged into the canonical key order.
pub open spec fn sort_pairs(ps: Seq<(KeyS, CborS)>) -> Seq<(KeyS, CborS)> {
    sort_from(Seq::empty(), ps, 0)
}

/// Pointwise [`norm`] over array items.
pub open spec fn norm_list(items: Seq<CborS>) -> Seq<CborS>
    decreases items,
{
    Seq::new(
        items.len(),
        |i: int|
            if 0 <= i < items.len() {
                norm(items[i])
            } else {
                CborS::Simple(SimpleValue::Null)
            },
    )
}

/// Pointwise [`norm`] over map entry values.
pub open spec fn norm_pairs(ps: Seq<(KeyS, CborS)>) -> Seq<(KeyS, CborS)>
    decreases ps,
{
    Seq::new(
        ps.len(),
        |i: int|
            if 0 <= i < ps.len() {
                (ps[i].0, norm(ps[i].1))
            } else {
                (KeyS::Bool(false), CborS::Simple(SimpleValue::Null))
            },
    )
}

/// The canonical form of a value: the same tree with every map's entries in
/// key order.  Encoding always serializes the canonical form.
pub open spec fn norm(v: CborS) -> CborS
    decreases v,
{
    match v {
        CborS::Array(items) => CborS::Array(norm_list(items)),
        CborS::Dict(ps) => CborS::Dict(sort_pairs(norm_pairs(ps))),
        CborS::Tagged(t) => CborS::Tagged(
            match t {
                TagS::Any(num, child) => TagS::Any(num, Box::new(norm(*child))),
                other => other,
            },
        ),
        other => other,
    }
}

/// Inserting at the position found by a linear scan is [`insert_pair`].
pub proof fn lemma_insert_pair_at(p: (KeyS, CborS), s: Seq<(KeyS, CborS)>, j: int)
    requires
        0 <= j <= s.len(),
        forall|k: int| 0 <= k < j ==> !key_lt(p.0, (#[trigger] s[k]).0),
        j < s.len() ==> key_lt(p.0, s[j].0),
    ensures
        insert_pair(p, s) == s.insert(j, p),
    decreases s.len(),
{
    if s.len() == 0 {
        assert(insert_pair(p, s) =~= s.insert(0, p));
    } else if key_lt(p.0, s[0].0) {
        assert(j == 0);
        assert(insert_pair(p, s) =~= s.insert(0, p));
    } else {
        assert(j >= 1);
        lemma_insert_pair_at(p, s.drop_first(), j - 1);
        assert(seq![s[0]] + s.drop_first().insert(j - 1, p) =~= s.insert(j, p));
    }
}

/// Compares two byte vectors in the string-key order: shorter first, equal
/// lengths lexicographically.
fn str_key_lt_exec(a: &Vec<u8>, b: &Vec<u8>) -> (r: bool)
    ensures
        r == str_key_lt(a@, b@),
{
    if a.len() < b.len() {
        return true;
    }
    if a.len() > b.len() {
        return false;
    }
    let n = a.len();
    let mut i: usize = 0;
    proof {
        assert(a@.skip(0) =~= a@);
        assert(b@.skip(0) =~= b@);
    }
    while i < n
        invariant
            a@.len() == n,
            b@.len() == n,
            0 <= i <= n,
            seq_lex_lt(a@, b@) == seq_lex_lt(a@.skip(i as int), b@.skip(i as int)),
            forall|k: int| 0 <= k < i ==> a@[k] == b@[k],
        decreases n - i,
    {
        let x = a[i];
        let y = b[i];
        if x < y {
            assert(seq_lex_lt(a@.skip(i as int), b@.skip(i as int)));
            return true;
        }
        if x > y {
            assert(!seq_lex_lt(a@.skip(i as int), b@.skip(i as int)));
            return false;
        }
        proof {
            assert(a@.skip(i as int).drop_first() =~= a@.skip(i + 1));
            assert(b@.skip(i as int).drop_first() =~= b@.skip(i + 1));
        }
        i = i + 1;
    }
    assert(a@.skip(n as int).len() == 0);
    false
}

/// Compares two keys in the canonical key order [`key_lt`].
pub fn key_lt_exec(a: &Key, b: &Key) -> (r: bool)
    ensures
        r == key_lt(a@, b@),
{
    match (a, b) {
        (Key::U64(x), Key::U64(y)) => *x < *y,
        (Key::N64(x), Key::N64(y)) => *x < *y,
        (Key::Bytes(x), Key::Bytes(y)) => str_key_lt_exec(x, y),
        (Key::Text(x), Key::Text(y)) => str_key_lt_exec(x, y),
        (Key::Bool(x), Key::Bool(y)) => !*x && *y,
        _ => {
            let ra = key_rank_exec(a);
            let rb = key_rank_exec(b);
            ra < rb
        },
    }
}

fn key_rank_exec(k: &Key) -> (r: u8)
    ensures
        r as int == key_rank(k@),
{
    match k {
        Key::U64(_) => 0,
        Key::N64(_) => 1,
        Key::Bytes(_) => 2,
        Key::Text(_) => 3,
        Key::Bool(_) => 4,
    }
}

/// Appends a payload verbatim.
fn push_bytes(buf: &mut Vec<u8>, b: &Vec<u8>)
    ensures
        final(buf)@ == old(buf)@ + b@,
{
    let n = b.len();
    let mut i: usize = 0;
    while i < n
        invariant
            n == b@.len(),
            0 <= i <= n,
            buf@ == old(buf)@ + b@.take(i as int),
        decreases n - i,
    {
        buf.push(b[i]);
        proof {
            assert(old(buf)@ + b@.take(i as int) + seq![b@[i as int]] =~= old(buf)@ + b@.take(
                i + 1,
            ));
        }
        i = i + 1;
    }
    proof {
        assert(b@.take(n as int) =~= b@);
    }
}

/// Appends the encoding of a map key.
fn encode_key(k: &Key, buf: &mut Vec<u8>)
    ensures
        final(buf)@ == old(buf)@ + enc_key(k@),
{
    match k {
        Key::U64(n) => write_header(buf, 0, *n),
        Key::N64(n) => write_header(buf, 1, *n),
        Key::Bytes(b) => {
            write_header(buf, 2, b.len() as u64);
            push_bytes(buf, b);
        },
        Key::Text(b) => {
            write_header(buf, 3, b.len() as u64);
            push_bytes(buf, b);
        },
        Key::Bool(x) => {
            if *x {
                buf.push(0xF5);
            } else {
                buf.push(0xF4);
            }
            proof {
                assert(buf@ =~= old(buf)@ + enc_key(k@));
            }
        },
    }
}

/// Appends the encoding of a simple value.
fn encode_simple(sv: &SimpleValue, buf: &mut Vec<u8>)
    requires
        match *sv {
            SimpleValue::Code(c) => c <= 19 || c >= 32,
            _ => true,
        },
    ensures
        final(buf)@ == old(buf)@ + enc_simple(*sv),
{
    match sv {
        SimpleValue::False => buf.push(0xF4),
        SimpleValue::True => buf.push(0xF5),
        SimpleValue::Null => buf.push(0xF6),
        SimpleValue::Undefined => buf.push(0xF7),
        SimpleValue::Code(c) => {
            if *c < 24 {
                buf.push(224 + *c);
            } else {
                buf.push(0xF8);
                buf.push(*c);
            }
        },
        SimpleValue::F16(x) => {
            let x = *x;
            buf.push(0xF9);
            buf.push((x >> 8) as u8);
            buf.push(x as u8);
            proof {
                assert((x >> 8) as u8 == (((x as u64) >> 8) & 0xFF) as u8 && x as u8 == ((
                x as u64) & 0xFF) as u8) by (bit_vector);
            }
        },
        SimpleValue::F32(x) => {
            let x = *x;
            buf.push(0xFA);
            buf.push((x >> 24) as u8);
            buf.push((x >> 16) as u8);
            buf.push((x >> 8) as u8);
            buf.push(x as u8);
            proof {
                assert((x >> 24) as u8 == (((x as u64) >> 24) & 0xFF) as u8 && (x >> 16) as u8
                    == (((x as u64) >> 16) & 0xFF) as u8 && (x >> 8) as u8 == (((x as u64) >> 8)
                    & 0xFF) as u8 && x as u8 == ((x as u64) & 0xFF) as u8) by (bit_vector);
            }
        },
        SimpleValue::F64(x) => {
            let x = *x;
            buf.push(0xFB);
            buf.push((x >> 56) as u8);
            buf.push((x >> 48) as u8);
            buf.push((x >> 40) as u8);
            buf.push((x >> 32) as u8);
            buf.push((x >> 24) as u8);
            buf.push((x >> 16) as u8);
            buf.push((x >> 8) as u8);
            buf.push(x as u8);
            proof {
                assert((x >> 56) as u8 == ((x >> 56) & 0xFF) as u8 && (x >> 48) as u8 == ((x
                    >> 48) & 0xFF) as u8 && (x >> 40) as u8 == ((x >> 40) & 0xFF) as u8 && (x
                    >> 32) as u8 == ((x >> 32) & 0xFF) as u8 && (x >> 24) as u8 == ((x >> 24)
                    & 0xFF) as u8 && (x >> 16) as u8 == ((x >> 16) & 0xFF) as u8 && (x >> 8) as u8
                    == ((x >> 8) & 0xFF) as u8 && x as u8 == (x & 0xFF) as u8) by (bit_vector);
            }
        },
    }
    proof {
        assert(buf@ =~= old(buf)@ + enc_simple(*sv));
    }
}

impl Cbor {
    /// Whether the encoder accepts this value: true unless a simple code
    /// 20-31 occurs somewhere in the tree.
    #[verifier::loop_isolation(false)]
    pub fn check_wf(&self) -> (r: bool)
        ensures
            r == wf(self@),
        decreases *self,
    {
        match self {
            Cbor::Major4(items) => {
                let n = items.len();
                let mut i: usize = 0;
                while i < n
                    invariant
                        n == items@.len(),
                        0 <= i <= n,
                        forall|k: int| 0 <= k < i ==> wf(#[trigger] view_cbor(items@[k])),
                    decreases n - i,
                {
                    if !items[i].check_wf() {
                        proof {
                            let s = view_list(items@);
                            assert(self@ == CborS::Array(s));
                            assert(s[i as int] == view_cbor(items@[i as int]));
                            lemma_wf_list_iff(s, s.len() as int);
                        }
                        return false;
                    }
                    i = i + 1;
                }
                proof {
                    let s = view_list(items@);
                    assert(self@ == CborS::Array(s));
                    assert forall|k: int| 0 <= k < s.len() implies wf(#[trigger] s[k]) by {
                        assert(s[k] == view_cbor(items@[k]));
                    }
                    lemma_wf_list_iff(s, s.len() as int);
                }
                true
            },
            Cbor::Major5(pairs) => {
                let n = pairs.len();
                let mut i: usize = 0;
                while i < n
                    invariant
                        n == pairs@.len(),
                        0 <= i <= n,
                        forall|k: int| 0 <= k < i ==> wf(#[trigger] view_cbor(pairs@[k].1)),
                    decreases n - i,
                {
                    if !pairs[i].1.check_wf() {
                        proof {
                            let s = view_pairs(pairs@);
                            assert(self@ == CborS::Dict(s));
                            assert(s[i as int].1 == view_cbor(pairs@[i as int].1));
                            lemma_wf_pairs_iff(s, s.len() as int);
                        }
                        return false;
                    }
                    i = i + 1;
                }
                proof {
                    let s = view_pairs(pairs@);
                    assert(self@ == CborS::Dict(s));
                    assert forall|k: int| 0 <= k < s.len() implies wf((#[trigger] s[k]).1) by {
                        assert(s[k].1 == view_cbor(pairs@[k].1));
                    }
                    lemma_wf_pairs_iff(s, s.len() as int);
                }
                true
            },
            Cbor::Major6(t) => match t {
                Tag::Any(_, child) => child.check_wf(),
                _ => true,
            },
            Cbor::Major7(sv) => match sv {
                SimpleValue::Code(c) => *c <= 19 || *c >= 32,
                _ => true,
            },
            _ => true,
        }
    }

    /// Appends the canonical encoding of a well-formed value.
    #[verifier::loop_isolation(false)]
    #[verifier::rlimit(60)]
    fn encode_into(&self, buf: &mut Vec<u8>)
        requires
            wf(self@),
        ensures
            final(buf)@ == old(buf)@ + spec_encode(norm(self@)),
        decreases *self,
    {
        match self {
            Cbor::Major0(n) => write_header(buf, 0, *n),
            Cbor::Major1(n) => write_header(buf, 1, *n),
            Cbor::Major2(b) => {
                write_header(buf, 2, b.len() as u64);
                push_bytes(buf, b);
            },
            Cbor::Major3(b) => {
                write_header(buf, 3, b.len() as u64);
                push_bytes(buf, b);
            },
            Cbor::Major4(items) => {
                let ghost vs = norm_list(view_list(items@));
                proof {
                    assert(self@ == CborS::Array(view_list(items@)));
                    assert(norm(self@) == CborS::Array(vs));
                }
                let n = items.len();
                write_header(buf, 4, n as u64);
                let ghost b0 = buf@;
                let mut i: usize = 0;
                while i < n
                    invariant
                        n == items@.len(),
                        vs.len() == n,
                        0 <= i <= n,
                        wf(self@),
                        self@ == view_cbor(*self),
                        *self matches Cbor::Major4(itemsx) && itemsx@ == items@,
                        forall|k: int|
                            0 <= k < n ==> vs[k] == norm(view_cbor(items@[k])),
                        buf@ == b0 + enc_list_to(vs, i as int),
                    decreases n - i,
                {
                    proof {
                        lemma_wf_list_iff(view_list(items@), view_list(items@).len() as int);
                        assert(wf(view_list(items@)[i as int]));
                        assert(view_list(items@)[i as int] == view_cbor(items@[i as int]));
                        assert(vs[i as int] == norm(view_cbor(items@[i as int])));
                    }
                    items[i].encode_into(buf);
                    proof {
                        assert(b0 + enc_list_to(vs, i as int) + spec_encode(vs[i as int]) =~= b0
                            + enc_list_to(vs, i + 1));
                    }
                    i = i + 1;
                }
                proof {
                    assert(buf@ =~= old(buf)@ + spec_encode(norm(self@)));
                }
            },
            Cbor::Major5(pairs) => {
                let ghost mapped = norm_pairs(view_pairs(pairs@));
                proof {
                    assert(self@ == CborS::Dict(view_pairs(pairs@)));
                    assert(norm(self@) == CborS::Dict(sort_pairs(mapped)));
                    assert forall|k: int| 0 <= k < mapped.len() implies #[trigger] mapped[k] == (
                        view_key(pairs@[k].0),
                        norm(view_cbor(pairs@[k].1)),
                    ) by {
                        assert(view_pairs(pairs@)[k] == (view_key(pairs@[k].0), view_cbor(
                            pairs@[k].1,
                        )));
                    }
                }
                let n = pairs.len();
                // Phase one: an insertion sort over entry indices, mirroring
                // the specification's left fold of insert_pair.
                let mut perm: Vec<usize> = Vec::new();
                let ghost mut acc = Seq::<(KeyS, CborS)>::empty();
                let mut i: usize = 0;
                while i < n
                    invariant
                        n == pairs@.len(),
                        mapped.len() == n,
                        0 <= i <= n,
                        forall|k: int|
                            0 <= k < n ==> mapped[k] == (
                                view_key(pairs@[k].0),
                                norm(view_cbor(pairs@[k].1)),
                            ),
                        perm@.len() == i,
                        acc.len() == i,
                        forall|j: int| 0 <= j < i ==> (#[trigger] perm@[j]) < n,
                        forall|j: int|
                            0 <= j < i ==> acc[j] == mapped[#[trigger] perm@[j] as int],
                        sort_pairs(mapped) == sort_from(acc, mapped, i as int),
                    decreases n - i,
                {
                    let mut j: usize = 0;
                    let mut stop = false;
                    while !stop
                        invariant
                            n == pairs@.len(),
                            mapped.len() == n,
                            0 <= i < n,
                            forall|k: int|
                                0 <= k < n ==> mapped[k] == (
                                    view_key(pairs@[k].0),
                                    norm(view_cbor(pairs@[k].1)),
                                ),
                            perm@.len() == i,
                            acc.len() == i,
                            forall|k: int| 0 <= k < i ==> (#[trigger] perm@[k]) < n,
                            forall|k: int|
                                0 <= k < i ==> acc[k] == mapped[#[trigger] perm@[k] as int],
                            0 <= j <= i,
                            forall|k: int|
                                0 <= k < j ==> !key_lt(mapped[i as int].0, (#[trigger] acc[k]).0),
                            stop ==> (j == i || key_lt(mapped[i as int].0, acc[j as int].0)),
                        decreases i - j + (if stop {
                            0int
                        } else {
                            1int
                        }),
                    {
                        if j == perm.len() {
                            stop = true;
                        } else {
                            let idx = perm[j];
                            if key_lt_exec(&pairs[i].0, &pairs[idx].0) {
                                stop = true;
                            } else {
                                j = j + 1;
                            }
                        }
                    }
                    perm.insert(j, i);
                    proof {
                        lemma_insert_pair_at(mapped[i as int], acc, j as int);
                        acc = insert_pair(mapped[i as int], acc);
                        assert forall|k: int| 0 <= k < i + 1 implies #[trigger] acc[k] == mapped[(
                        perm@[k]) as int] by {
                            if k < j {
                            } else if k == j {
                            } else {
                            }
                        }
                    }
                    i = i + 1;
                }
                let ghost spairs = sort_pairs(mapped);
                proof {
                    assert(spairs == acc);
                }
                // Phase two: emit the entries in sorted order.
                write_header(buf, 5, n as u64);
                let ghost b0 = buf@;
                let mut j: usize = 0;
                while j < n
                    invariant
                        n == pairs@.len(),
                        mapped.len() == n,
                        spairs.len() == n,
                        0 <= j <= n,
                        wf(self@),
                        self@ == view_cbor(*self),
                        *self matches Cbor::Major5(px) && px@ == pairs@,
                        forall|k: int|
                            0 <= k < n ==> mapped[k] == (
                                view_key(pairs@[k].0),
                                norm(view_cbor(pairs@[k].1)),
                            ),
                        perm@.len() == n,
                        forall|k: int| 0 <= k < n ==> (#[trigger] perm@[k]) < n,
                        forall|k: int|
                            0 <= k < n ==> spairs[k] == mapped[#[trigger] perm@[k] as int],
                        buf@ == b0 + enc_pairs_to(spairs, j as int),
                    decreases n - j,
                {
                    let idx = perm[j];
                    encode_key(&pairs[idx].0, buf);
                    proof {
                        lemma_wf_pairs_iff(view_pairs(pairs@), view_pairs(pairs@).len() as int);
                        assert(wf(view_pairs(pairs@)[idx as int].1));
                        assert(view_pairs(pairs@)[idx as int].1 == view_cbor(
                            pairs@[idx as int].1,
                        ));
                        assert(spairs[j as int] == mapped[idx as int]);
                    }
                    pairs[idx].1.encode_into(buf);
                    proof {
                        assert(b0 + enc_pairs_to(spairs, j as int) + enc_key(
                            spairs[j as int].0,
                        ) + spec_encode(spairs[j as int].1) =~= b0 + enc_pairs_to(
                            spairs,
                            j + 1,
                        ));
                    }
                    j = j + 1;
                }
                proof {
                    assert(buf@ =~= old(buf)@ + spec_encode(norm(self@)));
                }
            },
            Cbor::Major6(t) => match t {
                Tag::Ubig(m) => {
                    write_header(buf, 6, 2);
                    write_header(buf, 2, m.len() as u64);
                    push_bytes(buf, m);
                    proof {
                        assert(buf@ =~= old(buf)@ + spec_encode(norm(self@)));
                    }
                },
                Tag::Sbig(m) => {
                    write_header(buf, 6, 3);
                    write_header(buf, 2, m.len() as u64);
                    push_bytes(buf, m);
                    proof {
                        assert(buf@ =~= old(buf)@ + spec_encode(norm(self@)));
                    }
                },
                Tag::Any(num, child) => {
                    write_header(buf, 6, *num);
                    proof {
                        assert(self@ == CborS::Tagged(
                            TagS::Any(*num, Box::new(view_cbor(**child))),
                        ));
                    }
                    child.encode_into(buf);
                    proof {
                        assert(buf@ =~= old(buf)@ + spec_encode(norm(self@)));
                    }
                },
            },
            Cbor::Major7(sv) => {
                encode_simple(sv, buf);
            },
        }
    }

    /// Serializes the value to its canonical byte encoding: minimal-width
    /// integer headers, map entries in key order.  Total for every
    /// well-formed value; the only rejected inputs are trees holding a
    /// simple code 20-31, whose encodings are reserved by the wire format.
    /// On failure no partial output is surfaced.
    pub fn encode(&self) -> (r: Result<Vec<u8>, Error>)
        ensures
            match r {
                Ok(b) => wf(self@) && b@ == spec_encode(norm(self@)),
                Err(_) => !wf(self@),
            },
    {
        if !self.check_wf() {
            return Err(
                Error::FailConvert(
                    String::from_str("cbor::encode"),
                    String::from_str("simple code 20-31 is not encodable"),
                ),
            );
        }
        let mut buf: Vec<u8> = Vec::new();
        self.encode_into(&mut buf);
        Ok(buf)
    }
}

} // verus!
