//! The value model: a closed tagged union with one variant per major type,
//! its mathematical view, well-formedness, canonicality, nesting depth, and
//! the total order over map keys.
#![allow(unused_imports)]
use vstd::prelude::*;
use vstd::utf8::valid_utf8;

verus! {

broadcast use vstd::std_specs::vec::group_vec_axioms;

/// Fixed process-wide maximum nesting depth for decoding: every descent into
/// an array, map or tag increments the running depth, and a decode that would
/// exceed this bound fails with a malformed-encoding error.
pub const RECURSION_LIMIT: u32 = 1000;

/// The additional-info selector carried by the five low bits of a header
/// byte: an inline tiny value (0-23), one of four extension widths, a
/// reserved code (28-30), or the indefinite-length marker (31).
#[derive(Clone, Copy, Debug, PartialEq, Eq, Structural)]
pub enum Info {
    /// Inline value 0-23.
    Tiny(u8),
    /// The next byte holds the value.
    U8,
    /// The next 2 bytes hold the value, big-endian.
    U16,
    /// The next 4 bytes hold the value, big-endian.
    U32,
    /// The next 8 bytes hold the value, big-endian.
    U64,
    /// Reserved code 28: always a decode failure.
    Reserved28,
    /// Reserved code 29: always a decode failure.
    Reserved29,
    /// Reserved code 30: always a decode failure.
    Reserved30,
    /// Indefinite-length marker, legal only for strings, arrays and maps.
    Indefinite,
}

/// Major-type-7 payload: booleans, null, undefined, other one-byte simple
/// codes, and the three floating-point widths carried as IEEE bit patterns.
#[derive(Clone, Copy, Debug, PartialEq, Eq, Structural)]
pub enum SimpleValue {
    False,
    True,
    Null,
    Undefined,
    /// A simple code other than 20-23; codes 24-31 are not encodable.
    Code(u8),
    /// IEEE binary16 bit pattern.
    F16(u16),
    /// IEEE binary32 bit pattern.
    F32(u32),
    /// IEEE binary64 bit pattern.
    F64(u64),
}

/// A tagged extension value: the two registered big-integer tags carry their
/// big-endian magnitude directly, and any other tag number carries one
/// arbitrary nested value.
#[derive(Debug, PartialEq, Eq)]
pub enum Tag {
    /// Tag 2: a non-negative integer, big-endian magnitude.
    Ubig(Vec<u8>),
    /// Tag 3: the negative integer `-1 - magnitude`, big-endian magnitude.
    Sbig(Vec<u8>),
    /// Any other tag number with its nested value.
    Any(u64, Box<Cbor>),
}

/// The restriction of [`Cbor`] to values legal as map keys.  Negative
/// integers are stored as the non-negative magnitude `n` of the value
/// `-1 - n`, exactly as they travel on the wire.
#[derive(Debug, PartialEq, Eq)]
pub enum Key {
    /// Unsigned integer key (major type 0).
    U64(u64),
    /// Negative integer key `-1 - n` (major type 1).
    N64(u64),
    /// Byte-string key (major type 2).
    Bytes(Vec<u8>),
    /// Text-string key, UTF-8 bytes (major type 3).
    Text(Vec<u8>),
    /// Boolean key (major type 7).
    Bool(bool),
}

/// The value model: one variant per major type.  Negative integers are
/// stored as the magnitude `n` of the value `-1 - n`; text strings are
/// stored as their UTF-8 bytes.
#[derive(Debug, PartialEq, Eq)]
pub enum Cbor {
    /// Major type 0: unsigned integer.
    Major0(u64),
    /// Major type 1: negative integer `-1 - n`.
    Major1(u64),
    /// Major type 2: byte string.
    Major2(Vec<u8>),
    /// Major type 3: text string (UTF-8 bytes).
    Major3(Vec<u8>),
    /// Major type 4: array of values, order significant.
    Major4(Vec<Cbor>),
    /// Major type 5: map of key-value pairs.
    Major5(Vec<(Key, Cbor)>),
    /// Major type 6: tagged extension value.
    Major6(Tag),
    /// Major type 7: simple values and floats.
    Major7(SimpleValue),
}

/// Mathematical view of [`Key`].
#[verifier::ext_equal]
pub enum KeyS {
    U64(u64),
    N64(u64),
    Bytes(Seq<u8>),
    Text(Seq<u8>),
    Bool(bool),
}

/// Mathematical view of [`Tag`].
#[verifier::ext_equal]
pub enum TagS {
    Ubig(Seq<u8>),
    Sbig(Seq<u8>),
    Any(u64, Box<CborS>),
}

/// Mathematical view of [`Cbor`]: the same tree over `Seq` instead of `Vec`.
#[verifier::ext_equal]
pub enum CborS {
    Uint(u64),
    Nint(u64),
    Bytes(Seq<u8>),
    Text(Seq<u8>),
    Array(Seq<CborS>),
    Dict(Seq<(KeyS, CborS)>),
    Tagged(TagS),
    Simple(SimpleValue),
}

pub open spec fn view_key(k: Key) -> KeyS {
    match k {
        Key::U64(n) => KeyS::U64(n),
        Key::N64(n) => KeyS::N64(n),
        Key::Bytes(b) => KeyS::Bytes(b@),
        Key::Text(b) => KeyS::Text(b@),
        Key::Bool(x) => KeyS::Bool(x),
    }
}

impl View for Key {
    type V = KeyS;

    open spec fn view(&self) -> KeyS {
        view_key(*self)
    }
}

pub open spec fn view_list(s: Seq<Cbor>) -> Seq<CborS>
    decreases s,
{
    Seq::new(
        s.len(),
        |i: int|
            if 0 <= i < s.len() {
                view_cbor(s[i])
            } else {
                CborS::Simple(SimpleValue::Null)
            },
    )
}

pub open spec fn view_pairs(s: Seq<(Key, Cbor)>) -> Seq<(KeyS, CborS)>
    decreases s,
{
    Seq::new(
        s.len(),
        |i: int|
            if 0 <= i < s.len() {
                (view_key(s[i].0), view_cbor(s[i].1))
            } else {
                (KeyS::Bool(false), CborS::Simple(SimpleValue::Null))
            },
    )
}

pub open spec fn view_cbor(c: Cbor) -> CborS
    decreases c,
{
    match c {
        Cbor::Major0(n) => CborS::Uint(n),
        Cbor::Major1(n) => CborS::Nint(n),
        Cbor::Major2(b) => CborS::Bytes(b@),
        Cbor::Major3(b) => CborS::Text(b@),
        Cbor::Major4(items) => CborS::Array(view_list(items@)),
        Cbor::Major5(pairs) => CborS::Dict(view_pairs(pairs@)),
        Cbor::Major6(t) => CborS::Tagged(
            match t {
                Tag::Ubig(m) => TagS::Ubig(m@),
                Tag::Sbig(m) => TagS::Sbig(m@),
                Tag::Any(n, child) => TagS::Any(n, Box::new(view_cbor(*child))),
            },
        ),
        Cbor::Major7(sv) => CborS::Simple(sv),
    }
}

impl View for Cbor {
    type V = CborS;

    open spec fn view(&self) -> CborS {
        view_cbor(*self)
    }
}

impl View for Tag {
    type V = TagS;

    open spec fn view(&self) -> TagS {
        match *self {
            Tag::Ubig(m) => TagS::Ubig(m@),
            Tag::Sbig(m) => TagS::Sbig(m@),
            Tag::Any(n, child) => TagS::Any(n, Box::new(view_cbor(*child))),
        }
    }
}

/// Appending one element extends the viewed list pointwise.
pub proof fn lemma_view_list_push(items: Seq<Cbor>, v: Cbor)
    ensures
        view_list(items.push(v)) == view_list(items).push(view_cbor(v)),
{
    assert(view_list(items.push(v)) =~= view_list(items).push(view_cbor(v)));
}

/// Appending one entry extends the viewed entry list pointwise.
pub proof fn lemma_view_pairs_push(ps: Seq<(Key, Cbor)>, k: Key, v: Cbor)
    ensures
        view_pairs(ps.push((k, v))) == view_pairs(ps).push((view_key(k), view_cbor(v))),
{
    assert(view_pairs(ps.push((k, v))) =~= view_pairs(ps).push((view_key(k), view_cbor(v))));
}

/// Rank of a key's major type in the canonical key order.
pub open spec fn key_rank(k: KeyS) -> int {
    match k {
        KeyS::U64(_) => 0,
        KeyS::N64(_) => 1,
        KeyS::Bytes(_) => 2,
        KeyS::Text(_) => 3,
        KeyS::Bool(_) => 4,
    }
}

/// Lexicographic order over equal-length byte sequences.
pub open spec fn seq_lex_lt(a: Seq<u8>, b: Seq<u8>) -> bool
    decreases a.len(),
{
    if b.len() == 0 {
        false
    } else if a.len() == 0 {
        true
    } else if a[0] < b[0] {
        true
    } else if a[0] > b[0] {
        false
    } else {
        seq_lex_lt(a.drop_first(), b.drop_first())
    }
}

/// String keys order: shorter strings sort earlier, equal lengths
/// lexicographically.
pub open spec fn str_key_lt(a: Seq<u8>, b: Seq<u8>) -> bool {
    a.len() < b.len() || (a.len() == b.len() && seq_lex_lt(a, b))
}

/// The total order over map keys used for canonical map serialization:
/// first by major-type rank, then within a rank by value.  Unsigned keys
/// order by value; negative keys by magnitude ascending, so `-1` sorts
/// before `-2` (the byte order of their encodings); strings shorter-first
/// then lexicographically; `false` before `true`.  Distinct ranks never
/// tie, so an unsigned key and a negative key are always distinct keys.
pub open spec fn key_lt(a: KeyS, b: KeyS) -> bool {
    key_rank(a) < key_rank(b) || (key_rank(a) == key_rank(b) && match (a, b) {
        (KeyS::U64(x), KeyS::U64(y)) => x < y,
        (KeyS::N64(x), KeyS::N64(y)) => x < y,
        (KeyS::Bytes(x), KeyS::Bytes(y)) => str_key_lt(x, y),
        (KeyS::Text(x), KeyS::Text(y)) => str_key_lt(x, y),
        (KeyS::Bool(x), KeyS::Bool(y)) => !x && y,
        _ => false,
    })
}

/// Structural well-formedness: every value the encoder accepts.  The only
/// values it rejects are simple codes 20-31, whose encodings would collide
/// with the named simple values or are reserved by the wire format.
pub open spec fn wf(v: CborS) -> bool
    decreases v, 0int, 0int,
{
    match v {
        CborS::Array(items) => wf_list(items, items.len() as int),
        CborS::Dict(ps) => wf_pairs(ps, ps.len() as int),
        CborS::Tagged(t) => match t {
            TagS::Any(_, child) => wf(*child),
            _ => true,
        },
        CborS::Simple(sv) => match sv {
            SimpleValue::Code(c) => c <= 19 || c >= 32,
            _ => true,
        },
        _ => true,
    }
}

/// The first `i` items of an array are well formed.
pub open spec fn wf_list(items: Seq<CborS>, i: int) -> bool
    decreases items, 1int, i,
{
    if i <= 0 || i > items.len() {
        true
    } else {
        wf_list(items, i - 1) && wf(items[i - 1])
    }
}

/// The first `j` entry values of a map are well formed.
pub open spec fn wf_pairs(ps: Seq<(KeyS, CborS)>, j: int) -> bool
    decreases ps, 1int, j,
{
    if j <= 0 || j > ps.len() {
        true
    } else {
        wf_pairs(ps, j - 1) && wf(ps[j - 1].1)
    }
}

/// [`wf_list`] is the pointwise well-formedness of the first `i` items.
pub proof fn lemma_wf_list_iff(items: Seq<CborS>, i: int)
    requires
        0 <= i <= items.len(),
    ensures
        wf_list(items, i) == (forall|k: int| 0 <= k < i ==> wf(#[trigger] items[k])),
    decreases i,
{
    if i > 0 {
        lemma_wf_list_iff(items, i - 1);
    }
}

/// [`wf_pairs`] is the pointwise well-formedness of the first `j` values.
pub proof fn lemma_wf_pairs_iff(ps: Seq<(KeyS, CborS)>, j: int)
    requires
        0 <= j <= ps.len(),
    ensures
        wf_pairs(ps, j) == (forall|k: int| 0 <= k < j ==> wf((#[trigger] ps[k]).1)),
    decreases j,
{
    if j > 0 {
        lemma_wf_pairs_iff(ps, j - 1);
    }
}

/// Well-formedness of a key at the spec level: its strings carry at most
/// `u64::MAX` bytes and text keys are valid UTF-8.
pub open spec fn key_canonical(k: KeyS) -> bool {
    match k {
        KeyS::Bytes(b) => b.len() <= u64::MAX,
        KeyS::Text(b) => b.len() <= u64::MAX && valid_utf8(b),
        _ => true,
    }
}

/// A value the decoder can reproduce exactly from its own encoding: well
/// formed, all text valid UTF-8, map keys strictly ascending in [`key_lt`],
/// and no generic tag reusing the two registered big-integer tag numbers.
pub open spec fn canonical(v: CborS) -> bool
    decreases v, 0int, 0int,
{
    match v {
        CborS::Uint(_) => true,
        CborS::Nint(_) => true,
        CborS::Bytes(b) => b.len() <= u64::MAX,
        CborS::Text(b) => b.len() <= u64::MAX && valid_utf8(b),
        CborS::Array(items) => items.len() <= u64::MAX && canon_list(
            items,
            items.len() as int,
        ),
        CborS::Dict(ps) => ps.len() <= u64::MAX && canon_pairs(ps, ps.len() as int),
        CborS::Tagged(t) => match t {
            TagS::Ubig(m) => m.len() <= u64::MAX,
            TagS::Sbig(m) => m.len() <= u64::MAX,
            TagS::Any(n, child) => n != 2 && n != 3 && canonical(*child),
        },
        CborS::Simple(sv) => match sv {
            SimpleValue::Code(c) => c <= 19 || c >= 32,
            _ => true,
        },
    }
}

/// The first `i` items of an array are canonical.
pub open spec fn canon_list(items: Seq<CborS>, i: int) -> bool
    decreases items, 1int, i,
{
    if i <= 0 || i > items.len() {
        true
    } else {
        canon_list(items, i - 1) && canonical(items[i - 1])
    }
}

/// The first `j` map entries are canonical: keys well formed and strictly
/// ascending, values canonical.
pub open spec fn canon_pairs(ps: Seq<(KeyS, CborS)>, j: int) -> bool
    decreases ps, 1int, j,
{
    if j <= 0 || j > ps.len() {
        true
    } else {
        canon_pairs(ps, j - 1) && key_canonical(ps[j - 1].0) && canonical(ps[j - 1].1) && (j
            >= 2 ==> key_lt(ps[j - 2].0, ps[j - 1].0))
    }
}

/// [`canon_list`] pointwise.
pub proof fn lemma_canon_list_iff(items: Seq<CborS>, i: int)
    requires
        0 <= i <= items.len(),
    ensures
        canon_list(items, i) == (forall|k: int| 0 <= k < i ==> canonical(#[trigger] items[k])),
    decreases i,
{
    if i > 0 {
        lemma_canon_list_iff(items, i - 1);
    }
}

/// [`canon_pairs`] pointwise: well-formed keys, canonical values, adjacent
/// keys strictly ascending.
pub proof fn lemma_canon_pairs_iff(ps: Seq<(KeyS, CborS)>, j: int)
    requires
        0 <= j <= ps.len(),
    ensures
        canon_pairs(ps, j) == ((forall|k: int| 0 <= k < j ==> key_canonical((#[trigger] ps[k]).0))
            && (forall|k: int| 0 <= k < j ==> canonical((#[trigger] ps[k]).1)) && (forall|k: int|
            1 <= k < j ==> key_lt((#[trigger] ps[k - 1]).0, ps[k].0))),
    decreases j,
{
    if j > 0 {
        lemma_canon_pairs_iff(ps, j - 1);
    }
}

/// The value's nesting fits within `d` descents: every array, map or tag
/// descent costs one level.
pub open spec fn fits_depth(v: CborS, d: nat) -> bool
    decreases v, 0int, 0int,
{
    match v {
        CborS::Array(items) => d >= 1 && fits_list(items, items.len() as int, (d - 1) as nat),
        CborS::Dict(ps) => d >= 1 && fits_pairs(ps, ps.len() as int, (d - 1) as nat),
        CborS::Tagged(t) => d >= 1 && match t {
            TagS::Any(_, child) => fits_depth(*child, (d - 1) as nat),
            _ => true,
        },
        _ => true,
    }
}

/// The first `i` items of an array fit within `d` descents.
pub open spec fn fits_list(items: Seq<CborS>, i: int, d: nat) -> bool
    decreases items, 1int, i,
{
    if i <= 0 || i > items.len() {
        true
    } else {
        fits_list(items, i - 1, d) && fits_depth(items[i - 1], d)
    }
}

/// The first `j` map entry values fit within `d` descents.
pub open spec fn fits_pairs(ps: Seq<(KeyS, CborS)>, j: int, d: nat) -> bool
    decreases ps, 1int, j,
{
    if j <= 0 || j > ps.len() {
        true
    } else {
        fits_pairs(ps, j - 1, d) && fits_depth(ps[j - 1].1, d)
    }
}

/// [`fits_list`] pointwise.
pub proof fn lemma_fits_list_iff(items: Seq<CborS>, i: int, d: nat)
    requires
        0 <= i <= items.len(),
    ensures
        fits_list(items, i, d) == (forall|k: int|
            0 <= k < i ==> fits_depth(#[trigger] items[k], d)),
    decreases i,
{
    if i > 0 {
        lemma_fits_list_iff(items, i - 1, d);
    }
}

/// [`fits_pairs`] pointwise.
pub proof fn lemma_fits_pairs_iff(ps: Seq<(KeyS, CborS)>, j: int, d: nat)
    requires
        0 <= j <= ps.len(),
    ensures
        fits_pairs(ps, j, d) == (forall|k: int|
            0 <= k < j ==> fits_depth((#[trigger] ps[k]).1, d)),
    decreases j,
{
    if j > 0 {
        lemma_fits_pairs_iff(ps, j - 1, d);
    }
}

/// Fitting a depth bound is monotonic in the bound.
pub proof fn lemma_fits_depth_mono(v: CborS, d1: nat, d2: nat)
    requires
        fits_depth(v, d1),
        d1 <= d2,
    ensures
        fits_depth(v, d2),
    decreases v, 0int, 0int,
{
    match v {
        CborS::Array(items) => {
            lemma_fits_mono_list(items, items.len() as int, (d1 - 1) as nat, (d2 - 1) as nat);
        },
        CborS::Dict(ps) => {
            lemma_fits_mono_pairs(ps, ps.len() as int, (d1 - 1) as nat, (d2 - 1) as nat);
        },
        CborS::Tagged(t) => match t {
            TagS::Any(_, child) => {
                lemma_fits_depth_mono(*child, (d1 - 1) as nat, (d2 - 1) as nat);
            },
            _ => {},
        },
        _ => {},
    }
}

proof fn lemma_fits_mono_list(items: Seq<CborS>, i: int, d1: nat, d2: nat)
    requires
        fits_list(items, i, d1),
        d1 <= d2,
    ensures
        fits_list(items, i, d2),
    decreases items, 1int, i,
{
    if 0 < i <= items.len() {
        lemma_fits_mono_list(items, i - 1, d1, d2);
        lemma_fits_depth_mono(items[i - 1], d1, d2);
    }
}

proof fn lemma_fits_mono_pairs(ps: Seq<(KeyS, CborS)>, j: int, d1: nat, d2: nat)
    requires
        fits_pairs(ps, j, d1),
        d1 <= d2,
    ensures
        fits_pairs(ps, j, d2),
    decreases ps, 1int, j,
{
    if 0 < j <= ps.len() {
        lemma_fits_mono_pairs(ps, j - 1, d1, d2);
        lemma_fits_depth_mono(ps[j - 1].1, d1, d2);
    }
}

/// Structural copy of a byte vector.
pub fn copy_bytes(b: &Vec<u8>) -> (r: Vec<u8>)
    ensures
        r@ == b@,
{
    let mut out: Vec<u8> = Vec::new();
    let n = b.len();
    let mut i: usize = 0;
    while i < n
        invariant
            n == b@.len(),
            0 <= i <= n,
            out@ == b@.take(i as int),
        decreases n - i,
    {
        out.push(b[i]);
        proof {
            assert(b@.take(i as int).push(b@[i as int]) =~= b@.take(i + 1));
        }
        i = i + 1;
    }
    proof {
        assert(b@.take(n as int) =~= b@);
    }
    out
}

impl Key {
    /// Structural copy.
    pub fn dup(&self) -> (r: Key)
        ensures
            r@ == self@,
    {
        match self {
            Key::U64(n) => Key::U64(*n),
            Key::N64(n) => Key::N64(*n),
            Key::Bytes(b) => Key::Bytes(copy_bytes(b)),
            Key::Text(b) => Key::Text(copy_bytes(b)),
            Key::Bool(x) => Key::Bool(*x),
        }
    }
}

impl Cbor {
    /// Structural copy of the whole value tree.
    #[verifier::loop_isolation(false)]
    pub fn dup(&self) -> (r: Cbor)
        ensures
            r@ == self@,
        decreases *self,
    {
        match self {
            Cbor::Major0(n) => Cbor::Major0(*n),
            Cbor::Major1(n) => Cbor::Major1(*n),
            Cbor::Major2(b) => Cbor::Major2(copy_bytes(b)),
            Cbor::Major3(b) => Cbor::Major3(copy_bytes(b)),
            Cbor::Major4(items) => {
                let n = items.len();
                let mut out: Vec<Cbor> = Vec::new();
                let mut i: usize = 0;
                while i < n
                    invariant
                        n == items@.len(),
                        0 <= i <= n,
                        out@.len() == i,
                        forall|k: int|
                            0 <= k < i ==> view_cbor(#[trigger] out@[k]) == view_cbor(
                                items@[k],
                            ),
                    decreases n - i,
                {
                    out.push(items[i].dup());
                    i = i + 1;
                }
                proof {
                    assert(view_list(out@) =~= view_list(items@));
                }
                Cbor::Major4(out)
            },
            Cbor::Major5(pairs) => {
                let n = pairs.len();
                let mut out: Vec<(Key, Cbor)> = Vec::new();
                let mut i: usize = 0;
                while i < n
                    invariant
                        n == pairs@.len(),
                        0 <= i <= n,
                        out@.len() == i,
                        forall|k: int|
                            0 <= k < i ==> view_key((#[trigger] out@[k]).0) == view_key(
                                pairs@[k].0,
                            ) && view_cbor(out@[k].1) == view_cbor(pairs@[k].1),
                    decreases n - i,
                {
                    let k = pairs[i].0.dup();
                    let v = pairs[i].1.dup();
                    out.push((k, v));
                    i = i + 1;
                }
                proof {
                    assert(view_pairs(out@) =~= view_pairs(pairs@));
                }
                Cbor::Major5(out)
            },
            Cbor::Major6(t) => Cbor::Major6(
                match t {
                    Tag::Ubig(m) => Tag::Ubig(copy_bytes(m)),
                    Tag::Sbig(m) => Tag::Sbig(copy_bytes(m)),
                    Tag::Any(n, child) => Tag::Any(*n, Box::new(child.dup())),
                },
            ),
            Cbor::Major7(sv) => Cbor::Major7(*sv),
        }
    }
}

} // verus!

