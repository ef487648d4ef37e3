use vstd::prelude::*;
use vstd::slice::slice_subrange;

verus! {

/// A byte that may be the type of an element holding a nested document:
/// 3 (document), 4 (array) or 15 (code with scope).
pub open spec fn is_nesting_mark(b: u8) -> bool {
    b == 3 || b == 4 || b == 15
}

/// The number of bytes of `bytes` that may be the type of an element
/// holding a nested document. No document can nest deeper than this many
/// levels below the outermost one.
pub open spec fn nesting_marks(bytes: Seq<u8>) -> nat
    decreases bytes.len(),
{
    if bytes.len() == 0 {
        0
    } else {
        nesting_marks(bytes.drop_last()) + if is_nesting_mark(bytes.last()) {
            1nat
        } else {
            0nat
        }
    }
}

/// The four bytes of `b` at `i`, as a little-endian unsigned number.
pub open spec fn le_u32(b: Seq<u8>, i: int) -> int {
    b[i] as int + 256 * (b[i + 1] as int) + 65536 * (b[i + 2] as int) + 16777216 * (b[i + 3] as int)
}

/// The first zero byte of `b` from `from` on, before `end`.
pub open spec fn cstring_end(b: Seq<u8>, from: int, end: int) -> Option<int>
    decreases end - from,
{
    if from < 0 || from >= end || from >= b.len() {
        None
    } else if b[from] == 0 {
        Some(from)
    } else {
        cstring_end(b, from + 1, end)
    }
}

/// What a walk over BSON bytes makes of the element at a position: a value
/// with nothing nested in it, followed by the next element at the given
/// position; a nested document, whose elements start at the first position
/// and which ends at the second; or bytes that the walk does not follow.
pub enum ElementShape {
    Leaf(usize),
    Nested(usize, usize),
    Unknown,
}

/// The size of a length-prefixed string at `v`, before `end`.
pub open spec fn string_size(b: Seq<u8>, v: int, end: int) -> Option<int> {
    if v + 4 <= end && v + 4 <= b.len() && 1 <= le_u32(b, v) < 0x8000_0000 {
        Some(4 + le_u32(b, v))
    } else {
        None
    }
}

/// The size of the value of type `t` at `v` that holds no document, where
/// the element layout of BSON fixes it.
pub open spec fn leaf_size(b: Seq<u8>, t: u8, v: int, end: int) -> Option<int> {
    if t == 1 || t == 9 || t == 17 || t == 18 {
        Some(8)
    } else if t == 16 {
        Some(4)
    } else if t == 8 {
        Some(1)
    } else if t == 7 {
        Some(12)
    } else if t == 19 {
        Some(16)
    } else if t == 6 || t == 10 || t == 127 || t == 255 {
        Some(0)
    } else if t == 2 || t == 13 || t == 14 {
        string_size(b, v, end)
    } else if t == 12 {
        match string_size(b, v, end) {
            Some(s) => Some(s + 12),
            None => None,
        }
    } else if t == 5 {
        if v + 4 <= end && v + 4 <= b.len() && le_u32(b, v) < 0x8000_0000 {
            Some(5 + le_u32(b, v))
        } else {
            None
        }
    } else if t == 11 {
        match cstring_end(b, v, end) {
            Some(p) => match cstring_end(b, p + 1, end) {
                Some(o) => Some(o + 1 - v),
                None => None,
            },
            None => None,
        }
    } else {
        None
    }
}

/// The shape of the element at `pos` of a document that ends at `end`: a
/// type byte, a key up to its zero byte, then the value.
pub open spec fn element_shape(b: Seq<u8>, pos: int, end: int) -> ElementShape {
    match cstring_end(b, pos + 1, end) {
        None => ElementShape::Unknown,
        Some(k) => {
            let v = k + 1;
            let t = b[pos];
            if t == 3 || t == 4 {
                if v + 4 <= end && v + 4 <= b.len() && 5 <= le_u32(b, v) < 0x8000_0000 && v + le_u32(b, v) < end {
                    ElementShape::Nested((v + 4) as usize, (v + le_u32(b, v)) as usize)
                } else {
                    ElementShape::Unknown
                }
            } else if t == 15 {
                match string_size(b, v + 4, end) {
                    Some(s) => {
                        let d = v + 4 + s;
                        if v + 4 <= end && v + 4 <= b.len() && d + 4 <= end && d + 4 <= b.len() && 5 <= le_u32(b, d)
                            < 0x8000_0000 && le_u32(b, v) == 4 + s + le_u32(b, d) && d + le_u32(b, d) < end {
                            ElementShape::Nested((d + 4) as usize, (d + le_u32(b, d)) as usize)
                        } else {
                            ElementShape::Unknown
                        }
                    },
                    None => ElementShape::Unknown,
                }
            } else {
                match leaf_size(b, t, v, end) {
                    Some(sz) => if v + sz < end {
                        ElementShape::Leaf((v + sz) as usize)
                    } else {
                        ElementShape::Unknown
                    },
                    None => ElementShape::Unknown,
                }
            }
        },
    }
}

/// The deepest nesting that a walk over the document bytes `b` reaches from
/// position `pos`, with the documents that end at `ends` open and `deepest`
/// reached so far. Where the walk meets bytes it does not follow, every
/// further level needs a nesting mark, so their number is added.
pub open spec fn nesting_scan(b: Seq<u8>, pos: int, ends: Seq<int>, deepest: nat) -> nat
    decreases b.len() - pos,
{
    if ends.len() == 0 {
        deepest
    } else if pos < 0 || pos >= b.len() || ends.last() > b.len() || pos >= ends.last() {
        deepest + nesting_marks(b)
    } else if pos == ends.last() - 1 {
        if b[pos] == 0 {
            nesting_scan(b, pos + 1, ends.drop_last(), deepest)
        } else {
            deepest + nesting_marks(b)
        }
    } else {
        match element_shape(b, pos, ends.last()) {
            ElementShape::Leaf(next) => if pos < next && next <= b.len() {
                nesting_scan(b, next as int, ends, deepest)
            } else {
                deepest + nesting_marks(b)
            },
            ElementShape::Nested(start, end) => if pos < start && start <= b.len() {
                nesting_scan(
                    b,
                    start as int,
                    ends.push(end as int),
                    if deepest < ends.len() + 1 {
                        (ends.len() + 1) as nat
                    } else {
                        deepest
                    },
                )
            } else {
                deepest + nesting_marks(b)
            },
            ElementShape::Unknown => deepest + nesting_marks(b),
        }
    }
}

/// How deep documents nest in the BSON document at the start of `bytes`,
/// the outermost counting as one, as far as a decoder that follows the
/// elements in order can go: the bytes its length prefix covers, walked
/// element by element. Zero where the prefix is not that of a document
/// that fits in `bytes`.
pub open spec fn bson_nesting(bytes: Seq<u8>) -> nat {
    if bytes.len() < 5 {
        0
    } else {
        let n = le_u32(bytes, 0);
        if 5 <= n <= bytes.len() && n < 0x8000_0000 {
            nesting_scan(bytes.take(n), 4, seq![n], 1)
        } else {
            0
        }
    }
}

/// A BSON value as the format lays it out: a value with no document in it,
/// given by its type byte and its bytes, or a document (type 3) or array
/// (type 4), given by its type byte and its elements, each a key (its bytes)
/// and a value.
pub enum BsonValue {
    Leaf(u8, Seq<u8>),
    Document(u8, Seq<(Seq<u8>, BsonValue)>),
}

/// The type byte of an element holding `v`.
pub open spec fn value_type(v: BsonValue) -> u8 {
    match v {
        BsonValue::Leaf(t, _) => t,
        BsonValue::Document(t, _) => t,
    }
}

/// The number of elements of a document.
pub open spec fn element_count(v: BsonValue) -> nat {
    match v {
        BsonValue::Leaf(_, _) => 0,
        BsonValue::Document(_, es) => es.len(),
    }
}

/// The four little-endian bytes of `x`.
pub open spec fn u32_le_bytes(x: int) -> Seq<u8> {
    seq![(x % 256) as u8, ((x / 256) % 256) as u8, ((x / 65536) % 256) as u8, ((x / 16777216) % 256) as u8]
}

/// The bytes of the value `v`: those of a leaf as given; for a document,
/// its length, its elements and a zero byte.
pub open spec fn value_bytes(v: BsonValue) -> Seq<u8>
    decreases v, element_count(v) + 1,
{
    match v {
        BsonValue::Leaf(_, p) => p,
        BsonValue::Document(_, es) => {
            let body = elements_bytes(v, es.len() as int);
            u32_le_bytes(body.len() + 5int) + body + seq![0u8]
        },
    }
}

/// The bytes of the first `k` elements of the document `v`: each its type
/// byte, its key, a zero byte, then its value.
pub open spec fn elements_bytes(v: BsonValue, k: int) -> Seq<u8>
    decreases v, k,
{
    match v {
        BsonValue::Leaf(_, _) => Seq::empty(),
        BsonValue::Document(_, es) => if k <= 0 || k > es.len() {
            Seq::empty()
        } else {
            elements_bytes(v, k - 1) + seq![value_type(es[k - 1].1)] + es[k - 1].0 + seq![0u8] + value_bytes(es[k - 1].1)
        },
    }
}

/// How deep documents nest in `v`, a document counting as one level.
pub open spec fn value_depth(v: BsonValue) -> nat
    decreases v, element_count(v) + 1,
{
    match v {
        BsonValue::Leaf(_, _) => 0,
        BsonValue::Document(_, es) => 1 + elements_depth(v, es.len() as int),
    }
}

/// The deepest nesting among the values of the first `k` elements of `v`.
pub open spec fn elements_depth(v: BsonValue, k: int) -> nat
    decreases v, k,
{
    match v {
        BsonValue::Leaf(_, _) => 0,
        BsonValue::Document(_, es) => if k <= 0 || k > es.len() {
            0
        } else {
            let a = elements_depth(v, k - 1);
            let b = value_depth(es[k - 1].1);
            if a < b {
                b
            } else {
                a
            }
        },
    }
}

/// No byte of `s` is zero.
pub open spec fn no_zero(s: Seq<u8>) -> bool {
    forall|i: int| 0 <= i < s.len() ==> #[trigger] s[i] != 0
}

/// The bytes of a BSON string: its length, counting the closing zero byte,
/// then its bytes and a zero byte.
pub open spec fn bson_string(p: Seq<u8>) -> bool {
    &&& p.len() >= 5
    &&& le_u32(p, 0) == p.len() - 4
    &&& p[p.len() - 1] == 0
}

/// The bytes of two C strings, each closed by a zero byte.
pub open spec fn two_cstrings(p: Seq<u8>) -> bool {
    &&& p.len() >= 2
    &&& p[p.len() - 1] == 0
    &&& exists|i: int|
        0 <= i < p.len() - 1 && p[i] == 0 && forall|j: int| 0 <= j < p.len() - 1 && j != i ==> #[trigger] p[j] != 0
}

/// `p` is the bytes of a value of type `t` that holds no document, as the
/// BSON format lays it out: a double (1), a UTC datetime (9), a timestamp
/// (17) or an int64 (18) in eight bytes; an int32 (16) in four; a boolean
/// (8) in one; an ObjectId (7) in twelve; a decimal128 (19) in sixteen;
/// undefined (6), null (10), max key (127) and min key (255) in none; a
/// string (2), JavaScript code (13) or symbol (14) as a BSON string; a
/// DBPointer (12) as a BSON string and twelve bytes; binary data (5) as its
/// length, a subtype byte and its bytes; a regular expression (11) as two
/// C strings.
pub open spec fn standard_leaf(t: u8, p: Seq<u8>) -> bool {
    if t == 1 || t == 9 || t == 17 || t == 18 {
        p.len() == 8
    } else if t == 16 {
        p.len() == 4
    } else if t == 8 {
        p.len() == 1
    } else if t == 7 {
        p.len() == 12
    } else if t == 19 {
        p.len() == 16
    } else if t == 6 || t == 10 || t == 127 || t == 255 {
        p.len() == 0
    } else if t == 2 || t == 13 || t == 14 {
        bson_string(p)
    } else if t == 12 {
        p.len() >= 12 && bson_string(p.take(p.len() - 12))
    } else if t == 5 {
        p.len() >= 5 && le_u32(p, 0) == p.len() - 5
    } else if t == 11 {
        two_cstrings(p)
    } else {
        false
    }
}

/// Every value in `v` is laid out as the BSON format says, every nested
/// value is a document or an array, and no key holds a zero byte.
pub open spec fn well_formed(v: BsonValue) -> bool
    decreases v, element_count(v) + 1,
{
    match v {
        BsonValue::Leaf(t, p) => standard_leaf(t, p),
        BsonValue::Document(t, es) => (t == 3 || t == 4) && elements_well_formed(v, es.len() as int),
    }
}

/// The first `k` elements of `v` are well formed.
pub open spec fn elements_well_formed(v: BsonValue, k: int) -> bool
    decreases v, k,
{
    match v {
        BsonValue::Leaf(_, _) => true,
        BsonValue::Document(_, es) => if k <= 0 || k > es.len() {
            true
        } else {
            elements_well_formed(v, k - 1) && no_zero(es[k - 1].0) && well_formed(es[k - 1].1)
        },
    }
}

/// `v` is a BSON document as the format lays it out, of a length its
/// length prefix can hold.
pub open spec fn bson_document(v: BsonValue) -> bool {
    &&& v is Document
    &&& well_formed(v)
    &&& value_bytes(v).len() < 0x8000_0000
}

proof fn lemma_u32_le_roundtrip(x: int)
    requires
        0 <= x < 0x1_0000_0000,
    ensures
        le_u32(u32_le_bytes(x), 0) == x,
{
    let b = u32_le_bytes(x);
    let x1 = x / 256;
    let x2 = x1 / 256;
    let x3 = x2 / 256;
    assert(x == 256 * x1 + x % 256);
    assert(x1 == 256 * x2 + x1 % 256);
    assert(x2 == 256 * x3 + x2 % 256);
    assert(x / 65536 == x2) by {
        vstd::arithmetic::div_mod::lemma_div_denominator(x, 256, 256);
    }
    assert(x / 16777216 == x3) by {
        vstd::arithmetic::div_mod::lemma_div_denominator(x, 65536, 256);
    }
    assert(x3 < 256);
    assert(b[0] as int == x % 256);
    assert(b[1] as int == x1 % 256);
    assert(b[2] as int == x2 % 256);
    assert(b[3] as int == x3 % 256);
}

proof fn lemma_cstring_at(b: Seq<u8>, from: int, len: int, end: int)
    requires
        0 <= from,
        0 <= len,
        from + len < end,
        from + len < b.len(),
        b[from + len] == 0,
        forall|j: int| from <= j < from + len ==> #[trigger] b[j] != 0,
    ensures
        cstring_end(b, from, end) == Some(from + len),
    decreases len,
{
    if len > 0 {
        assert(b[from] != 0);
        lemma_cstring_at(b, from + 1, len - 1, end);
    }
}

/// The length of a leaf as the walk reads it.
proof fn lemma_leaf_size(b: Seq<u8>, t: u8, p: Seq<u8>, v: int, end: int)
    requires
        standard_leaf(t, p),
        0 <= v,
        v + p.len() < end <= b.len(),
        p.len() < 0x8000_0000,
        forall|j: int| 0 <= j < p.len() ==> #[trigger] p[j] == b[v + j],
    ensures
        leaf_size(b, t, v, end) == Some(p.len() as int),
{
    if t == 2 || t == 13 || t == 14 || t == 5 {
        assert(p[0] == b[v + 0] && p[1] == b[v + 1] && p[2] == b[v + 2] && p[3] == b[v + 3]);
        assert(le_u32(b, v) == le_u32(p, 0));
    } else if t == 12 {
        let s = p.take(p.len() - 12);
        assert(p[0] == b[v + 0] && p[1] == b[v + 1] && p[2] == b[v + 2] && p[3] == b[v + 3]);
        assert(le_u32(b, v) == le_u32(s, 0));
    } else if t == 11 {
        let i = choose|i: int|
            0 <= i < p.len() - 1 && p[i] == 0 && forall|j: int| 0 <= j < p.len() - 1 && j != i ==> #[trigger] p[j] != 0;
        assert forall|j: int| v <= j < v + i implies #[trigger] b[j] != 0 by {
            assert(p[j - v] != 0);
            assert(p[j - v] == b[v + (j - v)]);
        }
        lemma_cstring_at(b, v, i, end);
        let rest = p.len() - 1 - (i + 1);
        assert forall|j: int| v + i + 1 <= j < v + i + 1 + rest implies #[trigger] b[j] != 0 by {
            assert(p[j - v] == b[v + (j - v)]);
            assert(p[j - v] != 0);
        }
        assert(p[p.len() - 1] == b[v + (p.len() - 1)]);
        assert(p[i] == b[v + i]);
        lemma_cstring_at(b, v + i + 1, rest, end);
    }
}

/// The larger of `a` and `b`.
pub open spec fn nat_max(a: nat, b: nat) -> nat {
    if a < b {
        b
    } else {
        a
    }
}

proof fn lemma_elements_len_mono(v: BsonValue, k: int, m: int)
    requires
        0 <= k <= m <= element_count(v),
    ensures
        elements_bytes(v, k).len() <= elements_bytes(v, m).len(),
    decreases m - k,
{
    if k < m {
        lemma_elements_len_mono(v, k, m - 1);
    }
}

proof fn lemma_elements_wf_prefix(v: BsonValue, k: int, m: int)
    requires
        0 <= k <= m <= element_count(v),
        elements_well_formed(v, m),
    ensures
        elements_well_formed(v, k),
    decreases m - k,
{
    if k < m {
        lemma_elements_wf_prefix(v, k, m - 1);
    }
}

proof fn lemma_scan_leaf_step(b: Seq<u8>, pos: int, ends: Seq<int>, dd: nat, next: int)
    requires
        ends.len() >= 1,
        0 <= pos < ends.last() - 1,
        ends.last() <= b.len(),
        b.len() <= usize::MAX,
        pos < next <= b.len(),
        element_shape(b, pos, ends.last()) == ElementShape::Leaf(next as usize),
    ensures
        nesting_scan(b, pos, ends, dd) == nesting_scan(b, next, ends, dd),
{
}

proof fn lemma_scan_nested_step(b: Seq<u8>, pos: int, ends: Seq<int>, dd: nat, start: int, nend: int)
    requires
        ends.len() >= 1,
        0 <= pos < ends.last() - 1,
        ends.last() <= b.len(),
        b.len() <= usize::MAX,
        pos < start <= b.len(),
        0 <= nend <= b.len(),
        element_shape(b, pos, ends.last()) == ElementShape::Nested(start as usize, nend as usize),
    ensures
        nesting_scan(b, pos, ends, dd) == nesting_scan(
            b,
            start,
            ends.push(nend),
            if dd < ends.len() + 1 {
                (ends.len() + 1) as nat
            } else {
                dd
            },
        ),
{
}

proof fn lemma_scan_pop(b: Seq<u8>, pos: int, ends: Seq<int>, dd: nat)
    requires
        ends.len() >= 1,
        0 <= pos,
        pos == ends.last() - 1,
        ends.last() <= b.len(),
        b[pos] == 0,
    ensures
        nesting_scan(b, pos, ends, dd) == nesting_scan(b, pos + 1, ends.drop_last(), dd),
{
}

proof fn lemma_shape_leaf(b: Seq<u8>, q: int, end: int, kl: int, t: u8, p: Seq<u8>)
    requires
        0 <= q,
        0 <= kl,
        q + 2 + kl + p.len() < end <= b.len(),
        b.len() <= usize::MAX,
        b[q] == t,
        cstring_end(b, q + 1, end) == Some(q + 1 + kl),
        standard_leaf(t, p),
        leaf_size(b, t, q + 2 + kl, end) == Some(p.len() as int),
    ensures
        element_shape(b, q, end) == ElementShape::Leaf((q + 2 + kl + p.len()) as usize),
{
}

proof fn lemma_shape_document(b: Seq<u8>, q: int, end: int, kl: int, t: u8, n: int)
    requires
        0 <= q,
        0 <= kl,
        q + 2 + kl + n < end <= b.len(),
        b.len() <= usize::MAX,
        t == 3 || t == 4,
        b[q] == t,
        cstring_end(b, q + 1, end) == Some(q + 1 + kl),
        5 <= n < 0x8000_0000,
        le_u32(b, q + 2 + kl) == n,
    ensures
        element_shape(b, q, end) == ElementShape::Nested((q + 2 + kl + 4) as usize, (q + 2 + kl + n) as usize),
{
}

/// The bytes of an element: its type byte, its key, a zero byte, its value.
pub open spec fn element_bytes(key: Seq<u8>, val: BsonValue) -> Seq<u8> {
    seq![value_type(val)] + key + seq![0u8] + value_bytes(val)
}

/// The walk goes through the first `k` elements of the document `v`, laid
/// out in `b` from `q` on inside the document that ends at `ends.last()`,
/// and comes out after them, having reached the depth of the deepest of
/// them.
proof fn lemma_scan_elements(b: Seq<u8>, q: int, v: BsonValue, k: int, ends: Seq<int>, dd: nat)
    requires
        v is Document,
        well_formed(v),
        value_bytes(v).len() < 0x8000_0000,
        0 <= k <= element_count(v),
        0 <= q,
        b.len() <= usize::MAX,
        ends.len() >= 1,
        dd >= ends.len(),
        q + elements_bytes(v, k).len() < ends.last(),
        ends.last() <= b.len(),
        forall|j: int| 0 <= j < elements_bytes(v, k).len() ==> #[trigger] elements_bytes(v, k)[j] == b[q + j],
    ensures
        nesting_scan(b, q, ends, dd) == nesting_scan(
            b,
            q + elements_bytes(v, k).len(),
            ends,
            nat_max(dd, ends.len() + elements_depth(v, k)),
        ),
    decreases v, k,
{
    let es = v->Document_1;
    if k == 0 {
        return;
    }
    let x0 = elements_bytes(v, k - 1);
    let e = es[k - 1];
    let eb = element_bytes(e.0, e.1);
    let x = elements_bytes(v, k);
    assert(x =~= x0 + eb);
    lemma_elements_wf_prefix(v, k, es.len() as int);
    assert(elements_well_formed(v, k - 1) && no_zero(e.0) && well_formed(e.1));
    assert forall|j: int| 0 <= j < x0.len() implies #[trigger] x0[j] == b[q + j] by {
        assert(x[j] == x0[j]);
    }
    lemma_scan_elements(b, q, v, k - 1, ends, dd);
    let q1 = q + x0.len();
    let d1 = nat_max(dd, ends.len() + elements_depth(v, k - 1));
    assert forall|j: int| 0 <= j < eb.len() implies #[trigger] eb[j] == b[q1 + j] by {
        assert(x[x0.len() + j] == b[q + (x0.len() + j)]);
    }
    lemma_elements_len_mono(v, k, es.len() as int);
    assert(value_bytes(v).len() == elements_bytes(v, es.len() as int).len() + 5);
    lemma_element_step(b, q1, e.0, e.1, ends, d1);
}

/// The walk goes through one element laid out in `b` at `q`, inside the
/// document that ends at `ends.last()`, and comes out after it, having
/// reached the depth of its value.
proof fn lemma_element_step(b: Seq<u8>, q: int, key: Seq<u8>, val: BsonValue, ends: Seq<int>, dd: nat)
    requires
        no_zero(key),
        well_formed(val),
        element_bytes(key, val).len() < 0x8000_0000,
        0 <= q,
        b.len() <= usize::MAX,
        ends.len() >= 1,
        dd >= ends.len(),
        q + element_bytes(key, val).len() < ends.last(),
        ends.last() <= b.len(),
        forall|j: int| 0 <= j < element_bytes(key, val).len() ==> #[trigger] element_bytes(key, val)[j] == b[q + j],
    ensures
        nesting_scan(b, q, ends, dd) == nesting_scan(
            b,
            q + element_bytes(key, val).len(),
            ends,
            nat_max(dd, ends.len() + value_depth(val)),
        ),
    decreases val, element_count(val) + 1,
{
    let eb = element_bytes(key, val);
    let vb = value_bytes(val);
    let kl = key.len() as int;
    let v0 = q + 2 + kl;
    let end = ends.last();
    assert(eb[0] == b[q + 0]);
    assert(b[q] == value_type(val));
    assert forall|j: int| q + 1 <= j < q + 1 + kl implies #[trigger] b[j] != 0 by {
        assert(eb[j - q] == b[q + (j - q)]);
        assert(eb[j - q] == key[j - q - 1]);
    }
    assert(eb[1 + kl] == b[q + (1 + kl)]);
    lemma_cstring_at(b, q + 1, kl, end);
    assert forall|j: int| 0 <= j < vb.len() implies #[trigger] vb[j] == b[v0 + j] by {
        assert(eb[2 + kl + j] == b[q + (2 + kl + j)]);
    }
    match val {
        BsonValue::Leaf(t, p) => {
            lemma_leaf_size(b, t, p, v0, end);
            lemma_shape_leaf(b, q, end, kl, t, p);
            lemma_scan_leaf_step(b, q, ends, dd, v0 + p.len());
        },
        BsonValue::Document(t2, es2) => {
            let n = vb.len() as int;
            let ebody = elements_bytes(val, es2.len() as int);
            assert(vb == u32_le_bytes(ebody.len() + 5int) + ebody + seq![0u8]);
            lemma_u32_le_roundtrip(n);
            assert(vb[0] == b[v0 + 0] && vb[1] == b[v0 + 1] && vb[2] == b[v0 + 2] && vb[3] == b[v0 + 3]);
            assert(le_u32(b, v0) == n);
            lemma_shape_document(b, q, end, kl, t2, n);
            let d2: nat = if dd < ends.len() + 1 {
                (ends.len() + 1) as nat
            } else {
                dd
            };
            lemma_scan_nested_step(b, q, ends, dd, v0 + 4, v0 + n);
            assert forall|j: int| 0 <= j < ebody.len() implies #[trigger] ebody[j] == b[v0 + 4 + j] by {
                assert(vb[4 + j] == b[v0 + (4 + j)]);
            }
            lemma_scan_elements(b, v0 + 4, val, es2.len() as int, ends.push(v0 + n), d2);
            let ec = elements_depth(val, es2.len() as int);
            let d3 = nat_max(d2, ends.len() + 1 + ec);
            assert(vb[n - 1] == b[v0 + (n - 1)]);
            assert(ends.push(v0 + n).drop_last() == ends);
            lemma_scan_pop(b, v0 + n - 1, ends.push(v0 + n), d3);
        },
    }
}

/// How deep the walk finds documents to nest in a BSON document laid out as
/// the format says is how deep they nest: the walk neither stops early on
/// any standard type nor counts a level that is not there. So a request
/// whose documents nest at most [`crate::server::MAX_NESTING`] deep is
/// never refused for nesting.
pub proof fn lemma_nesting_of_document(v: BsonValue)
    requires
        bson_document(v),
    ensures
        bson_nesting(value_bytes(v)) == value_depth(v),
{
    let b = value_bytes(v);
    let es = v->Document_1;
    let eb = elements_bytes(v, es.len() as int);
    let n = b.len() as int;
    assert(b == u32_le_bytes(eb.len() + 5int) + eb + seq![0u8]);
    lemma_u32_le_roundtrip(n);
    assert(b[0] == u32_le_bytes(n)[0] && b[1] == u32_le_bytes(n)[1] && b[2] == u32_le_bytes(n)[2] && b[3] == u32_le_bytes(n)[3]);
    assert(le_u32(b, 0) == n);
    assert(b.take(n) =~= b);
    assert forall|j: int| 0 <= j < eb.len() implies #[trigger] eb[j] == b[4 + j] by {}
    lemma_scan_elements(b, 4, v, es.len() as int, seq![n], 1);
    let d = nat_max(1, 1 + elements_depth(v, es.len() as int));
    assert(seq![n].drop_last() =~= Seq::<int>::empty());
    assert(nesting_scan(b, n - 1, seq![n], d) == nesting_scan(b, n, Seq::<int>::empty(), d));
}

/// The number of nesting marks in `bytes`.
fn count_nesting_marks(bytes: &[u8]) -> (c: usize)
    ensures
        c == nesting_marks(bytes@),
{
    let mut c: usize = 0;
    let mut i: usize = 0;
    while i < bytes.len()
        invariant
            0 <= i <= bytes@.len(),
            c <= i,
            c == nesting_marks(bytes@.take(i as int)),
        decreases bytes@.len() - i,
    {
        assert(bytes@.take(i + 1).drop_last() =~= bytes@.take(i as int));
        let b = bytes[i];
        if b == 3 || b == 4 || b == 15 {
            c = c + 1;
        }
        i = i + 1;
    }
    assert(bytes@.take(bytes@.len() as int) =~= bytes@);
    c
}

/// The four bytes of `b` at `i`, as a little-endian unsigned number.
fn read_le_u32(b: &[u8], i: usize) -> (r: u64)
    requires
        i + 4 <= b@.len(),
    ensures
        r as int == le_u32(b@, i as int),
        r < 0x1_0000_0000,
{
    (b[i] as u64) + 256 * (b[i + 1] as u64) + 65536 * (b[i + 2] as u64) + 16777216 * (b[i + 3] as u64)
}

/// The first zero byte of `b` from `from` on, before `end`.
fn find_cstring_end(b: &[u8], from: usize, end: usize) -> (r: Option<usize>)
    requires
        end <= b@.len(),
    ensures
        match r {
            Some(k) => cstring_end(b@, from as int, end as int) == Some(k as int),
            None => cstring_end(b@, from as int, end as int) is None,
        },
{
    let mut i = from;
    while i < end
        invariant
            from <= i,
            end <= b@.len(),
            cstring_end(b@, from as int, end as int) == cstring_end(b@, i as int, end as int),
        decreases end - i,
    {
        if b[i] == 0 {
            return Some(i);
        }
        i = i + 1;
    }
    None
}

/// The size of a length-prefixed string at `v`, before `end`.
fn string_size_at(b: &[u8], v: usize, end: usize) -> (r: Option<u64>)
    requires
        end <= b@.len(),
        v <= end,
    ensures
        match r {
            Some(s) => string_size(b@, v as int, end as int) == Some(s as int) && s < 0x8000_0004,
            None => string_size(b@, v as int, end as int) is None,
        },
{
    if end - v >= 4 {
        let n = read_le_u32(b, v);
        if 1 <= n && n < 0x8000_0000 {
            return Some(4 + n);
        }
    }
    None
}

/// The shape of the element at `pos` of a document that ends at `end`.
fn shape_at(b: &[u8], pos: usize, end: usize) -> (r: ElementShape)
    requires
        pos < end <= b@.len(),
    ensures
        r == element_shape(b@, pos as int, end as int),
{
    let k = match find_cstring_end(b, pos + 1, end) {
        None => {
            return ElementShape::Unknown;
        },
        Some(k) => k,
    };
    proof {
        lemma_cstring_end_range(b@, pos + 1, end as int);
    }
    let v = k + 1;
    let t = b[pos];
    if t == 3 || t == 4 {
        if end - v >= 4 {
            let n = read_le_u32(b, v);
            if 5 <= n && n < 0x8000_0000 && n < (end - v) as u64 {
                return ElementShape::Nested(v + 4, v + n as usize);
            }
        }
        return ElementShape::Unknown;
    }
    if t == 15 {
        if end - v < 4 {
            assert(string_size(b@, v + 4, end as int) is None);
            return ElementShape::Unknown;
        }
        let s = match string_size_at(b, v + 4, end) {
            None => {
                return ElementShape::Unknown;
            },
            Some(s) => s,
        };
        if s >= (end - v - 4) as u64 || (end - v - 4) as u64 - s < 4 {
            return ElementShape::Unknown;
        }
        let d = v + 4 + s as usize;
        let total = read_le_u32(b, v);
        let dl = read_le_u32(b, d);
        if 5 <= dl && dl < 0x8000_0000 && total == 4 + s + dl && dl < (end - d) as u64 {
            return ElementShape::Nested(d + 4, d + dl as usize);
        }
        return ElementShape::Unknown;
    }
    let size: Option<u64> = if t == 1 || t == 9 || t == 17 || t == 18 {
        Some(8)
    } else if t == 16 {
        Some(4)
    } else if t == 8 {
        Some(1)
    } else if t == 7 {
        Some(12)
    } else if t == 19 {
        Some(16)
    } else if t == 6 || t == 10 || t == 127 || t == 255 {
        Some(0)
    } else if t == 2 || t == 13 || t == 14 {
        string_size_at(b, v, end)
    } else if t == 12 {
        match string_size_at(b, v, end) {
            Some(s) => Some(s + 12),
            None => None,
        }
    } else if t == 5 {
        if end - v >= 4 {
            let n = read_le_u32(b, v);
            if n < 0x8000_0000 {
                Some(5 + n)
            } else {
                None
            }
        } else {
            None
        }
    } else if t == 11 {
        match find_cstring_end(b, v, end) {
            Some(p) => {
                proof {
                    lemma_cstring_end_range(b@, v as int, end as int);
                }
                match find_cstring_end(b, p + 1, end) {
                    Some(o) => {
                        proof {
                            lemma_cstring_end_range(b@, p + 1, end as int);
                        }
                        Some((o + 1 - v) as u64)
                    },
                    None => None,
                }
            },
            None => None,
        }
    } else {
        None
    };
    assert(size matches Some(sz) ==> leaf_size(b@, t, v as int, end as int) == Some(sz as int));
    assert(size is None ==> leaf_size(b@, t, v as int, end as int) is None);
    match size {
        Some(sz) => if sz < (end - v) as u64 {
            ElementShape::Leaf(v + sz as usize)
        } else {
            ElementShape::Unknown
        },
        None => ElementShape::Unknown,
    }
}

/// A zero byte found from `from` on lies between `from` and `end`.
proof fn lemma_cstring_end_range(b: Seq<u8>, from: int, end: int)
    ensures
        cstring_end(b, from, end) matches Some(k) ==> from <= k < end && k < b.len(),
    decreases end - from,
{
    if !(from < 0 || from >= end || from >= b.len()) && b[from] != 0 {
        lemma_cstring_end_range(b, from + 1, end);
    }
}

/// The walk never reports less than it has already reached.
proof fn lemma_scan_at_least(b: Seq<u8>, pos: int, ends: Seq<int>, deepest: nat)
    ensures
        deepest <= nesting_scan(b, pos, ends, deepest),
    decreases b.len() - pos,
{
    if ends.len() == 0 {
    } else if pos < 0 || pos >= b.len() || ends.last() > b.len() || pos >= ends.last() {
    } else if pos == ends.last() - 1 {
        if b[pos] == 0 {
            lemma_scan_at_least(b, pos + 1, ends.drop_last(), deepest);
        }
    } else {
        match element_shape(b, pos, ends.last()) {
            ElementShape::Leaf(next) => if pos < next && next <= b.len() {
                lemma_scan_at_least(b, next as int, ends, deepest);
            },
            ElementShape::Nested(start, end) => if pos < start && start <= b.len() {
                let d2 = if deepest < ends.len() + 1 {
                    (ends.len() + 1) as nat
                } else {
                    deepest
                };
                lemma_scan_at_least(b, start as int, ends.push(end as int), d2);
            },
            ElementShape::Unknown => {},
        }
    }
}

/// Whether documents nest at most `limit` deep in the BSON document at the
/// start of `bytes` (see [`bson_nesting`]).
#[verifier::rlimit(50)]
pub fn nesting_within(bytes: &[u8], limit: usize) -> (r: bool)
    ensures
        r == (bson_nesting(bytes@) <= limit),
{
    if bytes.len() < 5 {
        return true;
    }
    let n = read_le_u32(bytes, 0);
    if !(5 <= n && n <= bytes.len() as u64 && n < 0x8000_0000) {
        return true;
    }
    let doc = slice_subrange(bytes, 0, n as usize);
    let ghost b = doc@;
    assert(b =~= bytes@.take(n as int));
    let ghost target = nesting_scan(b, 4, seq![n as int], 1);
    assert(target == bson_nesting(bytes@));
    if limit == 0 {
        proof {
            lemma_scan_at_least(b, 4, seq![n as int], 1);
        }
        return false;
    }
    let mut ends: Vec<usize> = vec![n as usize];
    let mut pos: usize = 4;
    let mut deepest: usize = 1;
    assert(ends@.map_values(|e: usize| e as int) =~= seq![n as int]);
    loop
        invariant
            b == doc@,
            1 <= deepest <= limit,
            target == nesting_scan(b, pos as int, ends@.map_values(|e: usize| e as int), deepest as nat),
            target == bson_nesting(bytes@),
        decreases b.len() - pos,
    {
        let ghost es = ends@.map_values(|e: usize| e as int);
        if ends.len() == 0 {
            return deepest <= limit;
        }
        let end = ends[ends.len() - 1];
        assert(es.last() == end as int);
        if pos >= doc.len() || end > doc.len() || pos >= end {
            let marks = count_nesting_marks(doc);
            return marks <= limit - deepest;
        }
        if pos == end - 1 {
            if doc[pos] == 0 {
                ends.pop();
                assert(ends@.map_values(|e: usize| e as int) =~= es.drop_last());
                pos = pos + 1;
                continue;
            } else {
                let marks = count_nesting_marks(doc);
                return marks <= limit - deepest;
            }
        }
        match shape_at(doc, pos, end) {
            ElementShape::Leaf(next) => {
                if pos < next && next <= doc.len() {
                    pos = next;
                } else {
                    let marks = count_nesting_marks(doc);
                    return marks <= limit - deepest;
                }
            },
            ElementShape::Nested(start, nend) => {
                if pos < start && start <= doc.len() {
                    if ends.len() >= limit {
                        proof {
                            lemma_scan_at_least(b, start as int, es.push(nend as int), (es.len() + 1) as nat);
                        }
                        return false;
                    }
                    if deepest < ends.len() + 1 {
                        deepest = ends.len() + 1;
                    }
                    ends.push(nend);
                    assert(ends@.map_values(|e: usize| e as int) =~= es.push(nend as int));
                    pos = start;
                } else {
                    let marks = count_nesting_marks(doc);
                    return marks <= limit - deepest;
                }
            },
            ElementShape::Unknown => {
                let marks = count_nesting_marks(doc);
                return marks <= limit - deepest;
            },
        }
    }
}

} // verus!
