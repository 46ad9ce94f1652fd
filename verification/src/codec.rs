//! Binary encodings: big-endian integers, keys of the Merkle node column and
//! the list of pad pairs.

use crate::error::Error;
use crate::types::{DataRoot, PadPair};
use vstd::prelude::*;
use vstd::slice::slice_subrange;

verus! {

/// The eight bytes of `x`, most significant first.
#[verifier::opaque]
pub open spec fn be64(x: u64) -> Seq<u8> {
    seq![
        ((x / 0x100_0000_0000_0000) % 256) as u8,
        ((x / 0x1_0000_0000_0000) % 256) as u8,
        ((x / 0x100_0000_0000) % 256) as u8,
        ((x / 0x1_0000_0000) % 256) as u8,
        ((x / 0x100_0000) % 256) as u8,
        ((x / 0x1_0000) % 256) as u8,
        ((x / 0x100) % 256) as u8,
        (x % 256) as u8,
    ]
}

/// The number that eight bytes spell, most significant first.
pub open spec fn be64_value(s: Seq<u8>) -> int
    recommends
        s.len() == 8,
{
    s[0] * 0x100_0000_0000_0000 + s[1] * 0x1_0000_0000_0000 + s[2] * 0x100_0000_0000 + s[3]
        * 0x1_0000_0000 + s[4] * 0x100_0000 + s[5] * 0x1_0000 + s[6] * 0x100 + s[7]
}

/// Byte strings compared as a dictionary compares words: at the first place
/// where they differ the smaller byte decides, and a proper prefix comes first.
pub open spec fn lex_lt(a: Seq<u8>, b: Seq<u8>) -> bool {
    exists|i: int|
        0 <= i <= a.len() && i <= b.len() && #[trigger] a.take(i) == b.take(i) && (if i
            == a.len() {
            i < b.len()
        } else {
            i < b.len() && a[i] < b[i]
        })
}

/// `lex_lt` or equal.
pub open spec fn lex_le(a: Seq<u8>, b: Seq<u8>) -> bool {
    a == b || lex_lt(a, b)
}

/// Two byte strings of which neither comes after the other are the same.
pub proof fn lemma_lex_antisymmetric(a: Seq<u8>, b: Seq<u8>)
    requires
        lex_le(a, b),
        lex_le(b, a),
    ensures
        a == b,
{
    if a != b {
        let i = choose|i: int|
            0 <= i <= a.len() && i <= b.len() && #[trigger] a.take(i) == b.take(i) && (if i
                == a.len() {
                i < b.len()
            } else {
                i < b.len() && a[i] < b[i]
            });
        let j = choose|j: int|
            0 <= j <= b.len() && j <= a.len() && #[trigger] b.take(j) == a.take(j) && (if j
                == b.len() {
                j < a.len()
            } else {
                j < a.len() && b[j] < a[j]
            });
        if i < j {
            assert(b.take(j)[i] == a.take(j)[i]);
        } else if j < i {
            assert(a.take(i)[j] == b.take(i)[j]);
        }
    }
}

/// Decoding undoes encoding.
pub proof fn lemma_be64_value_of_be64(x: u64)
    ensures
        be64(x).len() == 8,
        be64_value(be64(x)) == x,
{
    reveal(be64);
    assert((((x / 0x100_0000_0000_0000) % 256) as u8) * 0x100_0000_0000_0000 + (((x
        / 0x1_0000_0000_0000) % 256) as u8) * 0x1_0000_0000_0000 + (((x / 0x100_0000_0000)
        % 256) as u8) * 0x100_0000_0000 + (((x / 0x1_0000_0000) % 256) as u8) * 0x1_0000_0000 + (((x
        / 0x100_0000) % 256) as u8) * 0x100_0000 + (((x / 0x1_0000) % 256) as u8) * 0x1_0000 + (((x
        / 0x100) % 256) as u8) * 0x100 + ((x % 256) as u8) == x) by (bit_vector);
}

/// Encoding undoes decoding: eight bytes are the encoding of exactly one number.
pub proof fn lemma_be64_of_be64_value(s: Seq<u8>)
    requires
        s.len() == 8,
    ensures
        0 <= be64_value(s) <= u64::MAX,
        be64(be64_value(s) as u64) == s,
{
    reveal(be64);
    let b0 = s[0];
    let b1 = s[1];
    let b2 = s[2];
    let b3 = s[3];
    let b4 = s[4];
    let b5 = s[5];
    let b6 = s[6];
    let b7 = s[7];
    let v = be64_value(s);
    assert(0 <= v <= u64::MAX);
    let x = v as u64;
    assert(x == b0 * 0x100_0000_0000_0000 + b1 * 0x1_0000_0000_0000 + b2 * 0x100_0000_0000 + b3
        * 0x1_0000_0000 + b4 * 0x100_0000 + b5 * 0x1_0000 + b6 * 0x100 + b7);
    assert(((x / 0x100_0000_0000_0000) % 256) as u8 == b0 && ((x / 0x1_0000_0000_0000) % 256) as u8
        == b1 && ((x / 0x100_0000_0000) % 256) as u8 == b2 && ((x / 0x1_0000_0000) % 256) as u8
        == b3 && ((x / 0x100_0000) % 256) as u8 == b4 && ((x / 0x1_0000) % 256) as u8 == b5 && ((x
        / 0x100) % 256) as u8 == b6 && (x % 256) as u8 == b7) by (bit_vector)
        requires
            x == b0 * 0x100_0000_0000_0000 + b1 * 0x1_0000_0000_0000 + b2 * 0x100_0000_0000 + b3
                * 0x1_0000_0000 + b4 * 0x100_0000 + b5 * 0x1_0000 + b6 * 0x100 + b7,
    ;
    assert(be64(x) =~= s);
}

/// Different numbers have different encodings.
pub proof fn lemma_be64_injective(x: u64, y: u64)
    ensures
        be64(x) == be64(y) <==> x == y,
{
    lemma_be64_value_of_be64(x);
    lemma_be64_value_of_be64(y);
}

/// Big-endian keys sort as the numbers they encode.
pub proof fn lemma_be64_order(x: u64, y: u64)
    ensures
        lex_lt(be64(x), be64(y)) <==> x < y,
        lex_le(be64(x), be64(y)) <==> x <= y,
{
    let a = be64(x);
    let b = be64(y);
    lemma_be64_value_of_be64(x);
    lemma_be64_value_of_be64(y);
    lemma_be64_injective(x, y);
    if lex_lt(a, b) {
        let i = choose|i: int|
            0 <= i <= a.len() && i <= b.len() && #[trigger] a.take(i) == b.take(i) && (if i
                == a.len() {
                i < b.len()
            } else {
                i < b.len() && a[i] < b[i]
            });
        assert(i < 8);
        assert forall|j: int| 0 <= j < i implies a[j] == b[j] by {
            assert(a.take(i)[j] == b.take(i)[j]);
        }
        assert(x < y);
    }
    if x < y {
        let i = first_difference(a, b, 0);
        lemma_first_difference(a, b, 0);
        assert(a.take(i) =~= b.take(i));
        assert(a[i] < b[i]);
    }
}

/// The first place at or after `from` where `a` and `b` differ, or the length
/// of `a` if there is none.
pub open spec fn first_difference(a: Seq<u8>, b: Seq<u8>, from: int) -> int
    decreases a.len() - from,
{
    if from < 0 || from >= a.len() || from >= b.len() {
        a.len() as int
    } else if a[from] != b[from] {
        from
    } else {
        first_difference(a, b, from + 1)
    }
}

proof fn lemma_first_difference(a: Seq<u8>, b: Seq<u8>, from: int)
    requires
        a.len() == b.len(),
        0 <= from <= a.len(),
    ensures
        from <= first_difference(a, b, from) <= a.len(),
        forall|j: int| from <= j < first_difference(a, b, from) ==> a[j] == b[j],
        first_difference(a, b, from) < a.len() ==> a[first_difference(a, b, from)] != b[first_difference(a, b, from)],
    decreases a.len() - from,
{
    if from < a.len() && a[from] == b[from] {
        lemma_first_difference(a, b, from + 1);
    }
}

/// Writes `x` as eight bytes, most significant first.
pub fn encode_u64(x: u64) -> (r: Vec<u8>)
    ensures
        r@ == be64(x),
        r@.len() == 8,
{
    let mut r: Vec<u8> = Vec::with_capacity(8);
    r.push(((x / 0x100_0000_0000_0000) % 256) as u8);
    r.push(((x / 0x1_0000_0000_0000) % 256) as u8);
    r.push(((x / 0x100_0000_0000) % 256) as u8);
    r.push(((x / 0x1_0000_0000) % 256) as u8);
    r.push(((x / 0x100_0000) % 256) as u8);
    r.push(((x / 0x1_0000) % 256) as u8);
    r.push(((x / 0x100) % 256) as u8);
    r.push((x % 256) as u8);
    proof {
        reveal(be64);
    }
    assert(r@ =~= be64(x));
    r
}

/// Reads eight bytes as a number, most significant first. Any other length is
/// not a number.
pub fn decode_u64(data: &[u8]) -> (r: Option<u64>)
    ensures
        data@.len() == 8 ==> r == Some(be64_value(data@) as u64) && be64(r.unwrap()) == data@,
        data@.len() != 8 ==> r is None,
{
    if data.len() != 8 {
        return None;
    }
    proof {
        lemma_be64_of_be64_value(data@);
    }
    let x: u64 = (data[0] as u64) * 0x100_0000_0000_0000 + (data[1] as u64) * 0x1_0000_0000_0000
        + (data[2] as u64) * 0x100_0000_0000 + (data[3] as u64) * 0x1_0000_0000 + (data[4] as u64)
        * 0x100_0000 + (data[5] as u64) * 0x1_0000 + (data[6] as u64) * 0x100 + (data[7] as u64);
    Some(x)
}

/// Reads eight big-endian bytes as a `usize`.
pub fn try_decode_usize(data: &[u8]) -> (r: Result<usize, Error>)
    ensures
        data@.len() == 8 && be64_value(data@) <= usize::MAX ==> r == Ok::<usize, Error>(
            be64_value(data@) as usize,
        ),
        !(data@.len() == 8 && be64_value(data@) <= usize::MAX) ==> r == Err::<usize, Error>(
            Error::Codec,
        ),
{
    match decode_u64(data) {
        Some(x) => {
            if x <= usize::MAX as u64 {
                Ok(x as usize)
            } else {
                Err(Error::Codec)
            }
        },
        None => Err(Error::Codec),
    }
}

/// Reads the key of a batch row as the batch's index.
pub fn decode_batch_index(data: &[u8]) -> (r: Result<usize, Error>)
    ensures
        data@.len() == 8 && be64_value(data@) <= usize::MAX ==> r == Ok::<usize, Error>(
            be64_value(data@) as usize,
        ),
        !(data@.len() == 8 && be64_value(data@) <= usize::MAX) ==> r == Err::<usize, Error>(
            Error::Codec,
        ),
{
    try_decode_usize(data)
}

/// The key of the Merkle node at `position` in layer `layer_index`: the two
/// numbers, eight big-endian bytes each.
pub open spec fn mpt_node_key(layer_index: usize, position: usize) -> Seq<u8> {
    be64(layer_index as u64) + be64(position as u64)
}

/// The ASCII bytes of `layer_size`.
pub open spec fn layer_size_prefix() -> Seq<u8> {
    seq![108u8, 97u8, 121u8, 101u8, 114u8, 95u8, 115u8, 105u8, 122u8, 101u8]
}

/// The key under which the size of layer `layer` is kept: the prefix
/// `layer_size`, then the layer as eight big-endian bytes.
pub open spec fn spec_layer_size_key(layer: usize) -> Seq<u8> {
    layer_size_prefix() + be64(layer as u64)
}

/// The key of the Merkle node at `position` in layer `layer_index`.
pub fn encode_mpt_node_key(layer_index: usize, position: usize) -> (key: Vec<u8>)
    ensures
        key@ == mpt_node_key(layer_index, position),
{
    let mut key = encode_u64(layer_index as u64);
    let mut tail = encode_u64(position as u64);
    key.append(&mut tail);
    key
}

/// The key under which the size of layer `layer` is kept.
pub fn layer_size_key(layer: usize) -> (key: Vec<u8>)
    ensures
        key@ == spec_layer_size_key(layer),
{
    let mut key: Vec<u8> = Vec::with_capacity(18);
    key.push(108u8);
    key.push(97u8);
    key.push(121u8);
    key.push(101u8);
    key.push(114u8);
    key.push(95u8);
    key.push(115u8);
    key.push(105u8);
    key.push(122u8);
    key.push(101u8);
    assert(key@ =~= layer_size_prefix());
    let mut tail = encode_u64(layer as u64);
    key.append(&mut tail);
    key
}

/// Node keys and layer-size keys never meet, and each kind of key names one
/// node or one layer only.
pub proof fn lemma_mpt_keys_distinct(
    layer_a: usize,
    position_a: usize,
    layer_b: usize,
    position_b: usize,
)
    ensures
        mpt_node_key(layer_a, position_a).len() == 16,
        spec_layer_size_key(layer_a).len() == 18,
        mpt_node_key(layer_a, position_a) != spec_layer_size_key(layer_b),
        mpt_node_key(layer_a, position_a) == mpt_node_key(layer_b, position_b) <==> layer_a
            == layer_b && position_a == position_b,
        spec_layer_size_key(layer_a) == spec_layer_size_key(layer_b) <==> layer_a == layer_b,
{
    lemma_be64_injective(layer_a as u64, layer_b as u64);
    lemma_be64_injective(position_a as u64, position_b as u64);
    lemma_be64_value_of_be64(layer_a as u64);
    lemma_be64_value_of_be64(layer_b as u64);
    lemma_be64_value_of_be64(position_a as u64);
    lemma_be64_value_of_be64(position_b as u64);
    let ka = mpt_node_key(layer_a, position_a);
    let kb = mpt_node_key(layer_b, position_b);
    if ka == kb {
        assert(ka.subrange(0, 8) =~= be64(layer_a as u64));
        assert(kb.subrange(0, 8) =~= be64(layer_b as u64));
        assert(ka.subrange(8, 16) =~= be64(position_a as u64));
        assert(kb.subrange(8, 16) =~= be64(position_b as u64));
    }
    let sa = spec_layer_size_key(layer_a);
    let sb = spec_layer_size_key(layer_b);
    assert(ka.len() == 16 && sb.len() == 18);
    if sa == sb {
        assert(sa.subrange(10, 18) =~= be64(layer_a as u64));
        assert(sb.subrange(10, 18) =~= be64(layer_b as u64));
    }
}

/// The sixteen bytes of a pad pair: its start index, then its size, eight
/// big-endian bytes each.
pub open spec fn pad_pair_bytes(p: PadPair) -> Seq<u8> {
    be64(p.start_index) + be64(p.data_size)
}

/// The bytes of a list of pad pairs: the pairs' bytes one after another.
pub open spec fn pad_list_bytes(list: Seq<PadPair>) -> Seq<u8> {
    Seq::new(16 * list.len(), |i: int| pad_pair_bytes(list[i / 16])[i % 16])
}

/// The list of pad pairs that `bytes` spell, sixteen bytes to a pair.
pub open spec fn pad_list_of_bytes(bytes: Seq<u8>) -> Seq<PadPair> {
    Seq::new(
        (bytes.len() / 16) as nat,
        |j: int|
            PadPair {
                start_index: be64_value(bytes.subrange(16 * j, 16 * j + 8)) as u64,
                data_size: be64_value(bytes.subrange(16 * j + 8, 16 * j + 16)) as u64,
            },
    )
}

/// Decoding the bytes of a list gives the list back.
pub proof fn lemma_pad_list_roundtrip(list: Seq<PadPair>)
    ensures
        pad_list_bytes(list).len() == 16 * list.len(),
        pad_list_of_bytes(pad_list_bytes(list)) == list,
{
    let bytes = pad_list_bytes(list);
    let back = pad_list_of_bytes(bytes);
    assert(back.len() == list.len());
    assert forall|j: int| 0 <= j < list.len() implies back[j] == list[j] by {
        let p = list[j];
        lemma_be64_value_of_be64(p.start_index);
        lemma_be64_value_of_be64(p.data_size);
        assert(bytes.subrange(16 * j, 16 * j + 8) =~= be64(p.start_index)) by {
            assert forall|t: int| 0 <= t < 8 implies bytes.subrange(16 * j, 16 * j + 8)[t] == be64(
                p.start_index,
            )[t] by {
                assert((16 * j + t) / 16 == j && (16 * j + t) % 16 == t);
            }
        }
        assert(bytes.subrange(16 * j + 8, 16 * j + 16) =~= be64(p.data_size)) by {
            assert forall|t: int| 0 <= t < 8 implies bytes.subrange(16 * j + 8, 16 * j + 16)[t]
                == be64(p.data_size)[t] by {
                assert((16 * j + 8 + t) / 16 == j && (16 * j + 8 + t) % 16 == 8 + t);
            }
        }
    }
    assert(back =~= list);
}

/// Encoding the list that well-sized bytes spell gives the bytes back.
pub proof fn lemma_pad_bytes_roundtrip(bytes: Seq<u8>)
    requires
        bytes.len() % 16 == 0,
    ensures
        pad_list_bytes(pad_list_of_bytes(bytes)) == bytes,
{
    let list = pad_list_of_bytes(bytes);
    let again = pad_list_bytes(list);
    assert(again.len() == bytes.len());
    assert forall|i: int| 0 <= i < bytes.len() implies again[i] == bytes[i] by {
        let j = i / 16;
        let t = i % 16;
        let lo = bytes.subrange(16 * j, 16 * j + 8);
        let hi = bytes.subrange(16 * j + 8, 16 * j + 16);
        lemma_be64_of_be64_value(lo);
        lemma_be64_of_be64_value(hi);
        if t < 8 {
            assert(lo[t] == bytes[i]);
        } else {
            assert(hi[t - 8] == bytes[i]);
        }
    }
    assert(again =~= bytes);
}

/// The bytes stored for a list of pad pairs.
pub fn encode_pad_pairs(list: &[PadPair]) -> (buffer: Vec<u8>)
    ensures
        buffer@ == pad_list_bytes(list@),
{
    let mut buffer: Vec<u8> = Vec::new();
    let mut i: usize = 0;
    while i < list.len()
        invariant
            i <= list.len(),
            buffer@ == pad_list_bytes(list@.take(i as int)),
        decreases list.len() - i,
    {
        let item = list[i];
        let mut first = encode_u64(item.start_index);
        let mut second = encode_u64(item.data_size);
        let ghost before = buffer@;
        buffer.append(&mut first);
        buffer.append(&mut second);
        proof {
            let next = pad_list_bytes(list@.take(i as int + 1));
            assert(buffer@ == before + be64(item.start_index) + be64(item.data_size));
            assert(buffer@.len() == next.len());
            assert forall|t: int| 0 <= t < next.len() implies buffer@[t] == next[t] by {
                if t < 16 * i {
                    assert(list@.take(i as int)[t / 16] == list@.take(i as int + 1)[t / 16]);
                } else {
                    assert(t / 16 == i && t % 16 == t - 16 * i);
                }
            }
            assert(buffer@ =~= next);
        }
        i += 1;
    }
    assert(list@.take(list.len() as int) =~= list@);
    buffer
}

/// The list of pad pairs stored as `bytes`; bytes that are not a whole number
/// of pairs do not decode.
pub fn decode_pad_pairs(bytes: &[u8]) -> (r: Result<Vec<PadPair>, Error>)
    ensures
        bytes@.len() % 16 == 0 ==> r is Ok && r.unwrap()@ == pad_list_of_bytes(bytes@),
        bytes@.len() % 16 != 0 ==> r == Err::<Vec<PadPair>, Error>(Error::Codec),
{
    if bytes.len() % 16 != 0 {
        return Err(Error::Codec);
    }
    let n: usize = bytes.len() / 16;
    let mut list: Vec<PadPair> = Vec::with_capacity(n);
    let mut j: usize = 0;
    while j < n
        invariant
            j <= n,
            16 * n == bytes.len(),
            list@ == pad_list_of_bytes(bytes@).take(j as int),
        decreases n - j,
    {
        let lo = slice_subrange(bytes, 16 * j, 16 * j + 8);
        let hi = slice_subrange(bytes, 16 * j + 8, 16 * j + 16);
        let start_index: u64 = decode_u64(lo).unwrap();
        let data_size: u64 = decode_u64(hi).unwrap();
        list.push(PadPair { start_index, data_size });
        proof {
            assert(list@ =~= pad_list_of_bytes(bytes@).take(j as int + 1));
        }
        j += 1;
    }
    assert(pad_list_of_bytes(bytes@).take(n as int) =~= pad_list_of_bytes(bytes@));
    Ok(list)
}

/// The root of a batch: of all of it, or of its first `count` sectors.
#[derive(Clone, Copy, Debug)]
pub enum BatchRoot {
    Single(DataRoot),
    Multiple((usize, DataRoot)),
}

/// The bytes of a batch root: a tag byte, 0 for `Single` and 1 for
/// `Multiple`; for `Multiple` the count as eight big-endian bytes; then the
/// thirty-two bytes of the hash.
pub open spec fn batch_root_bytes(root: BatchRoot) -> Seq<u8> {
    match root {
        BatchRoot::Single(h) => seq![0u8] + h@,
        BatchRoot::Multiple((count, h)) => seq![1u8] + be64(count as u64) + h@,
    }
}

/// The batch root that `bytes` spell, if they spell one.
pub open spec fn batch_root_of_bytes(bytes: Seq<u8>) -> Option<(bool, usize, Seq<u8>)> {
    if bytes.len() == 33 && bytes[0] == 0 {
        Some((false, 0usize, bytes.subrange(1, 33)))
    } else if bytes.len() == 41 && bytes[0] == 1 && be64_value(bytes.subrange(1, 9))
        <= usize::MAX {
        Some((true, be64_value(bytes.subrange(1, 9)) as usize, bytes.subrange(9, 41)))
    } else {
        None
    }
}

/// What `batch_root_of_bytes` gives for the bytes of `root`.
pub open spec fn batch_root_parts(root: BatchRoot) -> (bool, usize, Seq<u8>) {
    match root {
        BatchRoot::Single(h) => (false, 0usize, h@),
        BatchRoot::Multiple((count, h)) => (true, count, h@),
    }
}

/// Decoding the bytes of a batch root gives the root back.
pub proof fn lemma_batch_root_roundtrip(root: BatchRoot)
    ensures
        batch_root_of_bytes(batch_root_bytes(root)) == Some(batch_root_parts(root)),
{
    let bytes = batch_root_bytes(root);
    match root {
        BatchRoot::Single(h) => {
            assert(bytes.subrange(1, 33) =~= h@);
        },
        BatchRoot::Multiple((count, h)) => {
            lemma_be64_value_of_be64(count as u64);
            assert(bytes.subrange(1, 9) =~= be64(count as u64));
            assert(bytes.subrange(9, 41) =~= h@);
        },
    }
}

/// Bytes that decode to a batch root are the bytes of that root.
pub proof fn lemma_batch_root_bytes_roundtrip(bytes: Seq<u8>, root: BatchRoot)
    requires
        batch_root_of_bytes(bytes) == Some(batch_root_parts(root)),
    ensures
        batch_root_bytes(root) == bytes,
{
    match root {
        BatchRoot::Single(h) => {
            assert(batch_root_bytes(root) =~= bytes);
        },
        BatchRoot::Multiple((count, h)) => {
            lemma_be64_of_be64_value(bytes.subrange(1, 9));
            assert(batch_root_bytes(root) =~= bytes);
        },
    }
}

impl BatchRoot {
    /// The bytes stored for this root.
    pub fn encode(&self) -> (bytes: Vec<u8>)
        ensures
            bytes@ == batch_root_bytes(*self),
    {
        let mut bytes: Vec<u8> = Vec::new();
        match self {
            BatchRoot::Single(h) => {
                bytes.push(0u8);
                push_hash(&mut bytes, h);
            },
            BatchRoot::Multiple((count, h)) => {
                bytes.push(1u8);
                let mut number = encode_u64(*count as u64);
                bytes.append(&mut number);
                push_hash(&mut bytes, h);
            },
        }
        bytes
    }

    /// The root stored as `bytes`; anything but a tag of 0 or 1 followed by
    /// data of the right length does not decode.
    pub fn decode(bytes: &[u8]) -> (r: Result<BatchRoot, Error>)
        ensures
            batch_root_of_bytes(bytes@) is Some ==> r is Ok && batch_root_parts(r.unwrap())
                == batch_root_of_bytes(bytes@).unwrap(),
            batch_root_of_bytes(bytes@) is None ==> r is Err && r.unwrap_err() == Error::Codec,
    {
        if bytes.len() == 33 && bytes[0] == 0 {
            let h = read_hash(bytes, 1);
            Ok(BatchRoot::Single(h))
        } else if bytes.len() == 41 && bytes[0] == 1 {
            match try_decode_usize(slice_subrange(bytes, 1, 9)) {
                Ok(count) => {
                    let h = read_hash(bytes, 9);
                    Ok(BatchRoot::Multiple((count, h)))
                },
                Err(_) => Err(Error::Codec),
            }
        } else {
            Err(Error::Codec)
        }
    }
}

/// Appends the thirty-two bytes of `h` to `bytes`.
pub fn push_hash(bytes: &mut Vec<u8>, h: &DataRoot)
    ensures
        final(bytes)@ == old(bytes)@ + h@,
{
    let mut i: usize = 0;
    while i < 32
        invariant
            i <= 32,
            bytes@ == old(bytes)@ + h@.take(i as int),
        decreases 32 - i,
    {
        bytes.push(h.bytes[i]);
        assert(bytes@ =~= old(bytes)@ + h@.take(i as int + 1));
        i += 1;
    }
    assert(h@.take(32) =~= h@);
}

/// Reads the thirty-two bytes at `at` as a hash.
pub fn read_hash(bytes: &[u8], at: usize) -> (h: DataRoot)
    requires
        at + 32 <= bytes@.len(),
    ensures
        h@ == bytes@.subrange(at as int, at + 32),
{
    let mut out: [u8; 32] = [0u8; 32];
    let mut i: usize = 0;
    while i < 32
        invariant
            i <= 32,
            at + 32 <= bytes.len(),
            forall|j: int| 0 <= j < i ==> out@[j] == bytes@[at + j],
        decreases 32 - i,
    {
        out[i] = bytes[at + i];
        i += 1;
    }
    let h = DataRoot { bytes: out };
    assert(h@ =~= bytes@.subrange(at as int, at + 32));
    h
}

} // verus!
