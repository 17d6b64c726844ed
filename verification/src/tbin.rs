//! The trail binary format: a version word, a map id word, then the trail
//! nodes as triples of little-endian 32-bit floats.
//!
//! Words of the header are read in the machine's byte order. The library
//! reads the layout and the bits of each coordinate; turning the bits into
//! floats is left to the caller.

use vstd::prelude::*;

verus! {

/// The value of four bytes read least significant first.
pub open spec fn le_word(b0: u8, b1: u8, b2: u8, b3: u8) -> int {
    b0 + 256 * b1 + 65536 * b2 + 16777216 * b3
}

/// The value of four bytes read most significant first.
pub open spec fn be_word(b0: u8, b1: u8, b2: u8, b3: u8) -> int {
    le_word(b3, b2, b1, b0)
}

/// The little-endian word at `at` in `bytes`.
pub open spec fn le_word_at(bytes: Seq<u8>, at: int) -> int {
    le_word(bytes[at], bytes[at + 1], bytes[at + 2], bytes[at + 3])
}

/// `u32::from_ne_bytes`: the word in the machine's byte order. Which order
/// that is depends on the machine, so the contract leaves both open.
#[verifier::external_body]
fn u32_from_ne_bytes(b: [u8; 4]) -> (r: u32)
    ensures
        r == le_word(b[0], b[1], b[2], b[3]) || r == be_word(b[0], b[1], b[2], b[3]),
{
    u32::from_ne_bytes(b)
}

/// The little-endian word of four bytes.
fn u32_from_le(b0: u8, b1: u8, b2: u8, b3: u8) -> (r: u32)
    ensures
        r == le_word(b0, b1, b2, b3),
{
    (b0 as u32) + (b1 as u32) * 256 + (b2 as u32) * 65536 + (b3 as u32) * 16777216
}

/// A trail file as laid out: the header words and the bits of each node's
/// three coordinates.
pub struct TBinLayout {
    pub map_id: u32,
    pub version: u32,
    pub nodes: Vec<[u32; 3]>,
}

/// Reads the layout of a trail file. A file shorter than the two header
/// words gives `None`. The version is the first word and the map id the
/// second, each in the machine's byte order. Nodes are read from each whole
/// group of twelve bytes after the header; a shorter remainder is ignored.
pub fn parse_tbin_layout(bytes: &[u8]) -> (r: Option<TBinLayout>)
    ensures
        r is None <==> bytes@.len() < 8,
        r matches Some(t) ==> {
            &&& (t.version == le_word(bytes@[0], bytes@[1], bytes@[2], bytes@[3])
                || t.version == be_word(bytes@[0], bytes@[1], bytes@[2], bytes@[3]))
            &&& (t.map_id == le_word(bytes@[4], bytes@[5], bytes@[6], bytes@[7])
                || t.map_id == be_word(bytes@[4], bytes@[5], bytes@[6], bytes@[7]))
            &&& t.nodes.len() == (bytes@.len() - 8) / 12
            &&& forall|k: int, j: int| 0 <= k < t.nodes.len() && 0 <= j < 3
                ==> #[trigger] t.nodes[k][j] == le_word_at(bytes@, 8 + 12 * k + 4 * j)
        },
{
    let len = bytes.len();
    if len < 8 {
        return None;
    }
    let version = u32_from_ne_bytes([bytes[0], bytes[1], bytes[2], bytes[3]]);
    let map_id = u32_from_ne_bytes([bytes[4], bytes[5], bytes[6], bytes[7]]);
    let count = (len - 8) / 12;
    let mut nodes: Vec<[u32; 3]> = Vec::new();
    let mut k: usize = 0;
    while k < count
        invariant
            len == bytes@.len(),
            len >= 8,
            count == (len - 8) / 12,
            0 <= k <= count,
            nodes.len() == k,
            forall|q: int, j: int| 0 <= q < k && 0 <= j < 3
                ==> #[trigger] nodes[q][j] == le_word_at(bytes@, 8 + 12 * q + 4 * j),
        decreases count - k,
    {
        assert(8 + 12 * k + 12 <= len) by (nonlinear_arith)
            requires
                k < count,
                count == (len - 8) / 12,
                len >= 8,
        ;
        let at = 8 + 12 * k;
        let x = u32_from_le(bytes[at], bytes[at + 1], bytes[at + 2], bytes[at + 3]);
        let y = u32_from_le(bytes[at + 4], bytes[at + 5], bytes[at + 6], bytes[at + 7]);
        let z = u32_from_le(bytes[at + 8], bytes[at + 9], bytes[at + 10], bytes[at + 11]);
        nodes.push([x, y, z]);
        proof {
            assert forall|q: int, j: int| 0 <= q < k + 1 && 0 <= j < 3
                implies #[trigger] nodes[q][j] == le_word_at(bytes@, 8 + 12 * q + 4 * j) by {
                if q == k {
                    assert(nodes[q] == [x, y, z]);
                }
            }
        }
        k = k + 1;
    }
    Some(TBinLayout { map_id, version, nodes })
}

/// The word at `at` in `bytes` is `value`, in one byte order or the other.
pub open spec fn word_encodes(bytes: Seq<u8>, at: int, value: u32) -> bool {
    ||| le_word_at(bytes, at) == value
    ||| be_word(bytes[at], bytes[at + 1], bytes[at + 2], bytes[at + 3]) == value
}

/// `u32::to_ne_bytes`: the bytes of the word in the machine's byte order,
/// which the contract leaves open.
#[verifier::external_body]
fn u32_to_ne_bytes(x: u32) -> (r: [u8; 4])
    ensures
        le_word(r[0], r[1], r[2], r[3]) == x || be_word(r[0], r[1], r[2], r[3]) == x,
{
    x.to_ne_bytes()
}

/// Appends the four bytes of a word in the machine's byte order.
fn push_word(bytes: &mut Vec<u8>, x: u32)
    ensures
        final(bytes)@.len() == old(bytes)@.len() + 4,
        final(bytes)@.subrange(0, old(bytes)@.len() as int) == old(bytes)@,
        word_encodes(final(bytes)@, old(bytes)@.len() as int, x),
{
    let b = u32_to_ne_bytes(x);
    bytes.push(b[0]);
    bytes.push(b[1]);
    bytes.push(b[2]);
    bytes.push(b[3]);
}

/// The bytes of a trail file: the version word, the map id word, then the
/// three coordinate words of each node, all in the machine's byte order.
pub fn tbin_bytes(version: u32, map_id: u32, nodes: &Vec<[u32; 3]>) -> (r: Vec<u8>)
    requires
        8 + 12 * nodes.len() <= usize::MAX,
    ensures
        r@.len() == 8 + 12 * nodes.len(),
        word_encodes(r@, 0, version),
        word_encodes(r@, 4, map_id),
        forall|k: int, j: int| 0 <= k < nodes.len() && 0 <= j < 3
            ==> #[trigger] word_encodes(r@, 8 + 12 * k + 4 * j, nodes[k][j]),
{
    let mut bytes: Vec<u8> = Vec::new();
    push_word(&mut bytes, version);
    let ghost first = bytes@;
    push_word(&mut bytes, map_id);
    proof {
        assert(bytes@.subrange(0, 4) == first);
        assert forall|i: int| 0 <= i < 4 implies bytes@[i] == first[i] by {
            assert(bytes@.subrange(0, 4)[i] == bytes@[i]);
        }
    }
    let mut k: usize = 0;
    while k < nodes.len()
        invariant
            8 + 12 * nodes.len() <= usize::MAX,
            0 <= k <= nodes.len(),
            bytes@.len() == 8 + 12 * k,
            word_encodes(bytes@, 0, version),
            word_encodes(bytes@, 4, map_id),
            forall|q: int, j: int| 0 <= q < k && 0 <= j < 3
                ==> #[trigger] word_encodes(bytes@, 8 + 12 * q + 4 * j, nodes[q][j]),
        decreases nodes.len() - k,
    {
        let ghost before = bytes@;
        let node = nodes[k];
        push_word(&mut bytes, node[0]);
        let ghost b1 = bytes@;
        push_word(&mut bytes, node[1]);
        let ghost b2 = bytes@;
        push_word(&mut bytes, node[2]);
        proof {
            let n = before.len() as int;
            assert forall|i: int| 0 <= i < n implies bytes@[i] == before[i] by {
                assert(bytes@.subrange(0, n + 8)[i] == b2[i]);
                assert(b2.subrange(0, n + 4)[i] == b1[i]);
                assert(b1.subrange(0, n)[i] == before[i]);
            }
            assert forall|i: int| n <= i < n + 8 implies bytes@[i] == b2[i] by {
                assert(bytes@.subrange(0, n + 8)[i] == b2[i]);
            }
            assert forall|i: int| n <= i < n + 4 implies b2[i] == b1[i] by {
                assert(b2.subrange(0, n + 4)[i] == b1[i]);
            }
            assert forall|q: int, j: int| 0 <= q < k + 1 && 0 <= j < 3
                implies #[trigger] word_encodes(bytes@, 8 + 12 * q + 4 * j, nodes[q][j]) by {
                if q < k {
                    assert(word_encodes(before, 8 + 12 * q + 4 * j, nodes[q][j]));
                }
            }
        }
        k = k + 1;
    }
    bytes
}

} // verus!
