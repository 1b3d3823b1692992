//! Decoding an encoded byte stream back into points.
//!
//! The first four bytes carry `width` and `height` as big-endian 16-bit
//! integers; the rest is read as big-endian 16-bit words (a trailing lone
//! byte counts as the high byte of a final word). Bit `j` of word `i` marks
//! the cell with flattened index `i * 16 + j`; every marked cell whose row
//! lies inside the grid becomes a point. Any buffer of at least four bytes
//! decodes to some point sequence; a shorter buffer is malformed input.

use crate::components::visuals::Point;
use crate::data_structures::quadtree::{lemma_all_points_in_region, point_in_region, Quadtree};
use crate::encoding::Decodable;
use crate::encoding::encoder::{
    cell_point, encode_spec, lemma_two_pow_16, lemma_two_pow_mono, lemma_word_of_bound, pack_cells,
    tree_cells, two_pow, word_bytes, word_of,
};
use vstd::prelude::*;

verus! {

/// The low `n` bits of a word value, least significant first.
pub open spec fn bits_of(v: nat, n: nat) -> Seq<bool>
    decreases n,
{
    if n == 0 {
        Seq::empty()
    } else {
        seq![v % 2 == 1] + bits_of(v / 2, (n - 1) as nat)
    }
}

/// The value of a big-endian 16-bit word with the given two bytes.
pub open spec fn word_value(b0: u8, b1: u8) -> nat {
    (b0 * 256 + b1) as nat
}

/// All presence cells of a data stream, two bytes to a word, a trailing lone
/// byte read as a final word's high byte.
pub open spec fn unpack_bytes(bytes: Seq<u8>) -> Seq<bool>
    decreases bytes.len(),
{
    if bytes.len() == 0 {
        Seq::empty()
    } else if bytes.len() == 1 {
        bits_of(word_value(bytes[0], 0), 16)
    } else {
        bits_of(word_value(bytes[0], bytes[1]), 16) + unpack_bytes(bytes.skip(2))
    }
}

/// The width carried by an encoded buffer's header.
pub open spec fn header_width(bytes: Seq<u8>) -> int {
    bytes[0] * 256 + bytes[1]
}

/// The height carried by an encoded buffer's header.
pub open spec fn header_height(bytes: Seq<u8>) -> int {
    bytes[2] * 256 + bytes[3]
}

/// The points named by the set cells from flattened index `f` on, in index
/// order; cells on rows at or below `h` are padding and name no point.
pub open spec fn points_from(cells: Seq<bool>, w: int, h: int, f: int) -> Seq<Point>
    decreases cells.len() - f,
{
    if 0 < w && 0 <= f < cells.len() {
        let rest = points_from(cells, w, h, f + 1);
        if cells[f] && f / w < h {
            seq![Point { x: (f % w) as u32, y: (f / w) as u32 }] + rest
        } else {
            rest
        }
    } else {
        Seq::empty()
    }
}

/// What a buffer of at least four bytes decodes to.
pub open spec fn decode_spec(bytes: Seq<u8>) -> Seq<Point> {
    points_from(unpack_bytes(bytes.skip(4)), header_width(bytes), header_height(bytes), 0)
}

/// A decode failure: the recoverable error of this codec.
#[derive(Clone, Copy, Debug, PartialEq, Eq, Structural)]
pub enum DecodeError {
    /// The buffer is shorter than the 4-byte header.
    MalformedInput,
}

/// `bits_of` yields exactly the requested number of bits.
pub proof fn lemma_bits_of_len(v: nat, n: nat)
    ensures
        bits_of(v, n).len() == n,
    decreases n,
{
    if n > 0 {
        lemma_bits_of_len(v / 2, (n - 1) as nat);
    }
}

/// Bit `j` of a word is the parity of the word shifted down `j` places.
proof fn lemma_bits_of_index(v: nat, n: nat, j: int)
    requires
        0 <= j < n,
    ensures
        bits_of(v, n)[j] == ((v as int / two_pow(j as nat) as int) % 2 == 1),
    decreases j,
{
    lemma_bits_of_len(v, n);
    if j == 0 {
        assert(two_pow(0) == 1);
        assert(v as int / 1int == v as int);
    } else {
        lemma_bits_of_index(v / 2, (n - 1) as nat, j - 1);
        assert(bits_of(v, n)[j] == bits_of(v / 2, (n - 1) as nat)[j - 1]);
        assert(0 < two_pow((j - 1) as nat)) by {
            lemma_two_pow_pos((j - 1) as nat);
        }
        vstd::arithmetic::div_mod::lemma_div_denominator(
            v as int,
            2,
            two_pow((j - 1) as nat) as int,
        );
        assert(two_pow(j as nat) == 2 * two_pow((j - 1) as nat));
        assert((v / 2) as int == v as int / 2);
    }
}

/// Every weight is positive.
proof fn lemma_two_pow_pos(n: nat)
    ensures
        0 < two_pow(n),
    decreases n,
{
    if n > 0 {
        lemma_two_pow_pos((n - 1) as nat);
    }
}

/// The number of cells a data stream unpacks to: sixteen per started word.
pub proof fn lemma_unpack_len(data: Seq<u8>)
    ensures
        unpack_bytes(data).len() == 16 * ((data.len() + 1) / 2),
    decreases data.len(),
{
    if data.len() == 0 {
    } else if data.len() == 1 {
        lemma_bits_of_len(word_value(data[0], 0), 16);
    } else {
        lemma_bits_of_len(word_value(data[0], data[1]), 16);
        lemma_unpack_len(data.skip(2));
    }
}

/// The sixteen cells of word `k` of a data stream are the bits of that
/// word's value.
proof fn lemma_unpack_word(data: Seq<u8>, k: int)
    requires
        0 <= k,
        2 * k < data.len(),
    ensures
        unpack_bytes(data).subrange(16 * k, 16 * k + 16) == bits_of(
            word_value(
                data[2 * k],
                if 2 * k + 1 < data.len() {
                    data[2 * k + 1]
                } else {
                    0
                },
            ),
            16,
        ),
    decreases k,
{
    lemma_unpack_len(data);
    if k == 0 {
        if data.len() == 1 {
            lemma_bits_of_len(word_value(data[0], 0), 16);
            assert(unpack_bytes(data).subrange(0, 16) =~= bits_of(word_value(data[0], 0), 16));
        } else {
            lemma_bits_of_len(word_value(data[0], data[1]), 16);
            lemma_unpack_len(data.skip(2));
            assert(unpack_bytes(data).subrange(0, 16) =~= bits_of(
                word_value(data[0], data[1]),
                16,
            ));
        }
    } else {
        lemma_bits_of_len(word_value(data[0], data[1]), 16);
        lemma_unpack_word(data.skip(2), k - 1);
        lemma_unpack_len(data.skip(2));
        assert(data.skip(2)[2 * (k - 1)] == data[2 * k]);
        assert(2 * k + 1 < data.len() ==> data.skip(2)[2 * (k - 1) + 1] == data[2 * k + 1]);
        assert(unpack_bytes(data).subrange(16 * k, 16 * k + 16) =~= unpack_bytes(
            data.skip(2),
        ).subrange(16 * (k - 1), 16 * (k - 1) + 16));
    }
}

/// Reading back the low bits of a word's value recovers the cells the word
/// was packed from, followed by zero padding.
proof fn lemma_bits_of_word_of(s: Seq<bool>, n: nat)
    requires
        s.len() <= n,
    ensures
        bits_of(word_of(s), n) == s + Seq::new((n - s.len()) as nat, |k: int| false),
    decreases n,
{
    lemma_bits_of_len(word_of(s), n);
    if n == 0 {
        assert(bits_of(word_of(s), n) =~= s + Seq::new((n - s.len()) as nat, |k: int| false));
    } else if s.len() == 0 {
        assert(word_of(s) == 0);
        lemma_bits_of_word_of(s, (n - 1) as nat);
        assert(bits_of(0, n) =~= s + Seq::new((n - s.len()) as nat, |k: int| false));
    } else {
        let b: int = if s[0] {
            1
        } else {
            0
        };
        let m = word_of(s.drop_first());
        vstd::arithmetic::div_mod::lemma_fundamental_div_mod_converse(b + 2 * m, 2, m as int, b);
        assert(word_of(s) as int % 2 == b && word_of(s) as int / 2 == m as int);
        lemma_bits_of_word_of(s.drop_first(), (n - 1) as nat);
        assert(bits_of(word_of(s), n) =~= s + Seq::new((n - s.len()) as nat, |k: int| false));
    }
}

/// Unpacking packed cells recovers them exactly, followed by the zero bits
/// that padded out the final word.
pub proof fn lemma_unpack_pack(cells: Seq<bool>)
    ensures
        cells.len() <= unpack_bytes(pack_cells(cells)).len(),
        unpack_bytes(pack_cells(cells)).take(cells.len() as int) == cells,
        forall|k: int|
            cells.len() <= k < unpack_bytes(pack_cells(cells)).len() ==> !unpack_bytes(
                pack_cells(cells),
            )[k],
    decreases cells.len(),
{
    let packed = pack_cells(cells);
    let unpacked = unpack_bytes(packed);
    if cells.len() == 0 {
        assert(unpacked.take(0) =~= cells);
    } else if cells.len() <= 16 {
        let word = word_of(cells);
        lemma_word_of_bound(cells);
        lemma_two_pow_16();
        lemma_two_pow_mono(cells.len(), 16);
        assert(word < 65536);
        vstd::arithmetic::div_mod::lemma_fundamental_div_mod(word as int, 256);
        vstd::arithmetic::div_mod::lemma_mod_bound(word as int, 256);
        assert(packed =~= seq![(word / 256) as u8, (word % 256) as u8]);
        assert(word_value((word / 256) as u8, (word % 256) as u8) == word);
        assert(packed.skip(2) =~= Seq::<u8>::empty());
        assert(unpack_bytes(Seq::<u8>::empty()) =~= Seq::<bool>::empty());
        assert(unpacked =~= bits_of(word, 16));
        lemma_bits_of_word_of(cells, 16);
        assert(unpacked.take(cells.len() as int) =~= cells);
    } else {
        let head = cells.take(16);
        let tail = cells.skip(16);
        let word = word_of(head);
        lemma_word_of_bound(head);
        lemma_two_pow_16();
        assert(word < 65536);
        vstd::arithmetic::div_mod::lemma_fundamental_div_mod(word as int, 256);
        vstd::arithmetic::div_mod::lemma_mod_bound(word as int, 256);
        assert(packed == word_bytes(word) + pack_cells(tail));
        assert(packed.len() >= 2);
        assert(packed[0] == (word / 256) as u8 && packed[1] == (word % 256) as u8);
        assert(word_value(packed[0], packed[1]) == word);
        assert(packed.skip(2) =~= pack_cells(tail));
        assert(unpacked == bits_of(word, 16) + unpack_bytes(pack_cells(tail)));
        lemma_bits_of_word_of(head, 16);
        assert(bits_of(word, 16) =~= head);
        lemma_unpack_pack(tail);
        assert forall|k: int| 0 <= k < cells.len() implies unpacked[k] == cells[k] by {
            if k < 16 {
                assert(unpacked[k] == head[k]);
            } else {
                assert(unpacked[k] == unpack_bytes(pack_cells(tail))[k - 16]);
                assert(unpack_bytes(pack_cells(tail)).take(tail.len() as int)[k - 16] == tail[k
                    - 16]);
            }
        }
        assert(unpacked.take(cells.len() as int) =~= cells);
        assert forall|k: int| cells.len() <= k < unpacked.len() implies !unpacked[k] by {
            assert(unpacked[k] == unpack_bytes(pack_cells(tail))[k - 16]);
        }
    }
}

/// A lengthened cell stream whose extra cells are all clear names the same
/// points as the original.
proof fn lemma_points_from_padding(cells: Seq<bool>, padded: Seq<bool>, w: int, h: int, f: int)
    requires
        cells.len() <= padded.len(),
        padded.take(cells.len() as int) == cells,
        forall|k: int| cells.len() <= k < padded.len() ==> !padded[k],
        0 <= f,
    ensures
        points_from(padded, w, h, f) == points_from(cells, w, h, f),
    decreases padded.len() - f,
{
    if 0 < w && f < padded.len() {
        lemma_points_from_padding(cells, padded, w, h, f + 1);
        if f < cells.len() {
            assert(padded[f] == padded.take(cells.len() as int)[f]);
        } else {
            assert(!padded[f]);
            assert(points_from(cells, w, h, f) =~= Seq::<Point>::empty());
        }
    } else {
        assert(points_from(padded, w, h, f) =~= Seq::<Point>::empty());
        assert(points_from(cells, w, h, f) =~= Seq::<Point>::empty());
    }
}

/// Codec round-trip: decoding the encoding of any cell stream under any
/// header yields exactly the points named by the stream's set cells. The
/// padding bits of the final word never add a point.
pub proof fn lemma_codec_round_trip(width: u16, height: u16, cells: Seq<bool>)
    ensures
        decode_spec(encode_spec(width, height, cells)) == points_from(
            cells,
            width as int,
            height as int,
            0,
        ),
{
    let bytes = encode_spec(width, height, cells);
    vstd::arithmetic::div_mod::lemma_fundamental_div_mod(width as int, 256);
    vstd::arithmetic::div_mod::lemma_mod_bound(width as int, 256);
    vstd::arithmetic::div_mod::lemma_fundamental_div_mod(height as int, 256);
    vstd::arithmetic::div_mod::lemma_mod_bound(height as int, 256);
    assert(bytes[0] == (width / 256) as u8 && bytes[1] == (width % 256) as u8);
    assert(bytes[2] == (height / 256) as u8 && bytes[3] == (height % 256) as u8);
    assert(header_width(bytes) == width as int);
    assert(header_height(bytes) == height as int);
    assert(bytes.skip(4) =~= pack_cells(cells));
    lemma_unpack_pack(cells);
    lemma_points_from_padding(
        cells,
        unpack_bytes(pack_cells(cells)),
        width as int,
        height as int,
        0,
    );
}

/// Which points a cell stream names, cell by cell: exactly those whose
/// flattened index is in range, still ahead of `f`, and set.
proof fn lemma_points_from_membership_rec(cells: Seq<bool>, w: int, h: int, f: int, p: Point)
    requires
        0 < w <= u32::MAX + 1,
        h <= u32::MAX + 1,
        0 <= f,
    ensures
        points_from(cells, w, h, f).contains(p) <==> ((p.x as int) < w && (p.y as int) < h && f <= (
        p.y as int) * w + (p.x as int) < cells.len() && cells[(p.y as int) * w + (p.x as int)]),
    decreases cells.len() - f,
{
    let flat_p = (p.y as int) * w + (p.x as int);
    if f < cells.len() {
        lemma_points_from_membership_rec(cells, w, h, f + 1, p);
        vstd::arithmetic::div_mod::lemma_fundamental_div_mod(f, w);
        vstd::arithmetic::div_mod::lemma_mod_bound(f, w);
        if (p.x as int) < w && flat_p == f {
            vstd::arithmetic::div_mod::lemma_fundamental_div_mod_converse(
                f,
                w,
                p.y as int,
                p.x as int,
            );
        }
        let rest = points_from(cells, w, h, f + 1);
        if cells[f] && f / w < h {
            let q = Point { x: (f % w) as u32, y: (f / w) as u32 };
            assert(q.x as int == f % w && q.y as int == f / w);
            vstd::arithmetic::mul::lemma_mul_is_commutative(f / w, w);
            assert(q == p <==> ((p.x as int) < w && flat_p == f));
            assert(points_from(cells, w, h, f) == seq![q] + rest);
            assert((seq![q] + rest).contains(p) <==> (p == q || rest.contains(p))) by {
                if (seq![q] + rest).contains(p) {
                    let idx = choose|idx: int|
                        0 <= idx < (seq![q] + rest).len() && (seq![q] + rest)[idx] == p;
                    if idx > 0 {
                        assert(rest[idx - 1] == p);
                    }
                }
                if p == q {
                    assert((seq![q] + rest)[0] == p);
                }
                if rest.contains(p) {
                    let idx = choose|idx: int| 0 <= idx < rest.len() && rest[idx] == p;
                    assert((seq![q] + rest)[idx + 1] == p);
                }
            }
        } else {
            assert(points_from(cells, w, h, f) == rest);
        }
    } else {
        assert(points_from(cells, w, h, f) =~= Seq::<Point>::empty());
        assert(!points_from(cells, w, h, f).contains(p));
    }
}

/// A decoded point set, described cell by cell: a point is decoded iff it
/// lies inside the width-by-height grid and its flattened cell is set.
pub proof fn lemma_points_from_membership(cells: Seq<bool>, w: int, h: int, p: Point)
    requires
        0 < w <= u32::MAX + 1,
        h <= u32::MAX + 1,
    ensures
        points_from(cells, w, h, 0).contains(p) <==> ((p.x as int) < w && (p.y as int) < h && (
        p.y as int) * w + (p.x as int) < cells.len() && cells[(p.y as int) * w + (p.x as int)]),
{
    vstd::arithmetic::mul::lemma_mul_nonnegative(p.y as int, w);
    lemma_points_from_membership_rec(cells, w, h, 0, p);
}

/// Round trip for a quadtree rooted at the origin: decoding its encoded form
/// yields exactly its stored point set, no point lost and none invented.
pub proof fn lemma_tree_round_trip(t: Quadtree, p: Point)
    requires
        t.wf(),
        t.region.top_left == (Point { x: 0, y: 0 }),
    ensures
        decode_spec(
            encode_spec(
                t.region.size.width as u16,
                t.region.size.height as u16,
                tree_cells(t),
            ),
        ).contains(p) <==> t.all_points().contains(p),
{
    let w = t.region.size.width as int;
    let h = t.region.size.height as int;
    let cells = tree_cells(t);
    lemma_codec_round_trip(t.region.size.width as u16, t.region.size.height as u16, cells);
    lemma_all_points_in_region(t);
    if t.all_points().contains(p) {
        let i = choose|i: int| 0 <= i < t.all_points().len() && t.all_points()[i] == p;
        assert(point_in_region(t.region, p));
    }
    if w <= 0 {
        assert(!t.all_points().contains(p));
        assert(points_from(cells, w, h, 0) =~= Seq::<Point>::empty());
        assert(!points_from(cells, w, h, 0).contains(p));
    } else {
        lemma_points_from_membership(cells, w, h, p);
        if (p.x as int) < w && (p.y as int) < h {
            let flat = (p.y as int) * w + (p.x as int);
            assert(0 <= flat && flat < w * h) by (nonlinear_arith)
                requires
                    0 <= p.x < w,
                    0 <= p.y < h,
                    flat == (p.y as int) * w + (p.x as int),
            ;
            assert(cells[flat] == t.all_points().contains(cell_point(t.region, flat)));
            vstd::arithmetic::div_mod::lemma_fundamental_div_mod_converse(
                flat,
                w,
                p.y as int,
                p.x as int,
            );
            assert(cell_point(t.region, flat) == p);
        }
    }
}

/// A buffer that is all header decodes to no points at all, whatever its
/// width and height say.
pub proof fn lemma_decode_header_only(bytes: Seq<u8>)
    requires
        bytes.len() == 4,
    ensures
        decode_spec(bytes) == Seq::<Point>::empty(),
{
    assert(bytes.skip(4) =~= Seq::<u8>::empty());
    assert(unpack_bytes(bytes.skip(4)) =~= Seq::<bool>::empty());
    assert(decode_spec(bytes) =~= Seq::<Point>::empty());
}

/// Decode an encoded buffer into its points, in flattened-index order. A
/// buffer shorter than the header is rejected as malformed; anything longer
/// decodes to some (possibly empty) point sequence.
#[verifier::loop_isolation(false)]
pub fn decode_bytes(bytes: &Vec<u8>) -> (r: Result<Vec<Point>, DecodeError>)
    ensures
        bytes@.len() >= 4 ==> (r matches Ok(points) && points@ == decode_spec(bytes@)),
        bytes@.len() < 4 ==> r == Err::<Vec<Point>, DecodeError>(DecodeError::MalformedInput),
{
    if bytes.len() < 4 {
        return Err(DecodeError::MalformedInput);
    }
    let width: u16 = (bytes[0] as u16) * 256 + (bytes[1] as u16);
    let height: u16 = (bytes[2] as u16) * 256 + (bytes[3] as u16);
    let ghost data = bytes@.skip(4);
    let ghost cells = unpack_bytes(data);
    let ghost w = width as int;
    let ghost h = height as int;
    proof {
        lemma_unpack_len(data);
    }
    let mut points: Vec<Point> = Vec::new();
    if width == 0 {
        return Ok(points);
    }
    let mut i: usize = 4;
    while i < bytes.len()
        invariant
            4 <= i <= bytes.len(),
            (i - 4) % 2 == 0 || i == bytes.len(),
            points_from(cells, w, h, 0) == points@ + points_from(
                cells,
                w,
                h,
                16 * (((i - 4) + 1) / 2),
            ),
        decreases bytes.len() - i,
    {
        let ghost k = (i - 4) as int / 2;
        let b0 = bytes[i];
        let b1: u8 = if i + 1 < bytes.len() {
            bytes[i + 1]
        } else {
            0
        };
        let word: u16 = (b0 as u16) * 256 + (b1 as u16);
        proof {
            lemma_unpack_word(data, k);
            assert(data[2 * k] == bytes@[i as int]);
            assert(2 * k + 1 < data.len() ==> data[2 * k + 1] == bytes@[i + 1]);
            assert(word as nat == word_value(
                data[2 * k],
                if 2 * k + 1 < data.len() {
                    data[2 * k + 1]
                } else {
                    0
                },
            ));
        }
        let ghost base = 16 * k;
        proof {
            assert(two_pow(0) == 1);
            assert(word as int / 1int == word as int);
        }
        let mut d: u16 = word;
        let mut j: usize = 0;
        while j < 16
            invariant
                0 <= j <= 16,
                d as int == word as int / two_pow(j as nat) as int,
                points_from(cells, w, h, 0) == points@ + points_from(cells, w, h, base + j),
            decreases 16 - j,
        {
            proof {
                lemma_two_pow_pos(j as nat);
                lemma_bits_of_index(word as nat, 16, j as int);
                assert(cells.subrange(base, base + 16)[j as int] == cells[base + j]);
                assert(cells[base + j] == (d % 2 == 1));
            }
            if d % 2 == 1 {
                let word_index: usize = (i - 4) / 2;
                let flat: u128 = 16 * (word_index as u128) + (j as u128);
                proof {
                    assert(flat as int == base + j);
                    assert(0 < w);
                    vstd::arithmetic::div_mod::lemma_fundamental_div_mod(flat as int, w);
                    vstd::arithmetic::div_mod::lemma_mod_bound(flat as int, w);
                }
                let x: u128 = flat % (width as u128);
                let y: u128 = flat / (width as u128);
                if x < (width as u128) && y < (height as u128) {
                    points.push(Point { x: x as u32, y: y as u32 });
                }
            }
            proof {
                assert((d as int) / 2 == word as int / two_pow((j + 1) as nat) as int) by {
                    vstd::arithmetic::div_mod::lemma_div_denominator(
                        word as int,
                        two_pow(j as nat) as int,
                        2,
                    );
                    assert(two_pow((j + 1) as nat) == 2 * two_pow(j as nat));
                    assert(two_pow(j as nat) as int * 2 == 2 * two_pow(j as nat) as int);
                }
            }
            d = d / 2;
            j += 1;
        }
        if bytes.len() - i >= 2 {
            i += 2;
        } else {
            i = bytes.len();
        }
        proof {
            assert(base + 16 == 16 * (((i - 4) + 1) / 2));
        }
    }
    proof {
        assert(16 * (((i - 4) + 1) / 2) >= cells.len());
        assert(points_from(cells, w, h, 16 * (((i - 4) + 1) / 2)) =~= Seq::<Point>::empty());
        assert(points@ =~= points@ + Seq::<Point>::empty());
    }
    Ok(points)
}

impl Decodable for Vec<u8> {
    /// A byte buffer decodes when it is at least as long as the header.
    open spec fn decodable(&self) -> bool {
        self@.len() >= 4
    }

    open spec fn decoded(&self) -> Seq<Point> {
        decode_spec(self@)
    }

    fn decode(&self) -> (r: Result<Vec<Point>, DecodeError>) {
        decode_bytes(self)
    }
}

/// Copy a point vector.
#[verifier::loop_isolation(false)]
fn copy_points(points: &Vec<Point>) -> (out: Vec<Point>)
    ensures
        out@ == points@,
{
    let mut out: Vec<Point> = Vec::new();
    let mut i: usize = 0;
    while i < points.len()
        invariant
            i <= points.len(),
            out@ == points@.take(i as int),
        decreases points.len() - i,
    {
        proof {
            assert(points@.take(i + 1) =~= points@.take(i as int).push(points@[i as int]));
        }
        out.push(points[i]);
        i += 1;
    }
    proof {
        assert(points@.take(points@.len() as int) =~= points@);
    }
    out
}

/// Decodes a held input once and serves later calls from a cache.
pub struct Decoder<T: Decodable> {
    pub input: Option<T>,
    pub cached_data: Option<Vec<Point>>,
}

impl<T: Decodable> Decoder<T> {
    pub fn new(input: T) -> (d: Decoder<T>)
        ensures
            d.input == Some(input),
            d.cached_data is None,
    {
        Decoder { input: Some(input), cached_data: None }
    }

    /// The decoded points: from the cache when one is filled, else by
    /// decoding the input and filling the cache; nothing when there is no
    /// input or the input is malformed.
    pub fn decode(&mut self) -> (r: Option<Vec<Point>>)
        ensures
            final(self).input == old(self).input,
            old(self).cached_data matches Some(cached) ==> ({
                &&& final(self).cached_data == old(self).cached_data
                &&& r matches Some(points) && points@ == cached@
            }),
            old(self).input matches Some(input) ==> ((old(self).cached_data is None
                && input.decodable()) ==> ({
                &&& r matches Some(points) && points@ == input.decoded()
                &&& final(self).cached_data matches Some(cached) && cached@ == input.decoded()
            })),
            old(self).cached_data is None && (old(self).input is None || (old(
                self,
            ).input matches Some(input) && !input.decodable())) ==> ({
                &&& r is None
                &&& final(self).cached_data is None
            }),
    {
        match &self.cached_data {
            Some(cached) => {
                return Some(copy_points(cached));
            },
            None => {},
        }
        match &self.input {
            Some(input) => {
                match input.decode() {
                    Ok(decoded) => {
                        let result = copy_points(&decoded);
                        self.cached_data = Some(decoded);
                        Some(result)
                    },
                    Err(_) => None,
                }
            },
            None => None,
        }
    }

    /// Whether a decoded result is already cached.
    pub fn is_cached(&self) -> (b: bool)
        ensures
            b == (self.cached_data is Some),
    {
        self.cached_data.is_some()
    }
}

/// A decoder's externally visible state: the decoded points, if any.
pub struct DecoderState {
    pub data: Option<Vec<Point>>,
}

} // verus!
