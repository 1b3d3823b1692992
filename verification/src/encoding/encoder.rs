//! Encoding a stream of presence bits into bytes.
//!
//! The wire format is a 4-byte header (`width` then `height`, each a 16-bit
//! big-endian integer) followed by 16-bit words, also big-endian, that pack
//! the presence bits of the flattened row-major grid: bit `j` of word `i`
//! stands for the cell with flattened index `i * 16 + j`. A final partial
//! word is flushed with its unused high bits zero.

use crate::components::math::Size2i;
use crate::components::visuals::Point;
use crate::data_structures::quadtree::{lemma_points_in_nonempty, point_in_region, Quadtree, Region};
use crate::encoding::Encodable;
use vstd::prelude::*;

verus! {

/// The header parameters an encoder writes.
#[derive(Clone, Copy, Debug, PartialEq, Eq, Structural)]
pub struct EncoderContext {
    pub size: Size2i,
}

/// `2^n`, the weight of the `n`-th presence bit of a word.
pub open spec fn two_pow(n: nat) -> nat
    decreases n,
{
    if n == 0 {
        1
    } else {
        2 * two_pow((n - 1) as nat)
    }
}

/// The value of a word whose low bits are the given cells, least significant
/// bit first; absent high bits are zero.
pub open spec fn word_of(cells: Seq<bool>) -> nat
    decreases cells.len(),
{
    if cells.len() == 0 {
        0
    } else {
        (if cells[0] {
            1nat
        } else {
            0nat
        }) + 2 * word_of(cells.drop_first())
    }
}

/// The two big-endian bytes of a 16-bit word value.
pub open spec fn word_bytes(w: nat) -> Seq<u8> {
    seq![(w / 256) as u8, (w % 256) as u8]
}

/// The 4-byte header: width then height, big-endian.
pub open spec fn header_bytes(width: u16, height: u16) -> Seq<u8> {
    seq![
        (width / 256) as u8,
        (width % 256) as u8,
        (height / 256) as u8,
        (height % 256) as u8,
    ]
}

/// The packed data words of a cell stream, 16 cells to a word, the final
/// partial word padded with zero bits.
pub open spec fn pack_cells(cells: Seq<bool>) -> Seq<u8>
    decreases cells.len(),
{
    if cells.len() == 0 {
        Seq::empty()
    } else if cells.len() <= 16 {
        word_bytes(word_of(cells))
    } else {
        word_bytes(word_of(cells.take(16))) + pack_cells(cells.skip(16))
    }
}

/// The full encoded form of a cell stream: header, then packed words.
pub open spec fn encode_spec(width: u16, height: u16, cells: Seq<bool>) -> Seq<u8> {
    header_bytes(width, height) + pack_cells(cells)
}

/// A word's value is bounded by the weight just above its highest bit.
pub proof fn lemma_word_of_bound(cells: Seq<bool>)
    ensures
        word_of(cells) < two_pow(cells.len()),
    decreases cells.len(),
{
    if cells.len() > 0 {
        lemma_word_of_bound(cells.drop_first());
    }
}

/// The sixteen-bit weight, spelled out.
pub proof fn lemma_two_pow_16()
    ensures
        two_pow(16) == 65536,
{
    reveal_with_fuel(two_pow, 17);
}

/// Appending a cell to a word adds its weight when the cell is set.
proof fn lemma_word_of_push(cells: Seq<bool>, c: bool)
    ensures
        word_of(cells.push(c)) == word_of(cells) + (if c {
            two_pow(cells.len())
        } else {
            0nat
        }),
    decreases cells.len(),
{
    if cells.len() == 0 {
        assert(cells.push(c)[0] == c);
        assert(cells.push(c).drop_first() =~= Seq::<bool>::empty());
        assert(word_of(Seq::<bool>::empty()) == 0);
        assert(two_pow(0) == 1);
    } else {
        assert(cells.push(c)[0] == cells[0]);
        assert(cells.push(c).drop_first() =~= cells.drop_first().push(c));
        lemma_word_of_push(cells.drop_first(), c);
        assert(two_pow(cells.len()) == 2 * two_pow((cells.len() - 1) as nat));
        assert(word_of(cells.push(c)) == (if cells[0] {
            1nat
        } else {
            0nat
        }) + 2 * word_of(cells.drop_first().push(c)));
    }
}

/// Packing splits at any word boundary.
proof fn lemma_pack_cells_chunk(a: Seq<bool>, b: Seq<bool>)
    requires
        a.len() % 16 == 0,
    ensures
        pack_cells(a + b) == pack_cells(a) + pack_cells(b),
    decreases a.len(),
{
    if a.len() == 0 {
        assert(a + b =~= b);
        assert(pack_cells(a) + pack_cells(b) =~= pack_cells(b));
    } else {
        assert((a + b).take(16) =~= a.take(16));
        assert((a + b).skip(16) =~= a.skip(16) + b);
        lemma_pack_cells_chunk(a.skip(16), b);
        if b.len() == 0 {
            assert(a + b =~= a);
            assert(pack_cells(a) + pack_cells(b) =~= pack_cells(a));
        } else if a.len() == 16 {
            assert(a.take(16) =~= a);
            assert(a.skip(16) =~= Seq::<bool>::empty());
            assert(pack_cells(a) =~= word_bytes(word_of(a)));
            assert(pack_cells(a + b) =~= pack_cells(a) + pack_cells(b));
        } else {
            assert(pack_cells(a + b) =~= pack_cells(a) + pack_cells(b));
        }
    }
}

/// Append the packed data words for `cells` to `out`.
#[verifier::loop_isolation(false)]
pub fn pack_cells_into(cells: &Vec<bool>, out: &mut Vec<u8>)
    ensures
        final(out)@ == old(out)@ + pack_cells(cells@),
{
    let ghost base = out@;
    let n = cells.len();
    let mut i: usize = 0;
    while i < n
        invariant
            i <= n,
            i % 16 == 0 || i == n,
            out@ == base + pack_cells(cells@.take(i as int)),
        decreases n - i,
    {
        let ghost seen = cells@.take(i as int);
        let mut acc: u32 = 0;
        let mut place: u32 = 1;
        let mut j: usize = 0;
        while j < 16 && i + j < n
            invariant
                j <= 16,
                i + j <= n,
                place == two_pow(j as nat),
                acc == word_of(cells@.subrange(i as int, i + j)),
                acc < place,
            decreases 16 - j,
        {
            proof {
                lemma_two_pow_16();
                lemma_two_pow_mono((j + 1) as nat, 16);
                assert(cells@.subrange(i as int, i + j + 1) =~= cells@.subrange(
                    i as int,
                    i + j,
                ).push(cells@[i + j]));
                lemma_word_of_push(cells@.subrange(i as int, i + j), cells@[i + j]);
            }
            if cells[i + j] {
                acc = acc + place;
            }
            place = place * 2;
            j += 1;
        }
        let ghost chunk = cells@.subrange(i as int, i + j);
        proof {
            lemma_two_pow_16();
            lemma_two_pow_mono(j as nat, 16);
            assert(acc < 65536);
            assert(1 <= chunk.len() <= 16);
            assert(pack_cells(chunk) == word_bytes(acc as nat));
            assert(cells@.take(i + j) =~= seen + chunk);
            lemma_pack_cells_chunk(seen, chunk);
        }
        out.push((acc / 256) as u8);
        out.push((acc % 256) as u8);
        i += j;
        proof {
            assert(out@ == base + pack_cells(cells@.take(i as int))) by {
                assert(word_bytes(acc as nat) =~= seq![(acc / 256) as u8, (acc % 256) as u8]);
            }
        }
    }
    proof {
        assert(cells@.take(n as int) =~= cells@);
    }
}

/// Weights grow with the bit position.
pub proof fn lemma_two_pow_mono(a: nat, b: nat)
    requires
        a <= b,
    ensures
        two_pow(a) <= two_pow(b),
    decreases b,
{
    if a < b {
        lemma_two_pow_mono(a, (b - 1) as nat);
    }
}

/// One grid row as presence cells: a cell is set iff its byte is 1.
pub open spec fn row_cells(row: Seq<u8>) -> Seq<bool> {
    Seq::new(row.len(), |k: int| row[k] == 1)
}

/// A whole grid as presence cells, rows flattened in order.
pub open spec fn grid_cells(rows: Seq<Seq<u8>>) -> Seq<bool>
    decreases rows.len(),
{
    if rows.len() == 0 {
        Seq::empty()
    } else {
        row_cells(rows[0]) + grid_cells(rows.drop_first())
    }
}

/// Flattening one more row appends its cells.
proof fn lemma_grid_cells_push(rows: Seq<Seq<u8>>, row: Seq<u8>)
    ensures
        grid_cells(rows.push(row)) == grid_cells(rows) + row_cells(row),
    decreases rows.len(),
{
    if rows.len() == 0 {
        assert(rows.push(row)[0] == row);
        assert(rows.push(row).drop_first() =~= Seq::<Seq<u8>>::empty());
        assert(grid_cells(Seq::<Seq<u8>>::empty()) =~= Seq::<bool>::empty());
        assert(grid_cells(rows.push(row)) =~= grid_cells(rows) + row_cells(row));
    } else {
        assert(rows.push(row)[0] == rows[0]);
        assert(rows.push(row).drop_first() =~= rows.drop_first().push(row));
        lemma_grid_cells_push(rows.drop_first(), row);
        assert(grid_cells(rows.push(row)) == row_cells(rows[0]) + grid_cells(
            rows.drop_first().push(row),
        ));
        assert(row_cells(rows[0]) + (grid_cells(rows.drop_first()) + row_cells(row)) =~= grid_cells(
            rows,
        ) + row_cells(row));
    }
}

/// Flatten a grid of byte rows into one stream of presence cells.
#[verifier::loop_isolation(false)]
fn flatten_grid(rows: &Vec<Vec<u8>>) -> (bits: Vec<bool>)
    ensures
        bits@ == grid_cells(rows.deep_view()),
{
    let mut bits: Vec<bool> = Vec::new();
    let mut i: usize = 0;
    while i < rows.len()
        invariant
            i <= rows.len(),
            bits@ == grid_cells(rows.deep_view().take(i as int)),
        decreases rows.len() - i,
    {
        let row = &rows[i];
        let ghost done = rows.deep_view().take(i as int);
        let mut j: usize = 0;
        while j < row.len()
            invariant
                j <= row.len(),
                bits@ == grid_cells(done) + row_cells(row@.take(j as int)),
            decreases row.len() - j,
        {
            proof {
                assert(row_cells(row@.take(j + 1)) =~= row_cells(row@.take(j as int)).push(
                    row@[j as int] == 1,
                ));
            }
            bits.push(row[j] == 1);
            j += 1;
        }
        i += 1;
        proof {
            assert(row@.take(row@.len() as int) =~= row@);
            assert(rows.deep_view()[i - 1] == row@);
            assert(rows.deep_view().take(i as int) =~= done.push(row@));
            lemma_grid_cells_push(done, row@);
        }
    }
    proof {
        assert(rows.deep_view().take(rows@.len() as int) =~= rows.deep_view());
    }
    bits
}

impl Encodable for Vec<Vec<u8>> {
    /// The rows, flattened in order; a cell is set iff its byte is 1. Rows
    /// are taken as given: no shape is imposed beyond the flattening.
    open spec fn cells(&self) -> Seq<bool> {
        grid_cells(self.deep_view())
    }

    /// The header must carry non-negative dimensions.
    open spec fn encode_allowed(&self, context: &EncoderContext) -> bool {
        0 <= context.size.width && 0 <= context.size.height
    }

    fn encode(&self, context: &EncoderContext) -> (bytes: Vec<u8>) {
        let width = context.size.width as u16;
        let height = context.size.height as u16;
        let mut bytes: Vec<u8> = Vec::new();
        bytes.push((width / 256) as u8);
        bytes.push((width % 256) as u8);
        bytes.push((height / 256) as u8);
        bytes.push((height % 256) as u8);
        proof {
            assert(bytes@ =~= header_bytes(width, height));
        }
        let bits = flatten_grid(self);
        pack_cells_into(&bits, &mut bytes);
        bytes
    }
}

/// The grid point at flattened row-major index `f` of a region.
pub open spec fn cell_point(region: Region, f: int) -> Point {
    Point {
        x: (region.top_left.x + f % (region.size.width as int)) as u32,
        y: (region.top_left.y + f / (region.size.width as int)) as u32,
    }
}

/// A quadtree's region rasterized to presence cells in row-major order: a
/// cell is set iff some stored point occupies it.
pub open spec fn tree_cells(t: Quadtree) -> Seq<bool> {
    Seq::new(
        (t.region.size.width * t.region.size.height) as nat,
        |f: int| t.all_points().contains(cell_point(t.region, f)),
    )
}

impl Quadtree {
    /// Materialize the tree as a row-major grid of cell bytes, 1 where a
    /// stored point occupies the cell and 0 elsewhere, one row per grid line
    /// of the tree's region.
    #[verifier::loop_isolation(false)]
    pub fn to_grid(&self) -> (rows: Vec<Vec<u8>>)
        requires
            self.wf(),
        ensures
            grid_cells(rows.deep_view()) == tree_cells(*self),
            rows@.len() == self.region.size.height as int,
            forall|y: int|
                0 <= y < rows@.len() ==> (#[trigger] rows.deep_view()[y]).len()
                    == self.region.size.width as int,
    {
        let w: i16 = self.region.size.width;
        let h: i16 = self.region.size.height;
        let mut rows: Vec<Vec<u8>> = Vec::new();
        let mut y: i16 = 0;
        while y < h
            invariant
                0 <= y <= h,
                rows@.len() == y as int,
                forall|k: int|
                    0 <= k < rows@.len() ==> (#[trigger] rows.deep_view()[k]).len() == w as int,
                grid_cells(rows.deep_view()) == tree_cells(*self).take(y as int * w as int),
            decreases h - y,
        {
            let ghost done = rows.deep_view();
            let ghost row_start = y as int * w as int;
            let mut row: Vec<u8> = Vec::new();
            proof {
                assert(0 <= (w as int) * (h as int) && 0 <= (y as int) * (w as int) && (y as int)
                    * (w as int) + (w as int) <= (w as int) * (h as int)) by (nonlinear_arith)
                    requires
                        0 <= y < h,
                        0 <= w,
                ;
                assert(tree_cells(*self).len() == (w as int) * (h as int));
                assert(row_cells(row@) =~= tree_cells(*self).subrange(row_start, row_start));
            }
            let mut x: i16 = 0;
            while x < w
                invariant
                    0 <= x <= w,
                    0 <= y < h,
                    row@.len() == x as int,
                    row_cells(row@) == tree_cells(*self).subrange(row_start, row_start + x as int),
                decreases w - x,
            {
                let cell_region = Region {
                    top_left: Point {
                        x: self.region.top_left.x + (x as u32),
                        y: self.region.top_left.y + (y as u32),
                    },
                    size: Size2i { width: 1, height: 1 },
                };
                let found = self.query_region(&cell_region);
                let val: u8 = if found.len() > 0 {
                    1
                } else {
                    0
                };
                proof {
                    let f = row_start + x as int;
                    let all = self.all_points();
                    assert(0 <= f < tree_cells(*self).len() && f == (y as int) * (w as int) + (
                    x as int)) by (nonlinear_arith)
                        requires
                            0 <= x < w,
                            0 <= y < h,
                            f == (y as int) * (w as int) + (x as int),
                            tree_cells(*self).len() == w as int * h as int,
                    ;
                    vstd::arithmetic::div_mod::lemma_fundamental_div_mod_converse(
                        f,
                        w as int,
                        y as int,
                        x as int,
                    );
                    assert(cell_point(self.region, f) == cell_region.top_left);
                    lemma_points_in_nonempty(all, cell_region);
                    if found.len() > 0 {
                        let i = choose|i: int|
                            0 <= i < all.len() && point_in_region(cell_region, #[trigger] all[i]);
                        assert(all[i] == cell_region.top_left);
                        assert(all.contains(cell_point(self.region, f)));
                    } else {
                        if all.contains(cell_point(self.region, f)) {
                            let i = choose|i: int|
                                0 <= i < all.len() && all[i] == cell_point(self.region, f);
                            assert(point_in_region(cell_region, all[i]));
                        }
                    }
                    assert((val == 1) == tree_cells(*self)[f]);
                    assert(row_cells(row@.push(val)) =~= row_cells(row@).push(val == 1));
                    assert(tree_cells(*self).subrange(row_start, f + 1) =~= tree_cells(
                        *self,
                    ).subrange(row_start, f).push(tree_cells(*self)[f]));
                }
                row.push(val);
                x += 1;
            }
            proof {
                assert(row_cells(row@).len() == w as int);
            }
            rows.push(row);
            y += 1;
            proof {
                assert(row.deep_view() =~= row@);
                assert(rows.deep_view() =~~= done.push(row@));
                lemma_grid_cells_push(done, row@);
                assert((y as int) * (w as int) == (y as int - 1) * (w as int) + (w as int))
                    by (nonlinear_arith);
                assert((y as int) * (w as int) <= tree_cells(*self).len()) by (nonlinear_arith)
                    requires
                        0 <= y <= h,
                        0 <= w,
                        tree_cells(*self).len() == w as int * h as int,
                ;
                assert(tree_cells(*self).take((y as int) * (w as int)) =~= tree_cells(*self).take(
                    (y as int - 1) * (w as int),
                ) + tree_cells(*self).subrange(
                    (y as int - 1) * (w as int),
                    (y as int) * (w as int),
                ));
            }
        }
        proof {
            assert((h as int) * (w as int) == (w as int) * (h as int)) by (nonlinear_arith);
            assert(tree_cells(*self).take((h as int) * (w as int)) =~= tree_cells(*self));
        }
        rows
    }
}

impl Encodable for Quadtree {
    /// The rasterized cells of the tree's own region.
    open spec fn cells(&self) -> Seq<bool> {
        tree_cells(*self)
    }

    /// The tree must be well-formed and the header must carry the tree's own
    /// region size.
    open spec fn encode_allowed(&self, context: &EncoderContext) -> bool {
        self.wf() && context.size == self.region.size
    }

    fn encode(&self, context: &EncoderContext) -> (bytes: Vec<u8>) {
        let rows = self.to_grid();
        rows.encode(context)
    }
}

/// Serializes one encodable value under a fixed header.
pub struct Encoder<T: Encodable> {
    pub context: EncoderContext,
    pub data: T,
}

impl<T: Encodable> Encoder<T> {
    /// The encoded bytes of the held value under the held header.
    pub fn encode(&self) -> (bytes: Vec<u8>)
        requires
            self.data.encode_allowed(&self.context),
        ensures
            bytes@ == encode_spec(
                self.context.size.width as u16,
                self.context.size.height as u16,
                self.data.cells(),
            ),
    {
        self.data.encode(&self.context)
    }
}

/// Step-by-step construction of an [`Encoder`].
pub struct EncoderBuilder<T: Encodable> {
    pub size: Option<Size2i>,
    pub data: Option<T>,
}

impl<T: Encodable> EncoderBuilder<T> {
    pub fn new() -> (b: EncoderBuilder<T>)
        ensures
            b.size is None,
            b.data is None,
    {
        EncoderBuilder { size: None, data: None }
    }

    pub fn sized(self, size: Size2i) -> (b: Self)
        ensures
            b.size == Some(size),
            b.data == self.data,
    {
        EncoderBuilder { size: Some(size), ..self }
    }

    pub fn with_data(self, data: T) -> (b: Self)
        ensures
            b.size == self.size,
            b.data == Some(data),
    {
        EncoderBuilder { data: Some(data), ..self }
    }

    /// Both the size and the data must have been provided.
    pub fn build(self) -> (e: Encoder<T>)
        requires
            self.size is Some,
            self.data is Some,
        ensures
            Some(e.context.size) == self.size,
            Some(e.data) == self.data,
    {
        let size = self.size.unwrap();
        let data = self.data.unwrap();
        Encoder { context: EncoderContext { size }, data }
    }
}

} // verus!
