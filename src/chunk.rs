use vstd::prelude::*;

use crate::connect::{
    cell_set, component, distinct, lemma_components_meet, frame_index, frame_ok, in_frame, label_components,
    lemma_cell_set_push, mask_set, partitions, pt,
};
use crate::grid::{in_bounds, lemma_index_in_range, lemma_index_injective, PixelWorld};
use vstd::arithmetic::div_mod::{
    lemma_div_is_ordered, lemma_div_multiples_vanish, lemma_hoist_over_denominator,
};
use crate::material::Material;

verus! {

/// A free body made of cells cut out of the grid. Each cell is
/// `(x, y, material)`, with `(x, y)` relative to the body's centre of mass
/// when it was made (y grows downward, as in the grid).
pub struct WoodChunk {
    pub pixels: Vec<(i32, i32, Material)>,
}

pub open spec fn spot(p: (i32, i32, Material)) -> (int, int) {
    (p.0 as int, p.1 as int)
}

/// Every cell of `s` lies in the box `[x0, x1]` by `[y0, y1]`, whose sides fit
/// the coordinate type and whose area fits the address space.
pub open spec fn boxed(s: Seq<(i32, i32, Material)>, x0: int, y0: int, x1: int, y1: int) -> bool {
    &&& x0 <= x1
    &&& y0 <= y1
    &&& x1 - x0 <= i32::MAX
    &&& y1 - y0 <= i32::MAX
    &&& (x1 - x0 + 1) * (y1 - y0 + 1) <= usize::MAX
    &&& forall|i: int|
        0 <= i < s.len() ==> x0 <= (#[trigger] s[i]).0 <= x1 && y0 <= s[i].1 <= y1
}

impl WoodChunk {
    /// No two cells share a place, and the cells fit a box that a mask can
    /// cover.
    pub open spec fn wf(&self) -> bool {
        &&& forall|i: int, j: int|
            0 <= i < self.pixels@.len() && 0 <= j < self.pixels@.len() && i != j ==> spot(
                #[trigger] self.pixels@[i],
            ) != spot(#[trigger] self.pixels@[j])
        &&& exists|x0: int, y0: int, x1: int, y1: int| boxed(self.pixels@, x0, y0, x1, y1)
    }
}

pub open spec fn sum_x(s: Seq<(i64, i64)>) -> int
    decreases s.len(),
{
    if s.len() == 0 {
        0
    } else {
        sum_x(s.drop_last()) + s.last().0
    }
}

pub open spec fn sum_y(s: Seq<(i64, i64)>) -> int
    decreases s.len(),
{
    if s.len() == 0 {
        0
    } else {
        sum_y(s.drop_last()) + s.last().1
    }
}

/// Sum of the x of the cells below row `cy`, and their number.
pub open spec fn lower_x(s: Seq<(i64, i64)>, cy: int) -> (int, int)
    decreases s.len(),
{
    if s.len() == 0 {
        (0, 0)
    } else {
        let r = lower_x(s.drop_last(), cy);
        if s.last().1 > cy {
            (r.0 + s.last().0, r.1 + 1)
        } else {
            r
        }
    }
}

/// Sum of the x of the cells above row `cy`, and their number.
pub open spec fn upper_x(s: Seq<(i64, i64)>, cy: int) -> (int, int)
    decreases s.len(),
{
    if s.len() == 0 {
        (0, 0)
    } else {
        let r = upper_x(s.drop_last(), cy);
        if s.last().1 < cy {
            (r.0 + s.last().0, r.1 + 1)
        } else {
            r
        }
    }
}

/// Mean of a sum over `n` cells, rounded down; zero for no cells.
pub open spec fn mean(sum: int, n: int) -> int {
    if n <= 0 {
        0
    } else {
        sum / n
    }
}

pub open spec fn min_x(s: Seq<(i64, i64)>) -> int
    decreases s.len(),
{
    if s.len() <= 1 {
        if s.len() == 0 { 0 } else { s[0].0 as int }
    } else {
        let m = min_x(s.drop_last());
        if s.last().0 < m { s.last().0 as int } else { m }
    }
}

pub open spec fn max_x(s: Seq<(i64, i64)>) -> int
    decreases s.len(),
{
    if s.len() <= 1 {
        if s.len() == 0 { 0 } else { s[0].0 as int }
    } else {
        let m = max_x(s.drop_last());
        if s.last().0 > m { s.last().0 as int } else { m }
    }
}

pub open spec fn min_y(s: Seq<(i64, i64)>) -> int
    decreases s.len(),
{
    if s.len() <= 1 {
        if s.len() == 0 { 0 } else { s[0].1 as int }
    } else {
        let m = min_y(s.drop_last());
        if s.last().1 < m { s.last().1 as int } else { m }
    }
}

pub open spec fn max_y(s: Seq<(i64, i64)>) -> int
    decreases s.len(),
{
    if s.len() <= 1 {
        if s.len() == 0 { 0 } else { s[0].1 as int }
    } else {
        let m = max_y(s.drop_last());
        if s.last().1 > m { s.last().1 as int } else { m }
    }
}

/// Which way a body of cells `s` with centre `(cx, cy)` starts to tip:
/// none unless it is tall (height above one and a half times its width);
/// otherwise toward the side its upper half leans to, when the mean columns
/// of the upper and lower halves differ by more than two; otherwise by the
/// parity of `cx`.
pub open spec fn tip_direction(s: Seq<(i64, i64)>, cx: int, cy: int) -> int {
    let w = max_x(s) - min_x(s) + 1;
    let h = max_y(s) - min_y(s) + 1;
    if 2 * h <= 3 * w {
        0
    } else {
        let lo = lower_x(s, cy);
        let up = upper_x(s, cy);
        let offset = mean(up.0, up.1) - mean(lo.0, lo.1);
        if offset > 2 {
            1
        } else if offset < -2 {
            -1
        } else if cx % 2 == 0 {
            1
        } else {
            -1
        }
    }
}

/// A region of the grid turned into a free body: where its centre was in the
/// grid, the size of its bounding box, which way it starts to tip, and its
/// cells relative to the centre.
pub struct ChunkSpawn {
    pub center_x: i32,
    pub center_y: i32,
    pub width: i32,
    pub height: i32,
    pub tip: i32,
    pub chunk: WoodChunk,
}

/// The places the chunk's cells occupy, in its own frame.
pub open spec fn chunk_region(s: Seq<(i32, i32, Material)>) -> Set<(int, int)> {
    Set::new(|c: (int, int)| exists|i: int| 0 <= i < s.len() && #[trigger] spot(s[i]) == c)
}

/// A cell moved by `(dx, dy)`.
pub open spec fn placed(p: (i32, i32, Material), dx: int, dy: int) -> (int, int, Material) {
    (p.0 + dx, p.1 + dy, p.2)
}

/// A piece of a chunk that came apart: its cells relative to its own centre,
/// and where that centre lies in the frame of the chunk it came from.
pub struct SplitPiece {
    pub offset_x: i32,
    pub offset_y: i32,
    pub chunk: WoodChunk,
}

/// The `j`-th cell of the piece, in the frame of the chunk it came from.
pub open spec fn piece_cell(pc: SplitPiece, j: int) -> (int, int, Material) {
    placed(pc.chunk.pixels@[j], pc.offset_x as int, pc.offset_y as int)
}

/// The places a piece covers, in the frame of the chunk it came from.
pub open spec fn piece_region(pc: SplitPiece) -> Set<(int, int)> {
    Set::new(
        |c: (int, int)|
            exists|j: int|
                0 <= j < pc.chunk.pixels@.len() && (#[trigger] piece_cell(pc, j)).0 == c.0
                    && piece_cell(pc, j).1 == c.1,
    )
}

pub open spec fn sum_placed_x(s: Seq<(i32, i32, Material)>, dx: int) -> int
    decreases s.len(),
{
    if s.len() == 0 {
        0
    } else {
        sum_placed_x(s.drop_last(), dx) + s.last().0 + dx
    }
}

pub open spec fn sum_placed_y(s: Seq<(i32, i32, Material)>, dy: int) -> int
    decreases s.len(),
{
    if s.len() == 0 {
        0
    } else {
        sum_placed_y(s.drop_last(), dy) + s.last().1 + dy
    }
}

/// Some piece holds the cell `t`, placed back in the frame it came from.
pub open spec fn in_some_piece(pieces: Seq<SplitPiece>, t: (int, int, Material)) -> bool {
    exists|k: int, j: int|
        0 <= k < pieces.len() && 0 <= j < pieces[k].chunk.pixels@.len() && t == #[trigger] piece_cell(
            pieces[k],
            j,
        )
}

/// `pieces` are the 4-connected pieces of the cells `s`: each piece is a
/// well-formed chunk centred on its own centre of mass (the mean place,
/// rounded down), placed back it covers one component of `s`, every cell of
/// a piece is a cell of `s`, every cell of `s` lies in some piece, and no two
/// pieces cover the same place.
pub open spec fn split_into(s: Seq<(i32, i32, Material)>, pieces: Seq<SplitPiece>) -> bool {
    &&& forall|k: int|
        0 <= k < pieces.len() ==> {
            let pc = #[trigger] pieces[k];
            &&& pc.chunk.wf()
            &&& pc.chunk.pixels@.len() > 0
            &&& pc.offset_x == mean(
                sum_placed_x(pc.chunk.pixels@, pc.offset_x as int),
                pc.chunk.pixels@.len() as int,
            )
            &&& pc.offset_y == mean(
                sum_placed_y(pc.chunk.pixels@, pc.offset_y as int),
                pc.chunk.pixels@.len() as int,
            )
            &&& piece_region(pc) == component(
                chunk_region(s),
                (piece_cell(pc, 0).0, piece_cell(pc, 0).1),
            )
        }
    &&& forall|k: int, j: int|
        #![trigger piece_cell(pieces[k], j)]
        0 <= k < pieces.len() && 0 <= j < pieces[k].chunk.pixels@.len() ==> exists|i: int|
            0 <= i < s.len() && #[trigger] placed(s[i], 0, 0) == piece_cell(pieces[k], j)
    &&& forall|i: int| 0 <= i < s.len() ==> #[trigger] in_some_piece(pieces, placed(s[i], 0, 0))
    &&& forall|k1: int, k2: int|
        0 <= k1 < pieces.len() && 0 <= k2 < pieces.len() && k1 != k2 ==> piece_region(
            #[trigger] pieces[k1],
        ).disjoint(piece_region(#[trigger] pieces[k2]))
}

/// `pc` was built from the frame cells `comp`, with the materials of the
/// members that `slot` names.
pub open spec fn built_from(
    pc: SplitPiece,
    comp: Seq<(i64, i64)>,
    slot: Seq<usize>,
    s: Seq<(i32, i32, Material)>,
    ox: int,
    oy: int,
    w: int,
) -> bool {
    &&& pc.chunk.wf()
    &&& pc.chunk.pixels@.len() == comp.len()
    &&& forall|j: int|
        0 <= j < comp.len() ==> #[trigger] piece_cell(pc, j) == (
            comp[j].0 as int,
            comp[j].1 as int,
            s[slot[frame_index(pt(comp[j]), ox, oy, w) as int] as int].2,
        )
    &&& pc.offset_x == mean(
        sum_placed_x(pc.chunk.pixels@, pc.offset_x as int),
        pc.chunk.pixels@.len() as int,
    )
    &&& pc.offset_y == mean(
        sum_placed_y(pc.chunk.pixels@, pc.offset_y as int),
        pc.chunk.pixels@.len() as int,
    )
}

/// Each 4-connected component of a chunk's cells is covered by exactly one
/// piece of a split.
pub proof fn lemma_one_piece_per_component(
    s: Seq<(i32, i32, Material)>,
    pieces: Seq<SplitPiece>,
    c: (int, int),
)
    requires
        split_into(s, pieces),
        chunk_region(s).contains(c),
    ensures
        exists|k: int| 0 <= k < pieces.len() && piece_region(#[trigger] pieces[k]) == component(chunk_region(s), c),
        forall|k1: int, k2: int|
            0 <= k1 < pieces.len() && 0 <= k2 < pieces.len() && piece_region(#[trigger] pieces[k1])
                == component(chunk_region(s), c) && piece_region(#[trigger] pieces[k2]) == component(
                chunk_region(s),
                c,
            ) ==> k1 == k2,
{
    let region = chunk_region(s);
    let i = choose|i: int| 0 <= i < s.len() && #[trigger] spot(s[i]) == c;
    assert(in_some_piece(pieces, placed(s[i], 0, 0)));
    let (k, j) = choose|k: int, j: int|
        0 <= k < pieces.len() && 0 <= j < pieces[k].chunk.pixels@.len() && placed(s[i], 0, 0)
            == #[trigger] piece_cell(pieces[k], j);
    let pc = pieces[k];
    assert(piece_region(pc).contains(c));
    let f = (piece_cell(pc, 0).0, piece_cell(pc, 0).1);
    assert(exists|i2: int| 0 <= i2 < s.len() && #[trigger] placed(s[i2], 0, 0) == piece_cell(pc, 0));
    let i2 = choose|i2: int| 0 <= i2 < s.len() && #[trigger] placed(s[i2], 0, 0) == piece_cell(pc, 0);
    assert(spot(s[i2]) == f);
    assert(region.contains(f));
    lemma_components_meet(region, f, c);
    assert forall|k1: int, k2: int|
        0 <= k1 < pieces.len() && 0 <= k2 < pieces.len() && piece_region(#[trigger] pieces[k1])
            == component(region, c) && piece_region(#[trigger] pieces[k2]) == component(region, c)
            implies k1 == k2 by {
        if k1 != k2 {
            assert(piece_region(pieces[k1]).disjoint(piece_region(pieces[k2])));
            crate::connect::lemma_seed_reaches(region, set![c], c);
            assert(piece_region(pieces[k1]).contains(c));
        }
    }
}

/// When a chunk's cells form exactly two components, around `a` and around
/// `b`, a split gives exactly two pieces, one for each.
pub proof fn lemma_two_components_two_pieces(
    s: Seq<(i32, i32, Material)>,
    pieces: Seq<SplitPiece>,
    a: (int, int),
    b: (int, int),
)
    requires
        split_into(s, pieces),
        chunk_region(s).contains(a),
        chunk_region(s).contains(b),
        !component(chunk_region(s), a).contains(b),
        chunk_region(s).subset_of(component(chunk_region(s), a).union(component(chunk_region(s), b))),
    ensures
        pieces.len() == 2,
{
    let region = chunk_region(s);
    let ca = component(region, a);
    let cb = component(region, b);
    lemma_one_piece_per_component(s, pieces, a);
    lemma_one_piece_per_component(s, pieces, b);
    let ka = choose|k: int| 0 <= k < pieces.len() && piece_region(#[trigger] pieces[k]) == ca;
    let kb = choose|k: int| 0 <= k < pieces.len() && piece_region(#[trigger] pieces[k]) == cb;
    crate::connect::lemma_seed_reaches(region, set![b], b);
    assert(cb.contains(b));
    assert(ka != kb);
    if pieces.len() > 2 {
        let other = if ka != 0 && kb != 0 { 0 } else if ka != 1 && kb != 1 { 1 } else { 2int };
        lemma_piece_in_one_of(s, pieces, a, b, other);
        if piece_region(pieces[other]) == ca {
            assert(piece_region(pieces[ka]) == ca);
        } else {
            assert(piece_region(pieces[kb]) == cb);
        }
    }
}

proof fn lemma_piece_in_one_of(
    s: Seq<(i32, i32, Material)>,
    pieces: Seq<SplitPiece>,
    a: (int, int),
    b: (int, int),
    k: int,
)
    requires
        split_into(s, pieces),
        chunk_region(s).contains(a),
        chunk_region(s).contains(b),
        chunk_region(s).subset_of(component(chunk_region(s), a).union(component(chunk_region(s), b))),
        0 <= k < pieces.len(),
    ensures
        piece_region(pieces[k]) == component(chunk_region(s), a) || piece_region(pieces[k])
            == component(chunk_region(s), b),
{
    let region = chunk_region(s);
    let pc = pieces[k];
    let f = (piece_cell(pc, 0).0, piece_cell(pc, 0).1);
    assert(exists|i2: int| 0 <= i2 < s.len() && #[trigger] placed(s[i2], 0, 0) == piece_cell(pc, 0));
    let i2 = choose|i2: int| 0 <= i2 < s.len() && #[trigger] placed(s[i2], 0, 0) == piece_cell(pc, 0);
    assert(spot(s[i2]) == f);
    assert(region.contains(f));
    if component(region, a).contains(f) {
        lemma_components_meet(region, a, f);
    } else {
        lemma_components_meet(region, b, f);
    }
}

proof fn lemma_placed_sums(s: Seq<(i32, i32, Material)>, t: Seq<(i64, i64)>, dx: int, dy: int)
    requires
        s.len() == t.len(),
        forall|j: int|
            0 <= j < s.len() ==> (#[trigger] s[j]).0 + dx == t[j].0 && s[j].1 + dy == t[j].1,
    ensures
        sum_placed_x(s, dx) == sum_x(t),
        sum_placed_y(s, dy) == sum_y(t),
    decreases s.len(),
{
    if s.len() > 0 {
        let s2 = s.drop_last();
        let t2 = t.drop_last();
        assert forall|j: int| 0 <= j < s2.len() implies (#[trigger] s2[j]).0 + dx == t2[j].0
            && s2[j].1 + dy == t2[j].1 by {
            assert(s2[j] == s[j]);
            assert(t2[j] == t[j]);
        }
        lemma_placed_sums(s2, t2, dx, dy);
        assert(s.last() == s[s.len() - 1]);
    }
}

impl WoodChunk {
    /// The piece made of the frame cells `comp`, each with the material of
    /// the member that `slot` names for its place, centred on its own centre
    /// of mass.
    fn build_piece(
        &self,
        comp: &Vec<(i64, i64)>,
        slot: &Vec<usize>,
        ox: i64,
        oy: i64,
        w: usize,
        h: usize,
    ) -> (pc: SplitPiece)
        requires
            frame_ok(ox as int, oy as int, w as int, h as int),
            w >= 1,
            h >= 1,
            w - 1 <= i32::MAX,
            h - 1 <= i32::MAX,
            i32::MIN <= ox,
            i32::MIN <= oy,
            ox + w - 1 <= i32::MAX,
            oy + h - 1 <= i32::MAX,
            slot@.len() == w * h,
            comp@.len() > 0,
            distinct(comp@),
            forall|j: int|
                0 <= j < comp@.len() ==> in_frame(
                    pt(#[trigger] comp@[j]),
                    ox as int,
                    oy as int,
                    w as int,
                    h as int,
                ) && slot@[frame_index(pt(comp@[j]), ox as int, oy as int, w as int)]
                    < self.pixels@.len(),
        ensures
            pc.chunk.wf(),
            pc.chunk.pixels@.len() == comp@.len(),
            forall|j: int|
                0 <= j < comp@.len() ==> #[trigger] piece_cell(pc, j) == (
                    comp@[j].0 as int,
                    comp@[j].1 as int,
                    self.pixels@[slot@[frame_index(
                        pt(comp@[j]),
                        ox as int,
                        oy as int,
                        w as int,
                    ) as int] as int].2,
                ),
            pc.offset_x == mean(
                sum_placed_x(pc.chunk.pixels@, pc.offset_x as int),
                pc.chunk.pixels@.len() as int,
            ),
            pc.offset_y == mean(
                sum_placed_y(pc.chunk.pixels@, pc.offset_y as int),
                pc.chunk.pixels@.len() as int,
            ),
    {
        let n = comp.len();
        let ghost c = comp@;
        let mut sx: u128 = 0;
        let mut sy: u128 = 0;
        let mut j: usize = 0;
        while j < n
            invariant
                n == c.len(),
                c == comp@,
                j <= n,
                forall|i: int|
                    0 <= i < c.len() ==> in_frame(
                        pt(#[trigger] c[i]),
                        ox as int,
                        oy as int,
                        w as int,
                        h as int,
                    ),
                frame_ok(ox as int, oy as int, w as int, h as int),
                w >= 1,
                h >= 1,
                sx == sum_x(c.subrange(0, j as int)) - j * ox,
                sy == sum_y(c.subrange(0, j as int)) - j * oy,
                sx <= j * (w - 1),
                sy <= j * (h - 1),
            decreases n - j,
        {
            let (x, y) = comp[j];
            proof {
                lemma_prefix_push(c, j as int);
                assert(in_frame(pt(c[j as int]), ox as int, oy as int, w as int, h as int));
                assert(sum_x(c.subrange(0, j + 1)) == sum_x(c.subrange(0, j as int)) + c[j as int].0);
                assert(sum_y(c.subrange(0, j + 1)) == sum_y(c.subrange(0, j as int)) + c[j as int].1);
                assert((j + 1) * (w - 1) <= 0x1_0000_0000_0000_0000 * 0x100_0000_0000) by (nonlinear_arith)
                    requires
                        j < 0x1_0000_0000_0000_0000,
                        w - 1 <= 0x100_0000_0000,
                        w >= 1,
                ;
                assert((j + 1) * (h - 1) <= 0x1_0000_0000_0000_0000 * 0x100_0000_0000) by (nonlinear_arith)
                    requires
                        j < 0x1_0000_0000_0000_0000,
                        h - 1 <= 0x100_0000_0000,
                        h >= 1,
                ;
                assert((j + 1) * (w - 1) == j * (w - 1) + (w - 1)) by (nonlinear_arith);
                assert((j + 1) * (h - 1) == j * (h - 1) + (h - 1)) by (nonlinear_arith);
                assert((j + 1) * ox == j * ox + ox) by (nonlinear_arith);
                assert((j + 1) * oy == j * oy + oy) by (nonlinear_arith);
            }
            sx = sx + (x - ox) as u128;
            sy = sy + (y - oy) as u128;
            proof {
                assert(sx <= (j + 1) * (w - 1)) by (nonlinear_arith)
                    requires
                        sx <= j * (w - 1) + (w - 1),
                ;
                assert(sy <= (j + 1) * (h - 1)) by (nonlinear_arith)
                    requires
                        sy <= j * (h - 1) + (h - 1),
                ;
            }
            j += 1;
        }
        proof {
            assert(c.subrange(0, n as int) == c);
            lemma_div_is_ordered(sx as int, n * (w - 1), n as int);
            lemma_div_multiples_vanish((w - 1) as int, n as int);
            lemma_div_is_ordered(sy as int, n * (h - 1), n as int);
            lemma_div_multiples_vanish((h - 1) as int, n as int);
        }
        let qx = (sx / n as u128) as i64;
        let qy = (sy / n as u128) as i64;
        let cx = ox + qx;
        let cy = oy + qy;
        let mut pixels: Vec<(i32, i32, Material)> = Vec::new();
        let mut j: usize = 0;
        while j < n
            invariant
                n == c.len(),
                c == comp@,
                j <= n,
                frame_ok(ox as int, oy as int, w as int, h as int),
                slot@.len() == w * h,
                0 <= qx <= w - 1,
                0 <= qy <= h - 1,
                w - 1 <= i32::MAX,
                h - 1 <= i32::MAX,
                cx == ox + qx,
                cy == oy + qy,
                i32::MIN <= ox,
                i32::MIN <= oy,
                ox + w - 1 <= i32::MAX,
                oy + h - 1 <= i32::MAX,
                n > 0,
                sx == sum_x(c) - n * ox,
                sy == sum_y(c) - n * oy,
                qx == (sx as int) / (n as int),
                qy == (sy as int) / (n as int),
                forall|i: int|
                    0 <= i < c.len() ==> in_frame(
                        pt(#[trigger] c[i]),
                        ox as int,
                        oy as int,
                        w as int,
                        h as int,
                    ) && slot@[frame_index(pt(c[i]), ox as int, oy as int, w as int)]
                        < self.pixels@.len(),
                pixels@.len() == j,
                forall|i: int|
                    0 <= i < j ==> #[trigger] pixels@[i] == (
                        (c[i].0 - cx) as i32,
                        (c[i].1 - cy) as i32,
                        self.pixels@[slot@[frame_index(pt(c[i]), ox as int, oy as int, w as int)] as int].2,
                    ),
            decreases n - j,
        {
            let (x, y) = comp[j];
            proof {
                assert(in_frame(pt(c[j as int]), ox as int, oy as int, w as int, h as int));
                lemma_index_in_range((x - ox) as int, (y - oy) as int, w as int, h as int);
            }
            let idx = (y - oy) as usize * w + (x - ox) as usize;
            let m = self.pixels[slot[idx]].2;
            pixels.push(((x - cx) as i32, (y - cy) as i32, m));
            j += 1;
        }
        let pc = SplitPiece { offset_x: cx as i32, offset_y: cy as i32, chunk: WoodChunk { pixels } };
        proof {
            assert forall|i: int| 0 <= i < n implies #[trigger] piece_cell(pc, i) == (
                c[i].0 as int,
                c[i].1 as int,
                self.pixels@[slot@[frame_index(pt(c[i]), ox as int, oy as int, w as int) as int] as int].2,
            ) by {
                assert(in_frame(pt(c[i]), ox as int, oy as int, w as int, h as int));
            }
            assert forall|i: int| 0 <= i < n implies (#[trigger] pc.chunk.pixels@[i]).0 + cx == c[i].0
                && pc.chunk.pixels@[i].1 + cy == c[i].1 by {
                assert(in_frame(pt(c[i]), ox as int, oy as int, w as int, h as int));
            }
            lemma_placed_sums(pc.chunk.pixels@, c, cx as int, cy as int);
            lemma_hoist_over_denominator(sx as int, ox as int, n as nat);
            lemma_hoist_over_denominator(sy as int, oy as int, n as nat);
            assert(sum_x(c) == sx + ox * n);
            assert(sum_y(c) == sy + oy * n);
            let bx0 = ox - cx;
            let by0 = oy - cy;
            let bx1 = ox + w - 1 - cx;
            let by1 = oy + h - 1 - cy;
            assert((bx1 - bx0 + 1) * (by1 - by0 + 1) == w * h);
            assert forall|i: int| 0 <= i < n implies bx0 <= (#[trigger] pc.chunk.pixels@[i]).0 <= bx1
                && by0 <= pc.chunk.pixels@[i].1 <= by1 by {
                assert(in_frame(pt(c[i]), ox as int, oy as int, w as int, h as int));
            }
            assert(boxed(pc.chunk.pixels@, bx0 as int, by0 as int, bx1 as int, by1 as int));
            assert forall|a: int, b: int|
                0 <= a < n && 0 <= b < n && a != b implies spot(
                    #[trigger] pc.chunk.pixels@[a],
                ) != spot(#[trigger] pc.chunk.pixels@[b]) by {
                assert(in_frame(pt(c[a]), ox as int, oy as int, w as int, h as int));
                assert(in_frame(pt(c[b]), ox as int, oy as int, w as int, h as int));
                assert(c[a] != c[b]);
            }
        }
        pc
    }

    /// The chunk's 4-connected pieces, each centred on its own centre of
    /// mass; a chunk that holds together gives one piece, an empty one none.
    pub fn pieces(&self) -> (r: Vec<SplitPiece>)
        requires
            self.wf(),
        ensures
            split_into(self.pixels@, r@),
    {
        let n = self.pixels.len();
        let ghost s = self.pixels@;
        if n == 0 {
            return Vec::new();
        }
        let ghost (bx0, by0, bx1, by1) = choose|x0: int, y0: int, x1: int, y1: int|
            boxed(self.pixels@, x0, y0, x1, y1);
        proof {
            assert(bx0 <= s[0].0 <= bx1);
        }
        let mut x0: i64 = self.pixels[0].0 as i64;
        let mut x1: i64 = x0;
        let mut y0: i64 = self.pixels[0].1 as i64;
        let mut y1: i64 = y0;
        let mut i: usize = 0;
        while i < n
            invariant
                n == s.len(),
                s == self.pixels@,
                i <= n,
                boxed(s, bx0, by0, bx1, by1),
                bx0 <= x0 <= x1 <= bx1,
                by0 <= y0 <= y1 <= by1,
                i32::MIN <= x0,
                i32::MIN <= y0,
                x1 <= i32::MAX,
                y1 <= i32::MAX,
                forall|j: int| 0 <= j < i ==> x0 <= (#[trigger] s[j]).0 <= x1 && y0 <= s[j].1 <= y1,
            decreases n - i,
        {
            let (px, py, _) = self.pixels[i];
            proof {
                assert(bx0 <= s[i as int].0 <= bx1 && by0 <= s[i as int].1 <= by1);
            }
            if (px as i64) < x0 {
                x0 = px as i64;
            }
            if (px as i64) > x1 {
                x1 = px as i64;
            }
            if (py as i64) < y0 {
                y0 = py as i64;
            }
            if (py as i64) > y1 {
                y1 = py as i64;
            }
            i += 1;
        }
        let w = (x1 - x0 + 1) as usize;
        let h = (y1 - y0 + 1) as usize;
        proof {
            assert(w * h <= (bx1 - bx0 + 1) * (by1 - by0 + 1)) by (nonlinear_arith)
                requires
                    1 <= w <= bx1 - bx0 + 1,
                    1 <= h <= by1 - by0 + 1,
            ;
            assert(frame_ok(x0 as int, y0 as int, w as int, h as int));
        }
        let mut inside: Vec<bool> = vec![false; w * h];
        let mut slot: Vec<usize> = vec![0usize; w * h];
        proof {
            assert forall|c: (int, int)|
                in_frame(c, x0 as int, y0 as int, w as int, h as int) implies !inside@[frame_index(
                    c,
                    x0 as int,
                    y0 as int,
                    w as int,
                )] by {
                lemma_index_in_range(c.0 - x0, c.1 - y0, w as int, h as int);
            }
        }
        let mut i: usize = 0;
        while i < n
            invariant
                n == s.len(),
                s == self.pixels@,
                self.wf(),
                i <= n,
                frame_ok(x0 as int, y0 as int, w as int, h as int),
                w == x1 - x0 + 1,
                h == y1 - y0 + 1,
                inside@.len() == w * h,
                slot@.len() == w * h,
                forall|j: int| 0 <= j < n ==> x0 <= (#[trigger] s[j]).0 <= x1 && y0 <= s[j].1 <= y1,
                forall|c: (int, int)|
                    in_frame(c, x0 as int, y0 as int, w as int, h as int) ==> (#[trigger] inside@[frame_index(
                        c,
                        x0 as int,
                        y0 as int,
                        w as int,
                    )] <==> exists|j: int| 0 <= j < i && #[trigger] spot(s[j]) == c),
                forall|j: int|
                    0 <= j < i ==> #[trigger] slot@[frame_index(spot(s[j]), x0 as int, y0 as int, w as int)]
                        == j,
            decreases n - i,
        {
            let (px, py, _) = self.pixels[i];
            let ghost c = spot(s[i as int]);
            proof {
                lemma_index_in_range(c.0 - x0, c.1 - y0, w as int, h as int);
            }
            let idx = (py as i64 - y0) as usize * w + (px as i64 - x0) as usize;
            let ghost old_inside = inside@;
            let ghost old_slot = slot@;
            inside.set(idx, true);
            slot.set(idx, i);
            proof {
                assert forall|d: (int, int)|
                    in_frame(d, x0 as int, y0 as int, w as int, h as int) implies (#[trigger] inside@[frame_index(
                        d,
                        x0 as int,
                        y0 as int,
                        w as int,
                    )] <==> exists|j: int| 0 <= j < i + 1 && #[trigger] spot(s[j]) == d) by {
                    lemma_index_in_range(d.0 - x0, d.1 - y0, w as int, h as int);
                    if d == c {
                        assert(spot(s[i as int]) == d);
                    } else {
                        if frame_index(d, x0 as int, y0 as int, w as int) == idx {
                            lemma_index_injective(d.0 - x0, d.1 - y0, c.0 - x0, c.1 - y0, w as int, h as int);
                        }
                        assert(inside@[frame_index(d, x0 as int, y0 as int, w as int)] == old_inside[frame_index(d, x0 as int, y0 as int, w as int)]);
                        if exists|j: int| 0 <= j < i + 1 && #[trigger] spot(s[j]) == d {
                            let j = choose|j: int| 0 <= j < i + 1 && #[trigger] spot(s[j]) == d;
                            assert(j < i);
                        }
                    }
                }
                assert forall|j: int| 0 <= j < i + 1 implies #[trigger] slot@[frame_index(
                    spot(s[j]),
                    x0 as int,
                    y0 as int,
                    w as int,
                )] == j by {
                    if j < i {
                        let d = spot(s[j]);
                        assert(x0 <= s[j].0 <= x1 && y0 <= s[j].1 <= y1);
                        assert(d != c);
                        lemma_index_in_range(d.0 - x0, d.1 - y0, w as int, h as int);
                        if frame_index(d, x0 as int, y0 as int, w as int) == idx {
                            lemma_index_injective(d.0 - x0, d.1 - y0, c.0 - x0, c.1 - y0, w as int, h as int);
                        }
                        assert(slot@[frame_index(d, x0 as int, y0 as int, w as int)] == old_slot[frame_index(d, x0 as int, y0 as int, w as int)]);
                    }
                }
            }
            i += 1;
        }
        let ghost region = chunk_region(s);
        proof {
            assert forall|c: (int, int)|
                mask_set(inside@, x0 as int, y0 as int, w as int, h as int).contains(c)
                    == region.contains(c) by {
                if region.contains(c) {
                    let j = choose|j: int| 0 <= j < s.len() && #[trigger] spot(s[j]) == c;
                    assert(x0 <= s[j].0 <= x1 && y0 <= s[j].1 <= y1);
                }
            }
            assert(mask_set(inside@, x0 as int, y0 as int, w as int, h as int) =~= region);
        }
        proof {
            assert(w - 1 <= bx1 - bx0 && h - 1 <= by1 - by0);
            assert forall|c: (int, int)| #[trigger] region.contains(c) implies slot@[frame_index(
                c,
                x0 as int,
                y0 as int,
                w as int,
            )] < n && spot(s[slot@[frame_index(c, x0 as int, y0 as int, w as int)] as int]) == c by {
                let j = choose|j: int| 0 <= j < s.len() && #[trigger] spot(s[j]) == c;
                assert(slot@[frame_index(spot(s[j]), x0 as int, y0 as int, w as int)] == j);
            }
        }
        let comps = label_components(&inside, x0, y0, w, h);
        let mut r: Vec<SplitPiece> = Vec::new();
        let mut k: usize = 0;
        while k < comps.len()
            invariant
                n == s.len(),
                s == self.pixels@,
                self.wf(),
                frame_ok(x0 as int, y0 as int, w as int, h as int),
                w == x1 - x0 + 1,
                h == y1 - y0 + 1,
                i32::MIN <= x0,
                i32::MIN <= y0,
                x1 <= i32::MAX,
                y1 <= i32::MAX,
                w - 1 <= i32::MAX,
                h - 1 <= i32::MAX,
                forall|i: int|
                    0 <= i < s.len() ==> #[trigger] slot@[frame_index(spot(s[i]), x0 as int, y0 as int, w as int)]
                        == i,
                slot@.len() == w * h,
                region == mask_set(inside@, x0 as int, y0 as int, w as int, h as int),
                partitions(comps@, region),
                forall|c: (int, int)|
                    #[trigger] region.contains(c) ==> slot@[frame_index(c, x0 as int, y0 as int, w as int)] < n
                        && spot(s[slot@[frame_index(c, x0 as int, y0 as int, w as int)] as int]) == c,
                k <= comps@.len(),
                r@.len() == k,
                forall|q: int|
                    0 <= q < k ==> built_from(
                        #[trigger] r@[q],
                        comps@[q]@,
                        slot@,
                        s,
                        x0 as int,
                        y0 as int,
                        w as int,
                    ),
            decreases comps@.len() - k,
        {
            proof {
                assert(comps@[k as int]@.len() > 0);
                assert forall|j: int| 0 <= j < comps@[k as int]@.len() implies in_frame(
                    pt(#[trigger] comps@[k as int]@[j]),
                    x0 as int,
                    y0 as int,
                    w as int,
                    h as int,
                ) && slot@[frame_index(pt(comps@[k as int]@[j]), x0 as int, y0 as int, w as int)]
                    < self.pixels@.len() by {
                    assert(pt(comps@[k as int]@[j]) == pt(comps@[k as int]@[j]));
                    assert(cell_set(comps@[k as int]@).contains(pt(comps@[k as int]@[j])));
                    assert(region.contains(pt(comps@[k as int]@[j])));
                }
            }
            let pc = self.build_piece(&comps[k], &slot, x0, y0, w, h);
            r.push(pc);
            proof {
                assert forall|q: int| 0 <= q < k + 1 implies built_from(
                    #[trigger] r@[q],
                    comps@[q]@,
                    slot@,
                    s,
                    x0 as int,
                    y0 as int,
                    w as int,
                ) by {
                    if q == k {
                        assert(r@[q] == pc);
                    }
                }
            }
            k += 1;
        }
        proof {
            lemma_split_from_parts(s, r@, comps@, slot@, region, x0 as int, y0 as int, w as int, h as int);
        }
        r
    }
}

proof fn lemma_split_from_parts(
    s: Seq<(i32, i32, Material)>,
    r: Seq<SplitPiece>,
    comps: Seq<Vec<(i64, i64)>>,
    slot: Seq<usize>,
    region: Set<(int, int)>,
    x0: int,
    y0: int,
    w: int,
    h: int,
)
    requires
        region == chunk_region(s),
        partitions(comps, region),
        r.len() == comps.len(),
        forall|c: (int, int)|
            #[trigger] region.contains(c) ==> slot[frame_index(c, x0, y0, w)] < s.len() && spot(
                s[slot[frame_index(c, x0, y0, w)] as int],
            ) == c,
        forall|i: int| 0 <= i < s.len() ==> #[trigger] slot[frame_index(spot(s[i]), x0, y0, w)] == i,
        forall|q: int|
            0 <= q < r.len() ==> built_from(#[trigger] r[q], comps[q]@, slot, s, x0, y0, w),
    ensures
        split_into(s, r),
{
    assert forall|q: int| 0 <= q < r.len() implies piece_region(#[trigger] r[q]) == cell_set(
        comps[q]@,
    ) by {
        let pc = r[q];
        let cq = comps[q]@;
        assert(built_from(pc, cq, slot, s, x0, y0, w));
        assert forall|c: (int, int)| piece_region(pc).contains(c) == cell_set(cq).contains(c) by {
            if piece_region(pc).contains(c) {
                let j = choose|j: int|
                    0 <= j < pc.chunk.pixels@.len() && (#[trigger] piece_cell(pc, j)).0 == c.0
                        && piece_cell(pc, j).1 == c.1;
                assert(pt(cq[j]) == c);
            }
            if cell_set(cq).contains(c) {
                let j = choose|j: int| 0 <= j < cq.len() && #[trigger] pt(cq[j]) == c;
                assert(piece_cell(pc, j).0 == c.0 && piece_cell(pc, j).1 == c.1);
            }
        }
        assert(piece_region(pc) =~= cell_set(cq));
    }
    assert forall|k: int|
        0 <= k < r.len() implies {
            let pc = #[trigger] r[k];
            &&& pc.chunk.wf()
            &&& pc.chunk.pixels@.len() > 0
            &&& pc.offset_x == mean(
                sum_placed_x(pc.chunk.pixels@, pc.offset_x as int),
                pc.chunk.pixels@.len() as int,
            )
            &&& pc.offset_y == mean(
                sum_placed_y(pc.chunk.pixels@, pc.offset_y as int),
                pc.chunk.pixels@.len() as int,
            )
            &&& piece_region(pc) == component(
                chunk_region(s),
                (piece_cell(pc, 0).0, piece_cell(pc, 0).1),
            )
        } by {
        let pc = r[k];
        assert(built_from(pc, comps[k]@, slot, s, x0, y0, w));
        assert(comps[k]@.len() > 0);
        assert(piece_cell(pc, 0).0 == comps[k]@[0].0 && piece_cell(pc, 0).1 == comps[k]@[0].1);
        assert((piece_cell(pc, 0).0, piece_cell(pc, 0).1) == pt(comps[k]@[0]));
        assert(piece_region(pc) == cell_set(comps[k]@));
    }
    assert forall|k: int, j: int|
        #![trigger piece_cell(r[k], j)]
        0 <= k < r.len() && 0 <= j < r[k].chunk.pixels@.len() implies exists|i: int|
            0 <= i < s.len() && #[trigger] placed(s[i], 0, 0) == piece_cell(r[k], j) by {
        let cq = comps[k]@;
        assert(built_from(r[k], cq, slot, s, x0, y0, w));
        let c = pt(cq[j]);
        assert(cell_set(cq).contains(c));
        assert(region.contains(c));
        let i = slot[frame_index(c, x0, y0, w) as int] as int;
        assert(placed(s[i], 0, 0) == piece_cell(r[k], j));
        assert(0 <= i < s.len() && placed(s[i], 0, 0) == piece_cell(r[k], j));
    }
    assert forall|i: int| 0 <= i < s.len() implies #[trigger] in_some_piece(r, placed(s[i], 0, 0)) by {
        let c = spot(s[i]);
        assert(region.contains(c));
        let k = choose|k: int| 0 <= k < comps.len() && #[trigger] cell_set(comps[k]@).contains(c);
        let cq = comps[k]@;
        let j = choose|j: int| 0 <= j < cq.len() && #[trigger] pt(cq[j]) == c;
        assert(built_from(r[k], cq, slot, s, x0, y0, w));
        assert(piece_cell(r[k], j) == placed(s[i], 0, 0));
        assert(0 <= k < r.len() && 0 <= j < r[k].chunk.pixels@.len() && placed(s[i], 0, 0)
            == piece_cell(r[k], j));
    }
    assert forall|k1: int, k2: int|
        0 <= k1 < r.len() && 0 <= k2 < r.len() && k1 != k2 implies piece_region(
            #[trigger] r[k1],
        ).disjoint(piece_region(#[trigger] r[k2])) by {
        assert(piece_region(r[k1]) == cell_set(comps[k1]@));
        assert(piece_region(r[k2]) == cell_set(comps[k2]@));
    }
}

/// What the lifecycle pass does with a chunk.
pub enum ChunkFate {
    /// No cells are left: the body goes away.
    Removed,
    /// The cells still hold together.
    Intact,
    /// The cells came apart: the body is replaced by these pieces.
    Split(Vec<SplitPiece>),
}

/// A split leaves every cell in exactly one piece: no cell is dropped (it
/// lies in some piece) and none is doubled (two places in the pieces that
/// hold it are the same place).
pub proof fn lemma_split_exact(s: Seq<(i32, i32, Material)>, pieces: Seq<SplitPiece>)
    requires
        split_into(s, pieces),
    ensures
        forall|i: int| 0 <= i < s.len() ==> #[trigger] in_some_piece(pieces, placed(s[i], 0, 0)),
        forall|i: int, k1: int, j1: int, k2: int, j2: int|
            #![trigger placed(s[i], 0, 0), piece_cell(pieces[k1], j1), piece_cell(pieces[k2], j2)]
            0 <= i < s.len() && 0 <= k1 < pieces.len() && 0 <= k2 < pieces.len() && 0 <= j1
                < pieces[k1].chunk.pixels@.len() && 0 <= j2 < pieces[k2].chunk.pixels@.len()
                && placed(s[i], 0, 0) == piece_cell(pieces[k1], j1) && placed(s[i], 0, 0)
                == piece_cell(pieces[k2], j2) ==> k1 == k2 && j1 == j2,
{
    assert forall|i: int, k1: int, j1: int, k2: int, j2: int|
        #![trigger placed(s[i], 0, 0), piece_cell(pieces[k1], j1), piece_cell(pieces[k2], j2)]
        0 <= i < s.len() && 0 <= k1 < pieces.len() && 0 <= k2 < pieces.len() && 0 <= j1
            < pieces[k1].chunk.pixels@.len() && 0 <= j2 < pieces[k2].chunk.pixels@.len() && placed(
            s[i],
            0,
            0,
        ) == piece_cell(pieces[k1], j1) && placed(s[i], 0, 0) == piece_cell(pieces[k2], j2)
            implies k1 == k2 && j1 == j2 by {
        let c = (piece_cell(pieces[k1], j1).0, piece_cell(pieces[k1], j1).1);
        assert(piece_region(pieces[k1]).contains(c));
        assert(piece_region(pieces[k2]).contains(c));
        if k1 != k2 {
            assert(piece_region(pieces[k1]).disjoint(piece_region(pieces[k2])));
        }
        if j1 != j2 {
            let pc = pieces[k1];
            assert(pc.chunk.wf());
            assert(spot(pc.chunk.pixels@[j1]) != spot(pc.chunk.pixels@[j2]));
        }
    }
}

/// `f` is the lifecycle decision for a chunk with cells `s`: removed when
/// it has no cells, split into its pieces when they are two or more, intact
/// when they are one.
pub open spec fn decided(s: Seq<(i32, i32, Material)>, f: ChunkFate) -> bool {
    &&& (f is Removed) == (s.len() == 0)
    &&& (f matches ChunkFate::Split(ps) ==> ps@.len() >= 2 && split_into(s, ps@))
    &&& (f is Intact ==> exists|ps: Seq<SplitPiece>| ps.len() == 1 && split_into(s, ps))
}

/// One lifecycle pass over the free chunks: the decision for each, in order.
pub fn detect_split_chunks(chunks: &Vec<WoodChunk>) -> (r: Vec<ChunkFate>)
    requires
        forall|i: int| 0 <= i < chunks@.len() ==> (#[trigger] chunks@[i]).wf(),
    ensures
        r@.len() == chunks@.len(),
        forall|i: int| 0 <= i < chunks@.len() ==> decided(chunks@[i].pixels@, #[trigger] r@[i]),
{
    let mut r: Vec<ChunkFate> = Vec::new();
    let mut i: usize = 0;
    while i < chunks.len()
        invariant
            i <= chunks@.len(),
            r@.len() == i,
            forall|j: int| 0 <= j < chunks@.len() ==> (#[trigger] chunks@[j]).wf(),
            forall|j: int| 0 <= j < i ==> decided(chunks@[j].pixels@, #[trigger] r@[j]),
        decreases chunks@.len() - i,
    {
        let f = chunks[i].fate();
        r.push(f);
        i += 1;
    }
    r
}

impl WoodChunk {
    /// The lifecycle decision for a chunk: removed when it has no cells,
    /// split when its cells form two or more 4-connected pieces, intact
    /// otherwise.
    pub fn fate(&self) -> (r: ChunkFate)
        requires
            self.wf(),
        ensures
            decided(self.pixels@, r),
    {
        if self.pixels.len() == 0 {
            return ChunkFate::Removed;
        }
        let ps = self.pieces();
        if ps.len() >= 2 {
            ChunkFate::Split(ps)
        } else {
            proof {
                if ps@.len() == 0 {
                    assert(in_some_piece(ps@, placed(self.pixels@[0], 0, 0)));
                }
            }
            ChunkFate::Intact
        }
    }

    /// Removes the cells marked in both `in_reach` and `hits` (one flag per
    /// cell, in order) and returns them; the others keep their order.
    pub fn cut(&mut self, in_reach: &Vec<bool>, hits: &Vec<bool>) -> (removed: Vec<(i32, i32, Material)>)
        requires
            old(self).wf(),
            in_reach@.len() == old(self).pixels@.len(),
            hits@.len() == old(self).pixels@.len(),
        ensures
            final(self).wf(),
            exists|keep: Seq<bool>| {
                &&& keep.len() == old(self).pixels@.len()
                &&& forall|i: int| 0 <= i < keep.len() ==> #[trigger] keep[i] == !(in_reach@[i] && hits@[i])
                &&& final(self).pixels@ == kept(old(self).pixels@, keep, true)
                &&& removed@ == kept(old(self).pixels@, keep, false)
            },
    {
        let ghost orig = self.pixels@;
        let ghost keep = Seq::new(orig.len(), |i: int| !(in_reach@[i] && hits@[i]));
        let mut stay: Vec<(i32, i32, Material)> = Vec::new();
        let mut gone: Vec<(i32, i32, Material)> = Vec::new();
        let ghost mut src: Seq<int> = Seq::empty();
        let mut i: usize = 0;
        while i < self.pixels.len()
            invariant
                self.pixels@ == orig,
                i <= orig.len(),
                keep.len() == orig.len(),
                in_reach@.len() == orig.len(),
                hits@.len() == orig.len(),
                forall|j: int| 0 <= j < keep.len() ==> #[trigger] keep[j] == !(in_reach@[j] && hits@[j]),
                stay@ == kept(orig.subrange(0, i as int), keep.subrange(0, i as int), true),
                gone@ == kept(orig.subrange(0, i as int), keep.subrange(0, i as int), false),
                src.len() == stay@.len(),
                forall|j: int| 0 <= j < src.len() ==> 0 <= #[trigger] src[j] < i && stay@[j] == orig[src[j]],
                forall|j1: int, j2: int| 0 <= j1 < j2 < src.len() ==> #[trigger] src[j1] < #[trigger] src[j2],
            decreases orig.len() - i,
        {
            proof {
                assert(orig.subrange(0, i + 1).drop_last() =~= orig.subrange(0, i as int));
                assert(keep.subrange(0, i + 1).drop_last() =~= keep.subrange(0, i as int));
            }
            if in_reach[i] && hits[i] {
                gone.push(self.pixels[i]);
            } else {
                stay.push(self.pixels[i]);
                proof {
                    src = src.push(i as int);
                }
            }
            i += 1;
        }
        self.pixels = stay;
        proof {
            assert(orig.subrange(0, orig.len() as int) =~= orig);
            assert(keep.subrange(0, orig.len() as int) =~= keep);
            let (x0, y0, x1, y1) = choose|x0: int, y0: int, x1: int, y1: int| boxed(orig, x0, y0, x1, y1);
            assert forall|j: int| 0 <= j < self.pixels@.len() implies x0 <= (#[trigger] self.pixels@[j]).0 <= x1
                && y0 <= self.pixels@[j].1 <= y1 by {
                assert(self.pixels@[j] == orig[src[j]]);
                assert(0 <= src[j] < orig.len());
            }
            assert(boxed(self.pixels@, x0, y0, x1, y1));
            assert forall|a: int, b: int|
                0 <= a < self.pixels@.len() && 0 <= b < self.pixels@.len() && a != b implies spot(
                    #[trigger] self.pixels@[a],
                ) != spot(#[trigger] self.pixels@[b]) by {
                if a < b {
                    assert(src[a] < src[b]);
                } else {
                    assert(src[b] < src[a]);
                }
                assert(spot(orig[src[a]]) != spot(orig[src[b]]));
            }
        }
        gone
    }

    /// Width and height of the bounding box of the cells, the size of the
    /// chunk's collider; none for an empty chunk.
    pub fn bounding_size(&self) -> (r: Option<(i64, i64)>)
        requires
            self.wf(),
        ensures
            self.pixels@.len() == 0 ==> r is None,
            self.pixels@.len() > 0 ==> (r matches Some(sz) && exists|x0: int, y0: int, x1: int, y1: int|
                #![trigger bounds_of(self.pixels@, x0, y0, x1, y1)]
                bounds_of(self.pixels@, x0, y0, x1, y1) && sz.0 == x1 - x0 + 1 && sz.1 == y1 - y0 + 1),
    {
        let n = self.pixels.len();
        if n == 0 {
            return None;
        }
        let ghost s = self.pixels@;
        let mut x0: i64 = self.pixels[0].0 as i64;
        let mut x1: i64 = x0;
        let mut y0: i64 = self.pixels[0].1 as i64;
        let mut y1: i64 = y0;
        let ghost mut wx0: int = 0;
        let ghost mut wx1: int = 0;
        let ghost mut wy0: int = 0;
        let ghost mut wy1: int = 0;
        let mut i: usize = 0;
        while i < n
            invariant
                n == s.len(),
                n > 0,
                s == self.pixels@,
                i <= n,
                i32::MIN <= x0 <= x1 <= i32::MAX,
                i32::MIN <= y0 <= y1 <= i32::MAX,
                forall|j: int| 0 <= j < i ==> x0 <= (#[trigger] s[j]).0 <= x1 && y0 <= s[j].1 <= y1,
                0 <= wx0 < n && 0 <= wx1 < n && 0 <= wy0 < n && 0 <= wy1 < n,
                s[wx0].0 == x0 && s[wx1].0 == x1 && s[wy0].1 == y0 && s[wy1].1 == y1,
            decreases n - i,
        {
            let (px, py, _) = self.pixels[i];
            if (px as i64) < x0 {
                x0 = px as i64;
                proof { wx0 = i as int; }
            }
            if (px as i64) > x1 {
                x1 = px as i64;
                proof { wx1 = i as int; }
            }
            if (py as i64) < y0 {
                y0 = py as i64;
                proof { wy0 = i as int; }
            }
            if (py as i64) > y1 {
                y1 = py as i64;
                proof { wy1 = i as int; }
            }
            i += 1;
        }
        proof {
            assert(bounds_of(s, x0 as int, y0 as int, x1 as int, y1 as int));
        }
        Some((x1 - x0 + 1, y1 - y0 + 1))
    }
}

/// `[x0, x1]` by `[y0, y1]` is the bounding box of the cells `s`: it holds them
/// all and each side touches one.
pub open spec fn bounds_of(s: Seq<(i32, i32, Material)>, x0: int, y0: int, x1: int, y1: int) -> bool {
    &&& forall|i: int| 0 <= i < s.len() ==> x0 <= (#[trigger] s[i]).0 <= x1 && y0 <= s[i].1 <= y1
    &&& exists|i: int| 0 <= i < s.len() && #[trigger] s[i].0 == x0
    &&& exists|i: int| 0 <= i < s.len() && #[trigger] s[i].0 == x1
    &&& exists|i: int| 0 <= i < s.len() && #[trigger] s[i].1 == y0
    &&& exists|i: int| 0 <= i < s.len() && #[trigger] s[i].1 == y1
}

/// The cells of `s` whose flag in `keep` equals `side`, in order.
pub open spec fn kept(s: Seq<(i32, i32, Material)>, keep: Seq<bool>, side: bool) -> Seq<(i32, i32, Material)>
    decreases s.len(),
{
    if s.len() == 0 || keep.len() == 0 {
        Seq::empty()
    } else {
        let r = kept(s.drop_last(), keep.drop_last(), side);
        if keep.last() == side {
            r.push(s.last())
        } else {
            r
        }
    }
}

proof fn lemma_sum_bounds(s: Seq<(i64, i64)>)
    requires
        s.len() >= 1,
    ensures
        s.len() * min_x(s) <= sum_x(s) <= s.len() * max_x(s),
        s.len() * min_y(s) <= sum_y(s) <= s.len() * max_y(s),
        forall|i: int|
            0 <= i < s.len() ==> min_x(s) <= (#[trigger] s[i]).0 <= max_x(s) && min_y(s) <= s[i].1
                <= max_y(s),
    decreases s.len(),
{
    if s.len() == 1 {
        assert(s.drop_last().len() == 0);
        assert(sum_x(s.drop_last()) == 0);
        assert(sum_y(s.drop_last()) == 0);
        assert(s.last() == s[0]);
        assert(sum_x(s) == s[0].0);
        assert(sum_y(s) == s[0].1);
    } else {
        let t = s.drop_last();
        lemma_sum_bounds(t);
        let n = t.len();
        assert(sum_x(s) == sum_x(t) + s.last().0);
        assert(sum_y(s) == sum_y(t) + s.last().1);
        assert(min_x(s) <= min_x(t) && min_x(s) <= s.last().0);
        assert(max_x(s) >= max_x(t) && max_x(s) >= s.last().0);
        assert(min_y(s) <= min_y(t) && min_y(s) <= s.last().1);
        assert(max_y(s) >= max_y(t) && max_y(s) >= s.last().1);
        assert(n * min_x(s) <= n * min_x(t)) by (nonlinear_arith)
            requires
                min_x(s) <= min_x(t),
                n >= 0,
        ;
        assert(n * max_x(t) <= n * max_x(s)) by (nonlinear_arith)
            requires
                max_x(t) <= max_x(s),
                n >= 0,
        ;
        assert(n * min_y(s) <= n * min_y(t)) by (nonlinear_arith)
            requires
                min_y(s) <= min_y(t),
                n >= 0,
        ;
        assert(n * max_y(t) <= n * max_y(s)) by (nonlinear_arith)
            requires
                max_y(t) <= max_y(s),
                n >= 0,
        ;
        assert(s.len() * min_x(s) == n * min_x(s) + min_x(s)) by (nonlinear_arith)
            requires
                s.len() == n + 1,
        ;
        assert(s.len() * max_x(s) == n * max_x(s) + max_x(s)) by (nonlinear_arith)
            requires
                s.len() == n + 1,
        ;
        assert(s.len() * min_y(s) == n * min_y(s) + min_y(s)) by (nonlinear_arith)
            requires
                s.len() == n + 1,
        ;
        assert(s.len() * max_y(s) == n * max_y(s) + max_y(s)) by (nonlinear_arith)
            requires
                s.len() == n + 1,
        ;
        assert forall|i: int| 0 <= i < s.len() implies min_x(s) <= (#[trigger] s[i]).0 <= max_x(s)
            && min_y(s) <= s[i].1 <= max_y(s) by {
            if i < n {
                assert(s[i] == t[i]);
            }
        }
    }
}

/// The extremes of a non-empty list lie within any range that holds all its
/// cells.
proof fn lemma_extremes_within(s: Seq<(i64, i64)>, w: int, h: int)
    requires
        s.len() >= 1,
        forall|i: int| 0 <= i < s.len() ==> in_bounds((#[trigger] s[i]).0 as int, s[i].1 as int, w, h),
    ensures
        0 <= min_x(s) <= max_x(s) < w,
        0 <= min_y(s) <= max_y(s) < h,
    decreases s.len(),
{
    assert(in_bounds(s[0].0 as int, s[0].1 as int, w, h));
    if s.len() > 1 {
        let t = s.drop_last();
        assert forall|i: int| 0 <= i < t.len() implies in_bounds((#[trigger] t[i]).0 as int, t[i].1 as int, w, h) by {
            assert(t[i] == s[i]);
        }
        lemma_extremes_within(t, w, h);
        assert(in_bounds(s.last().0 as int, s.last().1 as int, w, h));
    }
}

proof fn lemma_mean_between(sum: int, n: int, lo: int, hi: int)
    requires
        n > 0,
        n * lo <= sum <= n * hi,
    ensures
        lo <= mean(sum, n) <= hi,
{
    lemma_div_is_ordered(n * lo, sum, n);
    lemma_div_is_ordered(sum, n * hi, n);
    lemma_div_multiples_vanish(lo, n);
    lemma_div_multiples_vanish(hi, n);
}

/// `sp` is the body made from the grid cells `cells` of `g`: centred on
/// their mean cell (rounded down), with their bounding box and tip
/// direction, each cell kept relative to the centre with its material in
/// `g`.
pub open spec fn promoted(sp: ChunkSpawn, cells: Seq<(i64, i64)>, g: PixelWorld) -> bool {
    &&& sp.center_x == mean(sum_x(cells), cells.len() as int)
    &&& sp.center_y == mean(sum_y(cells), cells.len() as int)
    &&& sp.width == max_x(cells) - min_x(cells) + 1
    &&& sp.height == max_y(cells) - min_y(cells) + 1
    &&& sp.tip == tip_direction(cells, sp.center_x as int, sp.center_y as int)
    &&& sp.chunk.wf()
    &&& sp.chunk.pixels@.len() == cells.len()
    &&& forall|i: int|
        0 <= i < cells.len() ==> (#[trigger] sp.chunk.pixels@[i]).0 + sp.center_x == cells[i].0
            && sp.chunk.pixels@[i].1 + sp.center_y == cells[i].1 && sp.chunk.pixels@[i].2 == g.at(
            cells[i].0 as int,
            cells[i].1 as int,
        )
}

/// `sp` is the body made from the grid cells `cells`, all of material `m`.
pub open spec fn spawned_from(sp: ChunkSpawn, cells: Seq<(i64, i64)>, m: Material) -> bool {
    &&& sp.center_x == mean(sum_x(cells), cells.len() as int)
    &&& sp.center_y == mean(sum_y(cells), cells.len() as int)
    &&& sp.width == max_x(cells) - min_x(cells) + 1
    &&& sp.height == max_y(cells) - min_y(cells) + 1
    &&& sp.tip == tip_direction(cells, sp.center_x as int, sp.center_y as int)
    &&& sp.chunk.wf()
    &&& sp.chunk.pixels@.len() == cells.len()
    &&& forall|i: int|
        0 <= i < cells.len() ==> (#[trigger] sp.chunk.pixels@[i]).0 + sp.center_x == cells[i].0
            && sp.chunk.pixels@[i].1 + sp.center_y == cells[i].1
    &&& forall|i: int|
        0 <= i < cells.len() ==> #[trigger] sp.chunk.pixels@[i] == (
            (cells[i].0 - sp.center_x) as i32,
            (cells[i].1 - sp.center_y) as i32,
            m,
        )
}

proof fn lemma_prefix_push<A>(s: Seq<A>, i: int)
    requires
        0 <= i < s.len(),
    ensures
        s.subrange(0, i + 1).drop_last() == s.subrange(0, i),
        s.subrange(0, i + 1).last() == s[i],
        s.subrange(0, i + 1) == s.subrange(0, i).push(s[i]),
{
    assert(s.subrange(0, i + 1).drop_last() =~= s.subrange(0, i));
    assert(s.subrange(0, i + 1) =~= s.subrange(0, i).push(s[i]));
}

impl PixelWorld {
    /// Turns the listed cells into a free body, when there are any: clears
    /// them to air and returns the body. An empty list is no body, and the
    /// grid is left as it is.
    pub fn promote(&mut self, cells: &Vec<(i64, i64)>) -> (r: Option<ChunkSpawn>)
        requires
            old(self).wf(),
            distinct(cells@),
            forall|i: int|
                0 <= i < cells@.len() ==> in_bounds(
                    (#[trigger] cells@[i]).0 as int,
                    cells@[i].1 as int,
                    old(self).w(),
                    old(self).h(),
                ),
        ensures
            cells@.len() == 0 ==> r is None && *final(self) == *old(self),
            cells@.len() > 0 ==> (r matches Some(sp) && promoted(sp, cells@, *old(self))
                && old(self).written(
                &*final(self),
                |x: int, y: int| cell_set(cells@).contains((x, y)),
                Material::Air,
            )),
    {
        if cells.len() == 0 {
            return None;
        }
        Some(self.promote_cells(cells))
    }

    /// Turns the listed cells into a free body: clears them to air and
    /// returns the body, its cells relative to their centre of mass (the
    /// mean cell, rounded down), the size of their bounding box, and which
    /// way it starts to tip.
    pub(crate) fn promote_cells(&mut self, cells: &Vec<(i64, i64)>) -> (r: ChunkSpawn)
        requires
            old(self).wf(),
            cells@.len() > 0,
            distinct(cells@),
            forall|i: int|
                0 <= i < cells@.len() ==> in_bounds(
                    (#[trigger] cells@[i]).0 as int,
                    cells@[i].1 as int,
                    old(self).w(),
                    old(self).h(),
                ),
        ensures
            old(self).written(
                &*final(self),
                |x: int, y: int| cell_set(cells@).contains((x, y)),
                Material::Air,
            ),
            r.center_x == mean(sum_x(cells@), cells@.len() as int),
            r.center_y == mean(sum_y(cells@), cells@.len() as int),
            r.width == max_x(cells@) - min_x(cells@) + 1,
            r.height == max_y(cells@) - min_y(cells@) + 1,
            r.tip == tip_direction(cells@, r.center_x as int, r.center_y as int),
            r.chunk.wf(),
            r.chunk.pixels@.len() == cells@.len(),
            forall|i: int|
                0 <= i < cells@.len() ==> (#[trigger] r.chunk.pixels@[i]).0 + r.center_x == cells@[i].0
                    && r.chunk.pixels@[i].1 + r.center_y == cells@[i].1,
            forall|i: int|
                0 <= i < cells@.len() ==> #[trigger] r.chunk.pixels@[i] == (
                    (cells@[i].0 - r.center_x) as i32,
                    (cells@[i].1 - r.center_y) as i32,
                    old(self).at(cells@[i].0 as int, cells@[i].1 as int),
                ),
    {
        let n = cells.len();
        let ghost s = cells@;
        let mut sx: u128 = 0;
        let mut sy: u128 = 0;
        let mut x0: i64 = cells[0].0;
        let mut x1: i64 = cells[0].0;
        let mut y0: i64 = cells[0].1;
        let mut y1: i64 = cells[0].1;
        let mut i: usize = 0;
        while i < n
            invariant
                n == s.len(),
                s == cells@,
                n > 0,
                i <= n,
                forall|j: int|
                    0 <= j < s.len() ==> in_bounds(
                        (#[trigger] s[j]).0 as int,
                        s[j].1 as int,
                        self.w(),
                        self.h(),
                    ),
                self.wf(),
                sx == sum_x(s.subrange(0, i as int)),
                sy == sum_y(s.subrange(0, i as int)),
                sx <= i * 0x8000_0000,
                sy <= i * 0x8000_0000,
                i > 0 ==> x0 == min_x(s.subrange(0, i as int)) && x1 == max_x(s.subrange(0, i as int))
                    && y0 == min_y(s.subrange(0, i as int)) && y1 == max_y(s.subrange(0, i as int)),
                i == 0 ==> x0 == s[0].0 && x1 == s[0].0 && y0 == s[0].1 && y1 == s[0].1,
            decreases n - i,
        {
            let (x, y) = cells[i];
            proof {
                lemma_prefix_push(s, i as int);
                assert(in_bounds(s[i as int].0 as int, s[i as int].1 as int, self.w(), self.h()));
            }
            sx = sx + x as u128;
            sy = sy + y as u128;
            if x < x0 {
                x0 = x;
            }
            if x > x1 {
                x1 = x;
            }
            if y < y0 {
                y0 = y;
            }
            if y > y1 {
                y1 = y;
            }
            i += 1;
        }
        proof {
            assert(s.subrange(0, n as int) == s);
            lemma_sum_bounds(s);
            lemma_extremes_within(s, self.w(), self.h());
            lemma_mean_between(sum_x(s), n as int, min_x(s), max_x(s));
            lemma_mean_between(sum_y(s), n as int, min_y(s), max_y(s));
            assert(in_bounds(s[0].0 as int, s[0].1 as int, self.w(), self.h()));
        }
        let cx = (sx / n as u128) as i64;
        let cy = (sy / n as u128) as i64;
        // lower and upper halves, for the tipping direction
        let mut lo_sum: u128 = 0;
        let mut lo_n: u128 = 0;
        let mut up_sum: u128 = 0;
        let mut up_n: u128 = 0;
        let mut i: usize = 0;
        while i < n
            invariant
                n == s.len(),
                s == cells@,
                i <= n,
                forall|j: int|
                    0 <= j < s.len() ==> in_bounds(
                        (#[trigger] s[j]).0 as int,
                        s[j].1 as int,
                        self.w(),
                        self.h(),
                    ),
                self.wf(),
                (lo_sum as int, lo_n as int) == lower_x(s.subrange(0, i as int), cy as int),
                (up_sum as int, up_n as int) == upper_x(s.subrange(0, i as int), cy as int),
                lo_sum <= lo_n * 0x8000_0000,
                up_sum <= up_n * 0x8000_0000,
                lo_n <= i,
                up_n <= i,
            decreases n - i,
        {
            let (x, y) = cells[i];
            proof {
                lemma_prefix_push(s, i as int);
                assert(in_bounds(s[i as int].0 as int, s[i as int].1 as int, self.w(), self.h()));
            }
            if y > cy {
                lo_sum = lo_sum + x as u128;
                lo_n = lo_n + 1;
            }
            if y < cy {
                up_sum = up_sum + x as u128;
                up_n = up_n + 1;
            }
            i += 1;
        }
        proof {
            assert(s.subrange(0, n as int) == s);
        }
        let width = x1 - x0 + 1;
        let height = y1 - y0 + 1;
        let tip: i32 = if 2 * height <= 3 * width {
            0
        } else {
            let lo_mean: i64 = if lo_n == 0 {
                0
            } else {
                (lo_sum / lo_n) as i64
            };
            let up_mean: i64 = if up_n == 0 {
                0
            } else {
                (up_sum / up_n) as i64
            };
            proof {
                if lo_n > 0 {
                    lemma_div_is_ordered(lo_sum as int, lo_n * 0x8000_0000, lo_n as int);
                    lemma_div_multiples_vanish(0x8000_0000, lo_n as int);
                }
                if up_n > 0 {
                    lemma_div_is_ordered(up_sum as int, up_n * 0x8000_0000, up_n as int);
                    lemma_div_multiples_vanish(0x8000_0000, up_n as int);
                }
            }
            let offset = up_mean - lo_mean;
            if offset > 2 {
                1
            } else if offset < -2 {
                -1
            } else if cx % 2 == 0 {
                1
            } else {
                -1
            }
        };
        // clear the cells and record them relative to the centre
        let ghost start = *self;
        let mut pixels: Vec<(i32, i32, Material)> = Vec::new();
        proof {
            start.lemma_written_refl(Material::Air);
            assert(cell_set(s.subrange(0, 0)) =~= Set::empty());
            start.lemma_written_same(
                self,
                |x: int, y: int| false,
                |x: int, y: int| cell_set(s.subrange(0, 0)).contains((x, y)),
                Material::Air,
            );
        }
        let mut i: usize = 0;
        while i < n
            invariant
                n == s.len(),
                s == cells@,
                i <= n,
                distinct(s),
                forall|j: int|
                    0 <= j < s.len() ==> in_bounds(
                        (#[trigger] s[j]).0 as int,
                        s[j].1 as int,
                        start.w(),
                        start.h(),
                    ),
                start.wf(),
                start.written(
                    self,
                    |x: int, y: int| cell_set(s.subrange(0, i as int)).contains((x, y)),
                    Material::Air,
                ),
                0 <= cx < start.w(),
                0 <= cy < start.h(),
                pixels@.len() == i,
                forall|j: int|
                    0 <= j < i ==> #[trigger] pixels@[j] == ((s[j].0 - cx) as i32, (s[j].1 - cy) as i32,
                        start.at(s[j].0 as int, s[j].1 as int)),
            decreases n - i,
        {
            let (x, y) = cells[i];
            proof {
                lemma_prefix_push(s, i as int);
                lemma_cell_set_push(s.subrange(0, i as int), s[i as int]);
                if cell_set(s.subrange(0, i as int)).contains((x as int, y as int)) {
                    let j = choose|j: int|
                        0 <= j < i && #[trigger] pt(s.subrange(0, i as int)[j]) == (x as int, y as int);
                    assert(s[j] == s.subrange(0, i as int)[j]);
                    assert(s[j] == s[i as int]);
                }
                assert(self.at(x as int, y as int) == start.at(x as int, y as int));
            }
            let m = self.get(x as i32, y as i32);
            pixels.push(((x - cx) as i32, (y - cy) as i32, m));
            let ghost before = *self;
            self.set(x as i32, y as i32, Material::Air);
            proof {
                start.lemma_written_trans(
                    &before,
                    self,
                    |px: int, py: int| cell_set(s.subrange(0, i as int)).contains((px, py)),
                    |px: int, py: int| px == (x as i32) as int && py == (y as i32) as int,
                    |px: int, py: int| cell_set(s.subrange(0, i + 1)).contains((px, py)),
                    Material::Air,
                );
            }
            i += 1;
        }
        proof {
            assert(s.subrange(0, n as int) == s);
        }
        let chunk = WoodChunk { pixels };
        proof {
            let bx0 = -(cx as int);
            let by0 = -(cy as int);
            let bx1 = start.w() - 1 - cx;
            let by1 = start.h() - 1 - cy;
            assert((bx1 - bx0 + 1) * (by1 - by0 + 1) == start.w() * start.h());
            assert(boxed(chunk.pixels@, bx0, by0, bx1, by1));
            assert forall|i: int| 0 <= i < n implies (#[trigger] chunk.pixels@[i]).0 + cx == s[i].0
                && chunk.pixels@[i].1 + cy == s[i].1 by {
                assert(in_bounds(s[i].0 as int, s[i].1 as int, start.w(), start.h()));
            }
            assert forall|a: int, b: int|
                0 <= a < chunk.pixels@.len() && 0 <= b < chunk.pixels@.len() && a != b implies spot(
                    #[trigger] chunk.pixels@[a],
                ) != spot(#[trigger] chunk.pixels@[b]) by {
                assert(s[a] != s[b]);
            }
        }
        ChunkSpawn {
            center_x: cx as i32,
            center_y: cy as i32,
            width: width as i32,
            height: height as i32,
            tip,
            chunk,
        }
    }
}

} // verus!
