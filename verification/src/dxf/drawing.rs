//! What a DXF file draws: a layer per colour, outlines, and arrays of blocks.
use crate::dither::{is_split_of, run_views, split, split_view, tile_inked, Run, RunView};
use crate::dxf::colour::{is_nearest, nearest_index};
use crate::dxf::outline::{
    drawn_ok, outline_views, outlines, outlines_of, Outline, OutlineView, Piece, Setting,
};
use crate::geometry::{path_ok, Page, Segment, Shape, Xy, REACH};
use crate::grid::MAX_GRID;
use crate::text::{decimal, hex2, push_decimal, push_hex2};
use vstd::prelude::*;

verus! {

/// A colour's layer: its name, nearest colour index and true colour.
#[derive(Debug)]
pub struct Layer {
    pub name: String,
    pub index: u8,
    pub colour: u32,
}

/// A colour's red, green and blue.
pub open spec fn rgb(c: [u8; 3]) -> (int, int, int) {
    (c[0] as int, c[1] as int, c[2] as int)
}

/// The layer of colour `c`: named by its hexadecimal digits, with the nearest
/// AutoCAD index and red, green and blue in one integer.
pub open spec fn layer_of(layer: Layer, c: (int, int, int)) -> bool {
    &&& layer.name@ == "COLOR_"@ + hex2(c.0) + hex2(c.1) + hex2(c.2)
    &&& is_nearest(c, layer.index as int)
    &&& layer.colour == c.0 * 65536 + c.1 * 256 + c.2
}

impl Layer {
    /// The layer of colour `c`.
    pub fn of(c: [u8; 3]) -> (layer: Self)
        ensures
            layer_of(layer, rgb(c)),
    {
        let mut name = String::new();
        name.append("COLOR_");
        push_hex2(&mut name, c[0]);
        push_hex2(&mut name, c[1]);
        push_hex2(&mut name, c[2]);
        proof {
            assert(name@ =~= "COLOR_"@ + hex2(c[0] as int) + hex2(c[1] as int) + hex2(c[2] as int));
        }
        Layer {
            name,
            index: nearest_index(c),
            colour: c[0] as u32 * 65536 + c[1] as u32 * 256 + c[2] as u32,
        }
    }
}

/// A block placed as AutoCAD's rectangular array: `columns` by `rows` copies
/// `step` apart, the lower-left one at `at`.
#[derive(Clone, Copy, Debug, PartialEq, Eq, Structural)]
pub struct Array {
    pub layer: usize,
    pub block: usize,
    pub at: Xy,
    pub columns: usize,
    pub rows: usize,
    pub step: Xy,
}

/// What is drawn: an outline, or an array of a block.
#[derive(Debug)]
pub enum Item {
    Outline(Outline),
    Array(Array),
}

pub enum ItemView {
    Outline(OutlineView),
    Array(Array),
}

impl View for Item {
    type V = ItemView;

    open spec fn view(&self) -> ItemView {
        match self {
            Item::Outline(o) => ItemView::Outline(o@),
            Item::Array(a) => ItemView::Array(*a),
        }
    }
}

pub open spec fn item_views(items: Seq<Item>) -> Seq<ItemView> {
    items.map_values(|i: Item| i@)
}

/// A block's layer, square side and inked cells, each as its column and its
/// row counted from the bottom, by columns.
#[derive(Debug)]
pub struct TileKey {
    pub layer: usize,
    pub side: i64,
    pub inked: Vec<(usize, usize)>,
}

#[verifier::ext_equal]
pub struct TileView {
    pub layer: int,
    pub side: int,
    pub inked: Seq<(usize, usize)>,
}

impl View for TileKey {
    type V = TileView;

    open spec fn view(&self) -> TileView {
        TileView { layer: self.layer as int, side: self.side as int, inked: self.inked@ }
    }
}

impl TileView {
    pub open spec fn ok(self) -> bool {
        &&& 0 < self.side <= i64::MAX
        &&& forall|k: int|
            0 <= k < self.inked.len() ==> cell_ok(self.side, #[trigger] self.inked[k])
    }
}

/// The cell's square lies within reach.
pub open spec fn cell_ok(side: int, cell: (usize, usize)) -> bool {
    &&& cell.0 < 8
    &&& cell.1 < 8
    &&& (cell.0 + 1) * side <= 4 * REACH
    &&& (cell.1 + 1) * side <= 4 * REACH
}

/// Part of a dithered area's tile: the squares of its inked cells as closed
/// outlines, its lower-left corner at the block's origin.
#[derive(Debug)]
pub struct Block {
    pub name: String,
    pub outlines: Vec<Outline>,
}

/// The square of side `side` on column `i` and row `j` of a block.
pub open spec fn cell_outline(layer: int, side: int, cell: (usize, usize)) -> OutlineView {
    let (left, right) = ((cell.0 * side) as i64, ((cell.0 + 1) * side) as i64);
    let (bottom, top) = ((cell.1 * side) as i64, ((cell.1 + 1) * side) as i64);
    OutlineView {
        layer,
        start: Xy { x: left, y: top },
        pieces: seq![
            Piece::Line(Xy { x: right, y: top }),
            Piece::Line(Xy { x: right, y: bottom }),
            Piece::Line(Xy { x: left, y: bottom }),
        ],
        closed: true,
    }
}

/// The outlines of a block.
pub open spec fn tile_outlines(key: TileView) -> Seq<OutlineView> {
    key.inked.map_values(|c: (usize, usize)| cell_outline(key.layer, key.side, c))
}

/// Block number `index` (counted from zero), which draws `key`.
pub open spec fn block_of(block: Block, index: int, key: TileView) -> bool {
    &&& block.name@ == "VM_DITHER_"@ + decimal((index + 1) as nat)
    &&& outline_views(block.outlines@) == tile_outlines(key)
}

/// A run's size in cells.
pub open spec fn cells_wide(run: RunView) -> int {
    run.width / run.side
}

pub open spec fn cells_high(run: RunView) -> int {
    run.height / run.side
}

/// One of the four parts a run is placed as: which window of the tile, how
/// many copies, and how many cells in from the run's corner it starts.
pub struct Part {
    pub window: (int, int),
    pub counts: (int, int),
    pub offset: (int, int),
}

/// A run's whole tiles, then the columns and the rows it ends in short of a
/// whole tile, and the corner where both meet.
pub open spec fn part_of(run: RunView, k: int) -> Part {
    let (px, py) = (run.period.x as int, run.period.y as int);
    let (w, h) = (cells_wide(run), cells_high(run));
    let (nx, ny) = (w / px, h / py);
    let (rx, ry) = (w % px, h % py);
    if k == 0 {
        Part { window: (px, py), counts: (nx, ny), offset: (0, 0) }
    } else if k == 1 {
        Part { window: (rx, py), counts: (1, ny), offset: (nx * px, 0) }
    } else if k == 2 {
        Part { window: (px, ry), counts: (nx, 1), offset: (0, ny * py) }
    } else {
        Part { window: (rx, ry), counts: (1, 1), offset: (nx * px, ny * py) }
    }
}

/// The cells of a window of the tile among its first `n`, column by column
/// from the left, each column from the bottom: row `j` of the tile, counted
/// from its top, is row `window.1 - 1 - j`.
pub open spec fn window_cells(inked: Seq<(usize, usize)>, window: (int, int), n: nat) -> Seq<
    (usize, usize),
>
    decreases n,
{
    if n == 0 {
        Seq::empty()
    } else {
        let before = window_cells(inked, window, (n - 1) as nat);
        let i = (n - 1) / window.1;
        let j = (n - 1) % window.1;
        if inked.contains((i as usize, (window.1 - 1 - j) as usize)) {
            before.push((i as usize, j as usize))
        } else {
            before
        }
    }
}

/// The blocks made so far, and what is drawn so far.
#[verifier::ext_equal]
pub struct Placed {
    pub tiles: Seq<TileView>,
    pub items: Seq<ItemView>,
}

/// The tile's place among `tiles`, which gets it when it is new.
pub open spec fn tile_place(tiles: Seq<TileView>, key: TileView) -> int {
    if tiles.contains(key) {
        tiles.index_of_first(key)->0
    } else {
        tiles.len() as int
    }
}

pub open spec fn with_tile(tiles: Seq<TileView>, key: TileView) -> Seq<TileView> {
    if tiles.contains(key) {
        tiles
    } else {
        tiles.push(key)
    }
}

/// Part `k` of `run` on `layer`, y up on a page `height` high: an array of the
/// part of the tile it holds, unless that is blank.
pub open spec fn placed_part(
    placed: Placed,
    run: RunView,
    layer: int,
    height: int,
    k: int,
) -> Placed {
    let part = part_of(run, k);
    let inked = window_cells(run.inked, part.window, (part.window.0 * part.window.1) as nat);
    if inked.len() == 0 || part.counts.0 == 0 || part.counts.1 == 0 {
        placed
    } else {
        let key = TileView { layer, side: run.side, inked };
        let bottom = run.y + (part.offset.1 + part.counts.1 * part.window.1) * run.side;
        Placed {
            tiles: with_tile(placed.tiles, key),
            items: placed.items.push(
                ItemView::Array(
                    Array {
                        layer: layer as usize,
                        block: tile_place(placed.tiles, key) as usize,
                        at: Xy {
                            x: (run.x + part.offset.0 * run.side) as i64,
                            y: (height - bottom) as i64,
                        },
                        columns: part.counts.0 as usize,
                        rows: part.counts.1 as usize,
                        step: Xy {
                            x: (part.window.0 * run.side) as i64,
                            y: (part.window.1 * run.side) as i64,
                        },
                    },
                ),
            ),
        }
    }
}

/// `run` as arrays on `layer`: its four parts.
pub open spec fn placed_run(placed: Placed, run: RunView, layer: int, height: int) -> Placed {
    placed_part(
        placed_part(
            placed_part(placed_part(placed, run, layer, height, 0), run, layer, height, 1),
            run,
            layer,
            height,
            2,
        ),
        run,
        layer,
        height,
        3,
    )
}

/// The first `n` of `runs` as arrays.
pub open spec fn placed_runs(
    placed: Placed,
    runs: Seq<RunView>,
    layer: int,
    height: int,
    n: nat,
) -> Placed
    decreases n,
{
    if n == 0 {
        placed
    } else {
        placed_run(
            placed_runs(placed, runs, layer, height, (n - 1) as nat),
            runs[n - 1],
            layer,
            height,
        )
    }
}

/// A shape's colour: its fill, or the stroke of a shape without one.
pub open spec fn shape_colour(shape: Shape) -> Option<(int, int, int)> {
    match shape.fill {
        Some(c) => Some(rgb(c)),
        None => match shape.stroke {
            Some(c) => Some(rgb(c)),
            None => None,
        },
    }
}

/// The page's colours in order of first use, and what is drawn of it.
#[verifier::ext_equal]
pub struct Sketch {
    pub colours: Seq<(int, int, int)>,
    pub placed: Placed,
}

/// What a shape's path is split into: its runs when it is filled.
pub open spec fn shape_split(
    shape: Shape,
    found: Option<(Seq<Segment>, Seq<RunView>)>,
) -> bool {
    if shape.fill is Some {
        is_split_of(shape.segments@, found)
    } else {
        found is None
    }
}

pub open spec fn colour_place(colours: Seq<(int, int, int)>, c: (int, int, int)) -> int {
    if colours.contains(c) {
        colours.index_of_first(c)->0
    } else {
        colours.len() as int
    }
}

pub open spec fn with_colour(colours: Seq<(int, int, int)>, c: (int, int, int)) -> Seq<
    (int, int, int),
> {
    if colours.contains(c) {
        colours
    } else {
        colours.push(c)
    }
}

/// `sketch` with one more shape: its outlines on its colour's layer, then its
/// dithered areas as arrays of their tile.
pub open spec fn with_shape(
    sketch: Sketch,
    shape: Shape,
    found: Option<(Seq<Segment>, Seq<RunView>)>,
    height: int,
) -> Sketch {
    match shape_colour(shape) {
        None => sketch,
        Some(c) => {
            let layer = colour_place(sketch.colours, c);
            let setting = Setting {
                layer: layer as usize,
                filled: shape.fill is Some,
                height: height as i64,
            };
            let segments = match found {
                Some((rest, _)) => rest,
                None => shape.segments@,
            };
            let runs = match found {
                Some((_, runs)) => runs,
                None => Seq::empty(),
            };
            let drawn = Placed {
                tiles: sketch.placed.tiles,
                items: sketch.placed.items + outlines_of(setting, segments).map_values(
                    |o: OutlineView| ItemView::Outline(o),
                ),
            };
            Sketch {
                colours: with_colour(sketch.colours, c),
                placed: placed_runs(drawn, runs, layer, height, runs.len()),
            }
        },
    }
}

/// The first `n` shapes of a page.
pub open spec fn sketch(
    shapes: Seq<Shape>,
    found: Seq<Option<(Seq<Segment>, Seq<RunView>)>>,
    height: int,
    n: nat,
) -> Sketch
    decreases n,
{
    if n == 0 {
        Sketch {
            colours: Seq::empty(),
            placed: Placed { tiles: Seq::empty(), items: Seq::empty() },
        }
    } else {
        with_shape(
            sketch(shapes, found, height, (n - 1) as nat),
            shapes[n - 1],
            found[n - 1],
            height,
        )
    }
}

/// What a file draws: a layer per colour, the outlines and arrays in paint
/// order, and the blocks the arrays place.
#[derive(Debug)]
pub struct Drawing {
    pub layers: Vec<Layer>,
    pub items: Vec<Item>,
    pub blocks: Vec<Block>,
}

pub open spec fn array_ok(a: Array, layers: int, blocks: int) -> bool {
    &&& a.layer < layers
    &&& a.block < blocks
    &&& drawn_ok(a.at)
    &&& drawn_ok(a.step)
    &&& 1 <= a.columns <= MAX_GRID
    &&& 1 <= a.rows <= MAX_GRID
}

pub open spec fn item_ok(item: ItemView, layers: int, blocks: int) -> bool {
    match item {
        ItemView::Outline(o) => 0 <= o.layer < layers && o.ok() && o.pieces.len() > 0,
        ItemView::Array(a) => array_ok(a, layers, blocks),
    }
}

pub open spec fn block_ok(block: Block, layers: int) -> bool {
    forall|k: int|
        0 <= k < block.outlines@.len() ==> {
            &&& (#[trigger] block.outlines@[k]).layer < layers
            &&& block.outlines@[k]@.ok()
            &&& block.outlines@[k].pieces@.len() == 3
        }
}

impl Drawing {
    /// Every layer and block that is named is there, and every point is
    /// within reach.
    pub open spec fn ok(&self) -> bool {
        &&& forall|k: int|
            0 <= k < self.items@.len() ==> item_ok(
                (#[trigger] self.items@[k])@,
                self.layers@.len() as int,
                self.blocks@.len() as int,
            )
        &&& forall|k: int|
            0 <= k < self.blocks@.len() ==> block_ok(
                #[trigger] self.blocks@[k],
                self.layers@.len() as int,
            )
    }

    /// The drawing shows `s`.
    pub open spec fn shows(&self, s: Sketch) -> bool {
        &&& item_views(self.items@) == s.placed.items
        &&& self.layers@.len() == s.colours.len()
        &&& forall|k: int|
            0 <= k < self.layers@.len() ==> layer_of(#[trigger] self.layers@[k], s.colours[k])
        &&& self.blocks@.len() == s.placed.tiles.len()
        &&& forall|k: int|
            0 <= k < self.blocks@.len() ==> block_of(
                #[trigger] self.blocks@[k],
                k,
                s.placed.tiles[k],
            )
    }
}

/// The runs of every shape of a page.
pub open spec fn page_splits(
    shapes: Seq<Shape>,
    found: Seq<Option<(Seq<Segment>, Seq<RunView>)>>,
) -> bool {
    &&& found.len() == shapes.len()
    &&& forall|k: int| 0 <= k < shapes.len() ==> shape_split(#[trigger] shapes[k], found[k])
}

/// The drawing is the page's: its colours in order of first use and its
/// outlines, y up; a filled path's dithered areas as arrays of their tile.
pub open spec fn is_drawing_of(drawing: Drawing, page: Page) -> bool {
    exists|found: Seq<Option<(Seq<Segment>, Seq<RunView>)>>| #[trigger]
        page_splits(page.shapes@, found) && drawing.shows(
            sketch(page.shapes@, found, page.height as int, page.shapes@.len()),
        )
}

pub open spec fn tile_views(keys: Seq<TileKey>) -> Seq<TileView> {
    keys.map_values(|k: TileKey| k@)
}

/// The blocks made so far, each made once for what it draws.
pub struct Tiles {
    pub blocks: Vec<Block>,
    pub known: Vec<TileKey>,
}

fn same_cells(a: &Vec<(usize, usize)>, b: &Vec<(usize, usize)>) -> (same: bool)
    ensures
        same == (a@ == b@),
{
    if a.len() != b.len() {
        return false;
    }
    let mut i: usize = 0;
    while i < a.len()
        invariant
            i <= a@.len(),
            a@.len() == b@.len(),
            forall|j: int| 0 <= j < i ==> a@[j] == #[trigger] b@[j],
        decreases a@.len() - i,
    {
        let (p, q): ((usize, usize), (usize, usize)) = (a[i], b[i]);
        if p.0 != q.0 || p.1 != q.1 {
            assert(a@[i as int] != b@[i as int]);
            return false;
        }
        i = i + 1;
    }
    assert(a@ =~= b@);
    true
}

/// The square of a block's cell as a closed outline.
fn square_outline(layer: usize, side: i64, cell: (usize, usize)) -> (outline: Outline)
    requires
        0 < side,
        cell_ok(side as int, cell),
    ensures
        outline@ == cell_outline(layer as int, side as int, cell),
        outline@.ok(),
        outline.layer == layer,
        outline.pieces@.len() == 3,
{
    let (i, j): (i64, i64) = (cell.0 as i64, cell.1 as i64);
    proof {
        let s = side as int;
        assert(0 <= i * s <= (i + 1) * s && 0 <= j * s <= (j + 1) * s) by (nonlinear_arith)
            requires
                0 <= i,
                0 <= j,
                s > 0,
        ;
    }
    let (left, right): (i64, i64) = (i * side, (i + 1) * side);
    let (bottom, top): (i64, i64) = (j * side, (j + 1) * side);
    let mut pieces: Vec<Piece> = Vec::new();
    pieces.push(Piece::Line(Xy { x: right, y: top }));
    pieces.push(Piece::Line(Xy { x: right, y: bottom }));
    pieces.push(Piece::Line(Xy { x: left, y: bottom }));
    let outline = Outline { layer, start: Xy { x: left, y: top }, pieces, closed: true };
    assert(outline@.pieces =~= cell_outline(layer as int, side as int, cell).pieces);
    outline
}

impl Tiles {
    pub open spec fn wf(&self) -> bool {
        &&& self.blocks@.len() == self.known@.len()
        &&& forall|k: int|
            0 <= k < self.blocks@.len() ==> block_of(
                #[trigger] self.blocks@[k],
                k,
                self.known@[k]@,
            )
    }

    /// The block that draws `key`'s squares, made when it is new.
    fn block(&mut self, key: TileKey, layers: Ghost<int>) -> (index: usize)
        requires
            old(self).wf(),
            key@.ok(),
            key.layer < layers@,
            forall|k: int|
                0 <= k < old(self).blocks@.len() ==> block_ok(
                    #[trigger] old(self).blocks@[k],
                    layers@,
                ),
        ensures
            final(self).wf(),
            index == tile_place(tile_views(old(self).known@), key@),
            tile_views(final(self).known@) == with_tile(tile_views(old(self).known@), key@),
            index < final(self).blocks@.len(),
            forall|k: int|
                0 <= k < final(self).blocks@.len() ==> block_ok(
                    #[trigger] final(self).blocks@[k],
                    layers@,
                ),
    {
        let ghost tiles = tile_views(self.known@);
        let mut k: usize = 0;
        while k < self.known.len()
            invariant
                k <= self.known@.len(),
                *self == *old(self),
                old(self).wf(),
                forall|m: int|
                    0 <= m < old(self).blocks@.len() ==> block_ok(
                        #[trigger] old(self).blocks@[m],
                        layers@,
                    ),
                tiles == tile_views(self.known@),
                forall|m: int| 0 <= m < k ==> #[trigger] tiles[m] != key@,
            decreases self.known@.len() - k,
        {
            let other = &self.known[k];
            let same = other.layer == key.layer && other.side == key.side && same_cells(
                &other.inked,
                &key.inked,
            );
            assert(tiles[k as int] == other@);
            if same {
                proof {
                    assert(tiles[k as int] =~= key@);
                    assert(tiles.contains(key@));
                    tiles.index_of_first_ensures(key@);
                    let first = tiles.index_of_first(key@)->0;
                    assert(tiles[first] == key@);
                    assert(first >= k);
                }
                assert(self.wf());
                return k;
            }
            assert(tiles[k as int] != key@);
            k = k + 1;
        }
        assert(!tiles.contains(key@));
        let mut list: Vec<Outline> = Vec::new();
        let mut i: usize = 0;
        let ghost view = key@;
        while i < key.inked.len()
            invariant
                i <= key.inked@.len(),
                view == key@,
                view.ok(),
                key.layer < layers@,
                list@.len() == i,
                forall|m: int|
                    0 <= m < i ==> (#[trigger] list@[m])@ == cell_outline(
                        view.layer,
                        view.side,
                        view.inked[m],
                    ),
                forall|m: int|
                    0 <= m < i ==> {
                        &&& (#[trigger] list@[m]).layer < layers@
                        &&& list@[m]@.ok()
                        &&& list@[m].pieces@.len() == 3
                    },
            decreases key.inked@.len() - i,
        {
            let cell: (usize, usize) = key.inked[i];
            assert(cell_ok(view.side, view.inked[i as int]));
            list.push(square_outline(key.layer, key.side, cell));
            i = i + 1;
        }
        let number: usize = self.blocks.len();
        let mut name = String::new();
        self.known.push(key);
        name.append("VM_DITHER_");
        push_decimal(&mut name, self.known.len() as u64);
        proof {
            assert(name@ =~= "VM_DITHER_"@ + decimal((number + 1) as nat));
            assert(outline_views(list@) =~= tile_outlines(view));
        }
        let block = Block { name, outlines: list };
        assert(block_of(block, number as int, view));
        assert(block_ok(block, layers@));
        self.blocks.push(block);
        proof {
            assert(tile_views(self.known@) =~= tiles.push(view));
            assert forall|m: int| 0 <= m < self.blocks@.len() implies block_of(
                #[trigger] self.blocks@[m],
                m,
                self.known@[m]@,
            ) by {
                if m < number {
                    assert(self.blocks@[m] == old(self).blocks@[m]);
                    assert(self.known@[m] == old(self).known@[m]);
                }
            }
        }
        number
    }
}

/// The parts of a run in machine numbers.
#[derive(Clone, Copy)]
pub struct Spread {
    pub window: (usize, usize),
    pub counts: (usize, usize),
    pub offset: (usize, usize),
}

pub open spec fn spread_is(s: Spread, part: Part) -> bool {
    &&& s.window.0 == part.window.0
    &&& s.window.1 == part.window.1
    &&& s.counts.0 == part.counts.0
    &&& s.counts.1 == part.counts.1
    &&& s.offset.0 == part.offset.0
    &&& s.offset.1 == part.offset.1
}

/// A part of a run lies within it, and its window within the tile.
pub open spec fn part_ok(run: RunView, part: Part) -> bool {
    &&& 0 <= part.window.0 <= run.period.x
    &&& 0 <= part.window.1 <= run.period.y
    &&& 0 <= part.counts.0 <= MAX_GRID
    &&& 0 <= part.counts.1 <= MAX_GRID
    &&& 0 <= part.offset.0
    &&& 0 <= part.offset.1
    &&& part.offset.0 + part.counts.0 * part.window.0 <= cells_wide(run)
    &&& part.offset.1 + part.counts.1 * part.window.1 <= cells_high(run)
    &&& 0 <= part.counts.0 * part.window.0
    &&& 0 <= part.counts.1 * part.window.1
}

/// How far `n` cells of period `p` go in whole tiles.
pub proof fn lemma_tiles_in(n: int, p: int)
    requires
        0 <= n <= MAX_GRID,
        p >= 1,
    ensures
        0 <= n / p <= n,
        0 <= n % p < p,
        n == (n / p) * p + n % p,
        0 <= (n / p) * p <= n,
{
    vstd::arithmetic::div_mod::lemma_fundamental_div_mod(n, p);
    let q = n / p;
    assert(q * p == p * q) by (nonlinear_arith);
    assert(0 <= q <= n && 0 <= q * p) by (nonlinear_arith)
        requires
            n == p * q + n % p,
            0 <= n % p < p,
            n >= 0,
            p >= 1,
    ;
}

/// A run's cells each way: whole, and few enough to search.
pub proof fn lemma_cells(run: Run)
    requires
        run.ok(),
    ensures
        0 <= cells_wide(run@) <= MAX_GRID,
        0 <= cells_high(run@) <= MAX_GRID,
        cells_wide(run@) * run.side == run.width,
        cells_high(run@) * run.side == run.height,
        run.period.x * run.side <= 4 * REACH,
        run.period.y * run.side <= 4 * REACH,
{
    let (w, h, s) = (run.width as int, run.height as int, run.side as int);
    vstd::arithmetic::div_mod::lemma_fundamental_div_mod(w, s);
    vstd::arithmetic::div_mod::lemma_fundamental_div_mod(h, s);
    let (cw, ch) = (w / s, h / s);
    let m = MAX_GRID as int;
    assert(0 <= cw <= m && 0 <= ch <= m && cw * s == w && ch * s == h) by (nonlinear_arith)
        requires
            w == s * cw,
            h == s * ch,
            0 <= w <= m * s,
            0 <= h <= m * s,
            s > 0,
    ;
    let (px, py) = (run.period.x as int, run.period.y as int);
    assert(2 * px * s == 2 * (px * s) && 2 * py * s == 2 * (py * s)) by (nonlinear_arith);
}

pub proof fn lemma_part(run: Run, k: int)
    requires
        run.ok(),
        0 <= k < 4,
    ensures
        part_ok(run@, part_of(run@, k)),
{
    lemma_cells(run);
    let (w, h) = (cells_wide(run@), cells_high(run@));
    let (px, py) = (run.period.x as int, run.period.y as int);
    lemma_tiles_in(w, px);
    lemma_tiles_in(h, py);
}

/// Part `k` of `run`.
fn spread(run: &Run, k: usize) -> (s: Spread)
    requires
        run.ok(),
        k < 4,
    ensures
        spread_is(s, part_of(run@, k as int)),
        part_ok(run@, part_of(run@, k as int)),
{
    proof {
        lemma_cells(*run);
        lemma_part(*run, k as int);
        lemma_tiles_in(cells_wide(run@), run.period.x as int);
        lemma_tiles_in(cells_high(run@), run.period.y as int);
    }
    let (px, py): (usize, usize) = (run.period.x, run.period.y);
    let w: usize = (run.width as u64 / run.side as u64) as usize;
    let h: usize = (run.height as u64 / run.side as u64) as usize;
    let (nx, ny): (usize, usize) = (w / px, h / py);
    let (rx, ry): (usize, usize) = (w % px, h % py);
    if k == 0 {
        Spread { window: (px, py), counts: (nx, ny), offset: (0, 0) }
    } else if k == 1 {
        Spread { window: (rx, py), counts: (1, ny), offset: (nx * px, 0) }
    } else if k == 2 {
        Spread { window: (px, ry), counts: (nx, 1), offset: (0, ny * py) }
    } else {
        Spread { window: (rx, ry), counts: (1, 1), offset: (nx * px, ny * py) }
    }
}

fn has_cell(inked: &Vec<(usize, usize)>, i: usize, j: usize) -> (has: bool)
    ensures
        has == inked@.contains((i, j)),
{
    let mut k: usize = 0;
    while k < inked.len()
        invariant
            k <= inked@.len(),
            forall|m: int| 0 <= m < k ==> #[trigger] inked@[m] != (i, j),
        decreases inked@.len() - k,
    {
        let cell: (usize, usize) = inked[k];
        if cell.0 == i && cell.1 == j {
            assert(inked@[k as int] == (i, j));
            return true;
        }
        k = k + 1;
    }
    false
}

/// The inked cells of a window of the tile, by columns from the bottom.
fn cells_in(inked: &Vec<(usize, usize)>, window: (usize, usize)) -> (cells: Vec<(usize, usize)>)
    requires
        window.0 <= 8,
        window.1 <= 8,
    ensures
        cells@ == window_cells(
            inked@,
            (window.0 as int, window.1 as int),
            (window.0 * window.1) as nat,
        ),
        forall|k: int|
            0 <= k < cells@.len() ==> (#[trigger] cells@[k]).0 < window.0 && cells@[k].1 < window.1,
{
    let ghost win = (window.0 as int, window.1 as int);
    let mut cells: Vec<(usize, usize)> = Vec::new();
    let mut i: usize = 0;
    while i < window.0
        invariant
            i <= window.0 <= 8,
            window.1 <= 8,
            win == (window.0 as int, window.1 as int),
            cells@ == window_cells(inked@, win, (i * window.1) as nat),
            forall|k: int|
                0 <= k < cells@.len() ==> (#[trigger] cells@[k]).0 < window.0 && cells@[k].1
                    < window.1,
        decreases window.0 - i,
    {
        let mut j: usize = 0;
        while j < window.1
            invariant
                i < window.0 <= 8,
                j <= window.1 <= 8,
                win == (window.0 as int, window.1 as int),
                cells@ == window_cells(inked@, win, (i * window.1 + j) as nat),
                forall|k: int|
                    0 <= k < cells@.len() ==> (#[trigger] cells@[k]).0 < window.0 && cells@[k].1
                        < window.1,
            decreases window.1 - j,
        {
            proof {
                let n = i * window.1 + j;
                assert(n >= 0 && n == window.1 * i + j) by (nonlinear_arith)
                    requires
                        n == i * window.1 + j,
                ;
                vstd::arithmetic::div_mod::lemma_fundamental_div_mod_converse(
                    n,
                    window.1 as int,
                    i as int,
                    j as int,
                );
            }
            if has_cell(inked, i, window.1 - 1 - j) {
                cells.push((i, j));
            }
            j = j + 1;
        }
        proof {
            assert((i + 1) * window.1 == i * window.1 + window.1) by (nonlinear_arith);
        }
        i = i + 1;
    }
    cells
}

impl Tiles {
    pub open spec fn placed(&self, items: Seq<Item>) -> Placed {
        Placed { tiles: tile_views(self.known@), items: item_views(items) }
    }

    pub open spec fn blocks_ok(&self, layers: int) -> bool {
        forall|k: int|
            0 <= k < self.blocks@.len() ==> block_ok(#[trigger] self.blocks@[k], layers)
    }

    /// Part `k` of `run` as an array on `layer`, unless it is blank.
    fn place_part(
        &mut self,
        run: &Run,
        layer: usize,
        height: i64,
        k: usize,
        items: &mut Vec<Item>,
        layers: Ghost<int>,
    )
        requires
            old(self).wf(),
            old(self).blocks_ok(layers@),
            run.ok(),
            layer < layers@,
            0 <= height <= REACH,
            k < 4,
            items_ok(old(items)@, layers@, old(self).blocks@.len() as int),
        ensures
            final(self).wf(),
            final(self).blocks_ok(layers@),
            final(self).placed(final(items)@) == placed_part(
                old(self).placed(old(items)@),
                run@,
                layer as int,
                height as int,
                k as int,
            ),
            items_ok(final(items)@, layers@, final(self).blocks@.len() as int),
    {
        let s = spread(run, k);
        let ghost part = part_of(run@, k as int);
        let cells = cells_in(&run.inked, s.window);
        if cells.len() == 0 || s.counts.0 == 0 || s.counts.1 == 0 {
            return;
        }
        let side: i64 = run.side;
        proof {
            lemma_cells(*run);
            let sd = side as int;
            let (w, h) = (cells_wide(run@), cells_high(run@));
            let (ox, oy) = (s.offset.0 as int, s.offset.1 as int);
            let (down, c1, w1) = (
                s.offset.1 + s.counts.1 * s.window.1,
                s.counts.1 as int,
                s.window.1 as int,
            );
            let (w0, px, py) = (s.window.0 as int, run.period.x as int, run.period.y as int);
            assert(0 <= ox * sd <= w * sd && 0 <= down * sd <= h * sd && 0 <= w0 * sd <= px * sd
                && 0 <= w1 * sd <= py * sd) by (nonlinear_arith)
                requires
                    0 <= ox <= w,
                    0 <= down <= h,
                    0 <= w0 <= px,
                    0 <= w1 <= py,
                    sd > 0,
            ;
            assert forall|m: int| 0 <= m < cells@.len() implies cell_ok(
                sd,
                #[trigger] cells@[m],
            ) by {
                let (i, j) = (cells@[m].0 as int, cells@[m].1 as int);
                assert((i + 1) * sd <= px * sd && (j + 1) * sd <= py * sd) by (nonlinear_arith)
                    requires
                        i + 1 <= px,
                        j + 1 <= py,
                        sd > 0,
                ;
            }
        }
        let key = TileKey { layer, side, inked: cells };
        let block = self.block(key, layers);
        let down: i64 = (s.offset.1 + s.counts.1 * s.window.1) as i64 * side;
        let bottom: i64 = run.y + down;
        let array = Array {
            layer,
            block,
            at: Xy { x: run.x + s.offset.0 as i64 * side, y: height - bottom },
            columns: s.counts.0,
            rows: s.counts.1,
            step: Xy { x: s.window.0 as i64 * side, y: s.window.1 as i64 * side },
        };
        items.push(Item::Array(array));
        proof {
            assert(item_views(items@) =~= item_views(old(items)@).push(ItemView::Array(array)));
            let n = self.blocks@.len() as int;
            assert forall|m: int| 0 <= m < items@.len() implies item_ok(
                (#[trigger] items@[m])@,
                layers@,
                n,
            ) by {
                if m < old(items)@.len() {
                    assert(items@[m] == old(items)@[m]);
                    assert(item_ok(old(items)@[m]@, layers@, old(self).blocks@.len() as int));
                }
            }
        }
    }

    /// `run` (page space, y down) as arrays on `layer`: its whole tiles, then
    /// the columns and the rows it ends in short of a whole tile, and the
    /// corner where both meet, each an array of the part of the tile it
    /// holds.
    fn place(
        &mut self,
        run: &Run,
        layer: usize,
        height: i64,
        items: &mut Vec<Item>,
        layers: Ghost<int>,
    )
        requires
            old(self).wf(),
            old(self).blocks_ok(layers@),
            run.ok(),
            layer < layers@,
            0 <= height <= REACH,
            items_ok(old(items)@, layers@, old(self).blocks@.len() as int),
        ensures
            final(self).wf(),
            final(self).blocks_ok(layers@),
            final(self).placed(final(items)@) == placed_run(
                old(self).placed(old(items)@),
                run@,
                layer as int,
                height as int,
            ),
            items_ok(final(items)@, layers@, final(self).blocks@.len() as int),
    {
        self.place_part(run, layer, height, 0, items, layers);
        self.place_part(run, layer, height, 1, items, layers);
        self.place_part(run, layer, height, 2, items, layers);
        self.place_part(run, layer, height, 3, items, layers);
    }
}

pub open spec fn items_ok(items: Seq<Item>, layers: int, blocks: int) -> bool {
    forall|k: int| 0 <= k < items.len() ==> item_ok((#[trigger] items[k])@, layers, blocks)
}

pub open spec fn colour_views(colours: Seq<[u8; 3]>) -> Seq<(int, int, int)> {
    colours.map_values(|c: [u8; 3]| rgb(c))
}

/// The layer of colour `c`, which gets one when it is new.
fn layer_for(colours: &mut Vec<[u8; 3]>, c: [u8; 3]) -> (layer: usize)
    ensures
        layer == colour_place(colour_views(old(colours)@), rgb(c)),
        colour_views(final(colours)@) == with_colour(colour_views(old(colours)@), rgb(c)),
        layer < final(colours)@.len(),
        old(colours)@.len() <= final(colours)@.len(),
{
    let ghost views = colour_views(colours@);
    let mut k: usize = 0;
    while k < colours.len()
        invariant
            k <= colours@.len(),
            *colours == *old(colours),
            views == colour_views(colours@),
            forall|m: int| 0 <= m < k ==> #[trigger] views[m] != rgb(c),
        decreases colours@.len() - k,
    {
        let other: [u8; 3] = colours[k];
        assert(views[k as int] == rgb(other));
        if other[0] == c[0] && other[1] == c[1] && other[2] == c[2] {
            proof {
                assert(views.contains(rgb(c)));
                views.index_of_first_ensures(rgb(c));
                let first = views.index_of_first(rgb(c))->0;
                assert(views[first] == rgb(c));
                assert(first >= k);
            }
            return k;
        }
        k = k + 1;
    }
    assert(!views.contains(rgb(c)));
    colours.push(c);
    assert(colour_views(colours@) =~= views.push(rgb(c)));
    colours.len() - 1
}

/// Adds the outlines `list` to what is drawn.
fn add_outlines(items: &mut Vec<Item>, list: Vec<Outline>, layers: Ghost<int>, blocks: Ghost<int>)
    requires
        items_ok(old(items)@, layers@, blocks@),
        forall|k: int|
            0 <= k < list@.len() ==> {
                &&& (#[trigger] list@[k]).layer < layers@
                &&& list@[k]@.ok()
                &&& list@[k].pieces@.len() > 0
            },
    ensures
        item_views(final(items)@) == item_views(old(items)@) + outline_views(list@).map_values(
            |o: OutlineView| ItemView::Outline(o),
        ),
        items_ok(final(items)@, layers@, blocks@),
{
    let ghost views = outline_views(list@).map_values(|o: OutlineView| ItemView::Outline(o));
    let mut list = list;
    let mut back: Vec<Item> = Vec::new();
    let ghost all = list@;
    // Taken off the end one by one, then put on in the order they had.
    while list.len() > 0
        invariant
            list@.len() + back@.len() == all.len(),
            forall|k: int| 0 <= k < list@.len() ==> list@[k] == #[trigger] all[k],
            forall|k: int|
                0 <= k < back@.len() ==> (#[trigger] back@[k])@ == ItemView::Outline(
                    all[all.len() - 1 - k]@,
                ),
        decreases list@.len(),
    {
        let ghost n = list@.len();
        if let Some(outline) = list.pop() {
            assert(outline == all[n - 1]);
            back.push(Item::Outline(outline));
        }
    }
    let ghost before = items@;
    while back.len() > 0
        invariant
            back@.len() <= all.len(),
            forall|k: int|
                0 <= k < back@.len() ==> (#[trigger] back@[k])@ == ItemView::Outline(
                    all[all.len() - 1 - k]@,
                ),
            items@.len() == before.len() + all.len() - back@.len(),
            forall|k: int| 0 <= k < before.len() ==> items@[k] == #[trigger] before[k],
            forall|k: int|
                before.len() <= k < items@.len() ==> (#[trigger] items@[k])@ == ItemView::Outline(
                    all[k - before.len()]@,
                ),
        decreases back@.len(),
    {
        if let Some(item) = back.pop() {
            items.push(item);
        }
    }
    proof {
        assert(item_views(items@) =~= item_views(before) + views);
        assert forall|k: int| 0 <= k < items@.len() implies item_ok(
            (#[trigger] items@[k])@,
            layers@,
            blocks@,
        ) by {
            if k < before.len() {
                assert(items@[k] == before[k]);
                assert(item_ok(before[k]@, layers@, blocks@));
            } else {
                let o = all[k - before.len()];
                assert(o.layer < layers@ && o@.ok());
            }
        }
    }
}

proof fn lemma_more_layers(items: Seq<Item>, a: int, b: int, blocks: int)
    requires
        a <= b,
        items_ok(items, a, blocks),
    ensures
        items_ok(items, b, blocks),
{
    assert forall|k: int| 0 <= k < items.len() implies item_ok(
        (#[trigger] items[k])@,
        b,
        blocks,
    ) by {
        assert(item_ok(items[k]@, a, blocks));
    }
}

impl Drawing {
    /// The page's colours in order of first use and its outlines, y up; a
    /// filled path's dithered areas as arrays of their tile. Only outlines
    /// are written, so a path's stroke changes nothing here.
    pub fn of(page: &Page) -> (drawing: Self)
        requires
            page.ok(),
        ensures
            is_drawing_of(drawing, *page),
            drawing.ok(),
    {
        let height: i64 = page.height;
        let ghost shapes = page.shapes@;
        let ghost mut found: Seq<Option<(Seq<Segment>, Seq<RunView>)>> = Seq::empty();
        let mut colours: Vec<[u8; 3]> = Vec::new();
        let mut items: Vec<Item> = Vec::new();
        let mut tiles = Tiles { blocks: Vec::new(), known: Vec::new() };
        let mut n: usize = 0;
        proof {
            assert(colour_views(colours@) =~= Seq::<(int, int, int)>::empty());
            assert(tiles.placed(items@).tiles =~= Seq::<TileView>::empty());
            assert(tiles.placed(items@).items =~= Seq::<ItemView>::empty());
        }
        while n < page.shapes.len()
            invariant
                n <= shapes.len(),
                shapes == page.shapes@,
                page.ok(),
                height == page.height,
                found.len() == n,
                forall|k: int| 0 <= k < n ==> shape_split(#[trigger] shapes[k], found[k]),
                tiles.wf(),
                tiles.blocks_ok(colours@.len() as int),
                items_ok(items@, colours@.len() as int, tiles.blocks@.len() as int),
                sketch(shapes, found, height as int, n as nat) == (Sketch {
                    colours: colour_views(colours@),
                    placed: tiles.placed(items@),
                }),
            decreases shapes.len() - n,
        {
            let shape = &page.shapes[n];
            assert(path_ok(shapes[n as int].segments@));
            let ghost was = found;
            let filled = shape.fill.is_some();
            let colour = match shape.fill {
                Some(c) => Some(c),
                None => shape.stroke,
            };
            let split_here = if filled {
                split(shape.segments.as_slice())
            } else {
                None
            };
            let ghost view = split_view(split_here);
            proof {
                found = was.push(view);
                assert(shape_split(shapes[n as int], view));
                assert forall|k: int| 0 <= k < n + 1 implies shape_split(
                    #[trigger] shapes[k],
                    found[k],
                ) by {
                    if k < n {
                        assert(found[k] == was[k]);
                    }
                }
                lemma_sketch_prefix(shapes, was, found, height as int, n as nat);
            }
            let ghost before = sketch(shapes, found, height as int, n as nat);
            if let Some(c) = colour {
                let ghost few = colours@.len() as int;
                let layer = layer_for(&mut colours, c);
                let ghost layers = colours@.len() as int;
                proof {
                    lemma_more_layers(items@, few, layers, tiles.blocks@.len() as int);
                    assert forall|k: int| 0 <= k < tiles.blocks@.len() implies block_ok(
                        #[trigger] tiles.blocks@[k],
                        layers,
                    ) by {
                        assert(block_ok(tiles.blocks@[k], few));
                    }
                }
                let setting = Setting { layer, filled, height };
                let ghost start = tiles.placed(items@);
                match split_here {
                    Some((rest, runs)) => {
                        let list = outlines(rest.as_slice(), setting);
                        add_outlines(
                            &mut items,
                            list,
                            Ghost(layers),
                            Ghost(tiles.blocks@.len() as int),
                        );
                        let ghost drawn = tiles.placed(items@);
                        let ghost views = run_views(runs@);
                        let mut k: usize = 0;
                        while k < runs.len()
                            invariant
                                k <= runs@.len(),
                                0 <= height <= REACH,
                                layer < layers,
                                views == run_views(runs@),
                                forall|m: int| 0 <= m < runs@.len() ==> (#[trigger] runs@[m]).ok(),
                                tiles.wf(),
                                tiles.blocks_ok(layers),
                                items_ok(items@, layers, tiles.blocks@.len() as int),
                                tiles.placed(items@) == placed_runs(
                                    drawn,
                                    views,
                                    layer as int,
                                    height as int,
                                    k as nat,
                                ),
                            decreases runs@.len() - k,
                        {
                            assert(runs@[k as int].ok());
                            assert(views[k as int] == runs@[k as int]@);
                            tiles.place(&runs[k], layer, height, &mut items, Ghost(layers));
                            k = k + 1;
                        }
                    },
                    None => {
                        let list = outlines(shape.segments.as_slice(), setting);
                        add_outlines(
                            &mut items,
                            list,
                            Ghost(layers),
                            Ghost(tiles.blocks@.len() as int),
                        );
                    },
                }
            }
            n = n + 1;
        }
        let mut layers: Vec<Layer> = Vec::new();
        let mut k: usize = 0;
        while k < colours.len()
            invariant
                k <= colours@.len(),
                layers@.len() == k,
                forall|m: int|
                    0 <= m < k ==> layer_of(#[trigger] layers@[m], rgb(colours@[m])),
            decreases colours@.len() - k,
        {
            layers.push(Layer::of(colours[k]));
            k = k + 1;
        }
        let drawing = Drawing { layers, items, blocks: tiles.blocks };
        proof {
            let s = sketch(shapes, found, height as int, shapes.len());
            assert(page_splits(shapes, found));
            assert forall|m: int| 0 <= m < drawing.blocks@.len() implies block_of(
                #[trigger] drawing.blocks@[m],
                m,
                s.placed.tiles[m],
            ) by {
                assert(s.placed.tiles[m] == tiles.known@[m]@);
            }
            assert(drawing.shows(s));
        }
        drawing
    }
}

/// A sketch of `n` shapes rests on the first `n` splits alone.
proof fn lemma_sketch_prefix(
    shapes: Seq<Shape>,
    a: Seq<Option<(Seq<Segment>, Seq<RunView>)>>,
    b: Seq<Option<(Seq<Segment>, Seq<RunView>)>>,
    height: int,
    n: nat,
)
    requires
        n <= a.len(),
        n <= b.len(),
        forall|k: int| 0 <= k < n ==> #[trigger] a[k] == b[k],
    ensures
        sketch(shapes, a, height, n) == sketch(shapes, b, height, n),
    decreases n,
{
    if n > 0 {
        lemma_sketch_prefix(shapes, a, b, height, (n - 1) as nat);
        assert(a[n - 1] == b[n - 1]);
    }
}

proof fn lemma_window_cells(
    inked: Seq<(usize, usize)>,
    window: (int, int),
    n: nat,
    i: int,
    j: int,
)
    requires
        0 <= i < 8,
        0 <= j < window.1 <= 8,
        n <= 64,
    ensures
        window_cells(inked, window, n).contains((i as usize, j as usize)) <==> i * window.1 + j < n
            && inked.contains((i as usize, (window.1 - 1 - j) as usize)),
    decreases n,
{
    let h = window.1;
    assert(i * h >= 0) by (nonlinear_arith)
        requires
            i >= 0,
            h >= 1,
    ;
    if n > 0 {
        let m = (n - 1) as nat;
        lemma_window_cells(inked, window, m, i, j);
        let before = window_cells(inked, window, m);
        vstd::arithmetic::div_mod::lemma_fundamental_div_mod(m as int, h);
        let (a, b) = (m as int / h, m as int % h);
        assert(0 <= a <= m) by (nonlinear_arith)
            requires
                m == h * a + b,
                0 <= b < h,
                m >= 0,
        ;
        if i * h + j == m {
            assert(m == h * i + j) by (nonlinear_arith)
                requires
                    i * h + j == m,
            ;
            vstd::arithmetic::div_mod::lemma_fundamental_div_mod_converse(m as int, h, i, j);
            if inked.contains((i as usize, (h - 1 - j) as usize)) {
                assert(window_cells(inked, window, n).last() == (i as usize, j as usize));
            }
        } else {
            assert(!(a == i && b == j)) by (nonlinear_arith)
                requires
                    m == h * a + b,
                    i * h + j != m,
            ;
            if before.contains((i as usize, j as usize)) {
                let k = choose|k: int| 0 <= k < before.len() && before[k] == (i as usize, j as usize);
                assert(window_cells(inked, window, n)[k] == (i as usize, j as usize));
            }
        }
    }
}

/// A part's copies cover cell `(x, y)` of the run.
pub open spec fn part_covers(part: Part, x: int, y: int) -> bool {
    &&& part.offset.0 <= x < part.offset.0 + part.counts.0 * part.window.0
    &&& part.offset.1 <= y < part.offset.1 + part.counts.1 * part.window.1
}

/// The block of a part has a square where the copy over cell `(x, y)` of the
/// run has that cell: rows count from the bottom in the block.
pub open spec fn part_inked(run: RunView, part: Part, x: int, y: int) -> bool {
    let i = (x - part.offset.0) % part.window.0;
    let j = (y - part.offset.1) % part.window.1;
    window_cells(run.inked, part.window, (part.window.0 * part.window.1) as nat).contains(
        (i as usize, (part.window.1 - 1 - j) as usize),
    )
}

/// The arrays draw the run: every cell of it lies under a copy of exactly one
/// part, and that part's block has a square there exactly when the tile is
/// inked there.
pub proof fn law_arrays_draw_the_run(run: Run, x: int, y: int)
    requires
        run.ok(),
        0 <= x < cells_wide(run@),
        0 <= y < cells_high(run@),
    ensures
        exists|k: int|
            0 <= k < 4 && #[trigger] part_covers(part_of(run@, k), x, y) && (part_inked(
                run@,
                part_of(run@, k),
                x,
                y,
            ) <==> tile_inked(run@, x, y)) && forall|m: int|
                0 <= m < 4 && m != k ==> !(#[trigger] part_covers(part_of(run@, m), x, y)),
{
    lemma_cells(run);
    let (w, h) = (cells_wide(run@), cells_high(run@));
    let (px, py) = (run.period.x as int, run.period.y as int);
    lemma_tiles_in(w, px);
    lemma_tiles_in(h, py);
    let (nx, ny) = (w / px, h / py);
    let (rx, ry) = (w % px, h % py);
    let (tx, ty) = (nx * px, ny * py);
    let right = x >= tx;
    let low = y >= ty;
    let k: int = (if right {
        1int
    } else {
        0int
    }) + (if low {
        2int
    } else {
        0int
    });
    assert(px * nx == nx * px && py * ny == ny * py) by (nonlinear_arith);
    assert(x % px == (x - tx) % px) by {
        vstd::arithmetic::div_mod::lemma_mod_multiples_vanish(-nx, x, px);
        assert(px * (-nx) == -tx) by (nonlinear_arith)
            requires
                tx == nx * px,
        ;
    }
    assert(y % py == (y - ty) % py) by {
        vstd::arithmetic::div_mod::lemma_mod_multiples_vanish(-ny, y, py);
        assert(py * (-ny) == -ty) by (nonlinear_arith)
            requires
                ty == ny * py,
        ;
    }
    let part = part_of(run@, k);
    let (i, j) = ((x - part.offset.0) % part.window.0, (y - part.offset.1) % part.window.1);
    if right {
        vstd::arithmetic::div_mod::lemma_small_mod((x - tx) as nat, rx as nat);
        vstd::arithmetic::div_mod::lemma_small_mod((x - tx) as nat, px as nat);
    }
    if low {
        vstd::arithmetic::div_mod::lemma_small_mod((y - ty) as nat, ry as nat);
        vstd::arithmetic::div_mod::lemma_small_mod((y - ty) as nat, py as nat);
    }
    assert(i == x % px && j == y % py);
    vstd::arithmetic::div_mod::lemma_mod_bound(x, px);
    vstd::arithmetic::div_mod::lemma_mod_bound(y, py);
    let (w0, w1) = part.window;
    assert(0 <= i < w0 && 0 <= j < w1);
    let up = w1 - 1 - j;
    assert(i * w1 + up < w0 * w1 <= 64) by (nonlinear_arith)
        requires
            0 <= i < w0 <= 8,
            0 <= up < w1 <= 8,
    ;
    lemma_window_cells(run@.inked, part.window, (w0 * w1) as nat, i, up);
    assert forall|m: int| 0 <= m < 4 implies {
        let p = #[trigger] part_of(run@, m);
        &&& p.counts.0 * p.window.0 == (if m == 1 || m == 3 {
            rx
        } else {
            tx
        })
        &&& p.counts.1 * p.window.1 == (if m >= 2 {
            ry
        } else {
            ty
        })
    } by {
        assert(1 * rx == rx && 1 * ry == ry) by (nonlinear_arith);
    }
    assert(part_covers(part, x, y));
    assert forall|m: int| 0 <= m < 4 && m != k implies !(#[trigger] part_covers(
        part_of(run@, m),
        x,
        y,
    )) by {}
}

} // verus!
