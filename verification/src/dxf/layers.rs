//! Which layers a page has, and which of them each of its items is on.
use crate::dither::RunView;
use crate::dxf::drawing::{
    colour_place, placed_part, placed_run, placed_runs, shape_colour, sketch, with_shape, ItemView,
    Placed,
};
use crate::dxf::lines::item_layer;
use crate::dxf::outline::{outlines_of, trace, OutlineView, Setting};
use crate::geometry::{Segment, Shape};
use vstd::prelude::*;

verus! {

/// `after` is `before` with more items behind it, all of them on `layer`.
spec fn more_on(before: Seq<ItemView>, after: Seq<ItemView>, layer: int) -> bool {
    &&& before.len() <= after.len()
    &&& forall|k: int| 0 <= k < before.len() ==> #[trigger] after[k] == before[k]
    &&& forall|k: int|
        before.len() <= k < after.len() ==> item_layer(#[trigger] after[k]) == layer
}

proof fn lemma_part_on(placed: Placed, run: RunView, layer: int, height: int, k: int)
    requires
        0 <= layer <= usize::MAX,
    ensures
        more_on(placed.items, placed_part(placed, run, layer, height, k).items, layer),
{
}

proof fn lemma_run_on(placed: Placed, run: RunView, layer: int, height: int)
    requires
        0 <= layer <= usize::MAX,
    ensures
        more_on(placed.items, placed_run(placed, run, layer, height).items, layer),
{
    let a = placed_part(placed, run, layer, height, 0);
    let b = placed_part(a, run, layer, height, 1);
    let c = placed_part(b, run, layer, height, 2);
    lemma_part_on(placed, run, layer, height, 0);
    lemma_part_on(a, run, layer, height, 1);
    lemma_part_on(b, run, layer, height, 2);
    lemma_part_on(c, run, layer, height, 3);
}

proof fn lemma_runs_on(placed: Placed, runs: Seq<RunView>, layer: int, height: int, n: nat)
    requires
        0 <= layer <= usize::MAX,
    ensures
        more_on(placed.items, placed_runs(placed, runs, layer, height, n).items, layer),
    decreases n,
{
    if n > 0 {
        let before = placed_runs(placed, runs, layer, height, (n - 1) as nat);
        lemma_runs_on(placed, runs, layer, height, (n - 1) as nat);
        lemma_run_on(before, runs[n - 1], layer, height);
    }
}

spec fn all_on(list: Seq<OutlineView>, layer: int) -> bool {
    forall|k: int| 0 <= k < list.len() ==> (#[trigger] list[k]).layer == layer
}

proof fn lemma_trace_on(setting: Setting, segments: Seq<Segment>, n: nat)
    ensures
        all_on(trace(setting, segments, n).done, setting.layer as int),
        trace(setting, segments, n).current matches Some(o) ==> o.layer == setting.layer,
    decreases n,
{
    if n > 0 {
        lemma_trace_on(setting, segments, (n - 1) as nat);
    }
}

proof fn lemma_shape_on(
    drawn: crate::dxf::drawing::Sketch,
    shape: Shape,
    found: Option<(Seq<Segment>, Seq<RunView>)>,
    height: int,
)
    requires
        drawn.colours.len() < usize::MAX,
    ensures
        shape_colour(shape) is None ==> with_shape(drawn, shape, found, height) == drawn,
        shape_colour(shape) matches Some(c) ==> more_on(
            drawn.placed.items,
            with_shape(drawn, shape, found, height).placed.items,
            colour_place(drawn.colours, c),
        ),
{
    if let Some(c) = shape_colour(shape) {
        let layer = colour_place(drawn.colours, c);
        if drawn.colours.contains(c) {
            drawn.colours.index_of_first_ensures(c);
        }
        let setting = Setting {
            layer: layer as usize,
            filled: shape.fill is Some,
            height: height as i64,
        };
        let segments = match found {
            Some((rest, _)) => rest,
            None => shape.segments@,
        };
        let runs = match found {
            Some((_, runs)) => runs,
            None => Seq::empty(),
        };
        let added = outlines_of(setting, segments).map_values(|o: OutlineView| ItemView::Outline(o));
        lemma_trace_on(setting, segments, segments.len());
        let middle = Placed {
            tiles: drawn.placed.tiles,
            items: drawn.placed.items + added,
        };
        assert(more_on(drawn.placed.items, middle.items, layer)) by {
            assert forall|k: int| drawn.placed.items.len() <= k < middle.items.len() implies
                item_layer(#[trigger] middle.items[k]) == layer by {
                assert(middle.items[k] == added[k - drawn.placed.items.len()]);
            }
        }
        lemma_runs_on(middle, runs, layer, height, runs.len());
    }
}

/// A page's colours come in the order of their first use, each once: the first
/// `s` shapes' colours, whatever shapes follow, come first, and there are no
/// others than the shapes' own.
pub proof fn law_colours_come_in_order_of_first_use(
    shapes: Seq<Shape>,
    found: Seq<Option<(Seq<Segment>, Seq<RunView>)>>,
    height: int,
    s: nat,
    n: nat,
)
    requires
        s <= n <= shapes.len(),
    ensures
        sketch(shapes, found, height, s).colours.is_prefix_of(
            sketch(shapes, found, height, n).colours,
        ),
        sketch(shapes, found, height, n).colours.no_duplicates(),
        sketch(shapes, found, height, n).colours.len() <= n,
        forall|c: (int, int, int)|
            #![trigger sketch(shapes, found, height, n).colours.contains(c)]
            sketch(shapes, found, height, n).colours.contains(c) <==> exists|k: int|
                0 <= k < n && shape_colour(#[trigger] shapes[k]) == Some(c),
    decreases n,
{
    let now = sketch(shapes, found, height, n).colours;
    if n > 0 {
        let m = (n - 1) as nat;
        law_colours_come_in_order_of_first_use(
            shapes,
            found,
            height,
            if s < n {
                s
            } else {
                m
            },
            m,
        );
        let before = sketch(shapes, found, height, m).colours;
        let last = shape_colour(shapes[n - 1]);
        assert(before.is_prefix_of(now));
        assert forall|c: (int, int, int)| #[trigger] now.contains(c) <==> exists|k: int|
            0 <= k < n && shape_colour(#[trigger] shapes[k]) == Some(c) by {
            if now.contains(c) {
                if before.contains(c) {
                    let k = choose|k: int|
                        0 <= k < m && shape_colour(#[trigger] shapes[k]) == Some(c);
                    assert(shape_colour(shapes[k]) == Some(c));
                } else {
                    let j = choose|j: int| 0 <= j < now.len() && now[j] == c;
                    assert(j >= before.len() || before[j] == c);
                    assert(shape_colour(shapes[n - 1]) == Some(c));
                }
            }
            if exists|k: int| 0 <= k < n && shape_colour(#[trigger] shapes[k]) == Some(c) {
                let k = choose|k: int|
                    0 <= k < n && shape_colour(#[trigger] shapes[k]) == Some(c);
                if k < m {
                    assert(before.contains(c));
                    let j = choose|j: int| 0 <= j < before.len() && before[j] == c;
                    assert(now[j] == c);
                } else if before.contains(c) {
                    let j = choose|j: int| 0 <= j < before.len() && before[j] == c;
                    assert(now[j] == c);
                } else {
                    assert(now == before.push(c));
                    assert(now[before.len() as int] == c);
                }
            }
        }
        if let Some(c) = last {
            if !before.contains(c) {
                assert forall|i: int, j: int|
                    0 <= i < now.len() && 0 <= j < now.len() && i != j implies now[i]
                    != now[j] by {
                    if i < before.len() && j < before.len() {
                        assert(before[i] != before[j]);
                    } else if i < before.len() {
                        assert(before[i] != c);
                    } else if j < before.len() {
                        assert(before[j] != c);
                    }
                }
            }
        }
    }
}

/// Every item is on the layer of its shape's colour, its fill or the stroke of
/// a shape without one: an item that shape `s` brought stays on that colour's
/// layer in the whole drawing.
pub proof fn law_every_item_is_on_its_shapes_layer(
    shapes: Seq<Shape>,
    found: Seq<Option<(Seq<Segment>, Seq<RunView>)>>,
    height: int,
    s: nat,
    n: nat,
    k: int,
)
    requires
        s < n <= shapes.len(),
        shapes.len() <= usize::MAX,
        sketch(shapes, found, height, s).placed.items.len() <= k < sketch(
            shapes,
            found,
            height,
            s + 1,
        ).placed.items.len(),
    ensures
        ({
            let all = sketch(shapes, found, height, n);
            let layer = item_layer(all.placed.items[k]);
            &&& k < all.placed.items.len()
            &&& 0 <= layer < all.colours.len()
            &&& shape_colour(shapes[s as int]) == Some(all.colours[layer])
        }),
    decreases n,
{
    let m = (n - 1) as nat;
    let before = sketch(shapes, found, height, m);
    let all = sketch(shapes, found, height, n);
    law_colours_come_in_order_of_first_use(shapes, found, height, m, n);
    law_colours_come_in_order_of_first_use(shapes, found, height, m, m);
    lemma_shape_on(before, shapes[n - 1], found[n - 1], height);
    if s < m {
        law_every_item_is_on_its_shapes_layer(shapes, found, height, s, m, k);
        let layer = item_layer(before.placed.items[k]);
        assert(all.placed.items[k] == before.placed.items[k]);
        assert(all.colours[layer] == before.colours[layer]);
    } else {
        let c = shape_colour(shapes[s as int])->0;
        let layer = colour_place(before.colours, c);
        if before.colours.contains(c) {
            before.colours.index_of_first_ensures(c);
            assert(before.colours[layer] == c);
        }
        assert(all.colours[layer] == c);
    }
}

} // verus!
