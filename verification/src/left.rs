//! What is left of a path without its runs: all of its subpaths but the
//! squares that runs draw.
use crate::dither::{
    covered_by_run, kept, outlined, part_dropped, runs_in, square_of, tile_inked, Square,
};
use crate::geometry::Segment;
use crate::lattice::squares_ok;
use crate::pattern::{chunk, kept_text, parts_of, starts};
use crate::replaced::{
    in_run, law_a_run_draws_the_squares_under_it, law_a_square_taken_out_is_drawn_by_a_run,
    sits_on,
};
use vstd::prelude::*;

verus! {

/// Subpath `k` outlines a square that a run draws.
pub open spec fn drawn_by_a_run(parts: Seq<Seq<Segment>>, k: int) -> bool {
    square_of(parts[k]) matches Some(s) && exists|r: int, x: int, y: int|
        drawn_at(outlined(parts, parts.len()), s, r, x, y)
}

/// Run `r` of `squares` draws square `s` on its cell in column `x` and row `y`.
pub open spec fn drawn_at(squares: Seq<Square>, s: Square, r: int, x: int, y: int) -> bool {
    &&& 0 <= r < runs_in(squares).len()
    &&& in_run(runs_in(squares)[r], x, y)
    &&& sits_on(s, runs_in(squares)[r], x, y)
    &&& tile_inked(runs_in(squares)[r], x, y)
}

/// The subpaths of `list`, one behind the other.
pub open spec fn chained<A>(parts: Seq<Seq<A>>, list: Seq<int>) -> Seq<A>
    decreases list.len(),
{
    if list.len() == 0 {
        Seq::empty()
    } else {
        chained(parts, list.drop_last()) + parts[list.last()]
    }
}

/// The numbers of `list` rise, from 0 up to `n`.
pub open spec fn rising(list: Seq<int>, n: int) -> bool {
    &&& forall|i: int| 0 <= i < list.len() ==> 0 <= #[trigger] list[i] < n
    &&& forall|i: int, j: int| 0 <= i < j < list.len() ==> #[trigger] list[i] < #[trigger] list[j]
}

/// The subpaths among the first `n` that stay.
spec fn staying(parts: Seq<Seq<Segment>>, n: nat) -> Seq<int>
    decreases n,
{
    if n == 0 {
        Seq::empty()
    } else if part_dropped(parts, n - 1) {
        staying(parts, (n - 1) as nat)
    } else {
        staying(parts, (n - 1) as nat).push(n - 1)
    }
}

proof fn lemma_staying(parts: Seq<Seq<Segment>>, n: nat)
    ensures
        rising(staying(parts, n), n as int),
        forall|k: int|
            0 <= k < n ==> (#[trigger] staying(parts, n).contains(k) <==> !part_dropped(parts, k)),
        kept(parts, n) == chained(parts, staying(parts, n)),
    decreases n,
{
    let now = staying(parts, n);
    if n > 0 {
        let m = (n - 1) as nat;
        let before = staying(parts, m);
        lemma_staying(parts, m);
        assert forall|k: int| 0 <= k < n implies (#[trigger] now.contains(k) <==> !part_dropped(
            parts,
            k,
        )) by {
            if now.contains(k) {
                let i = choose|i: int| 0 <= i < now.len() && now[i] == k;
                if i < before.len() {
                    assert(before[i] == k);
                    assert(before.contains(k));
                }
            }
            if !part_dropped(parts, k) {
                if k < m {
                    assert(before.contains(k));
                    let i = choose|i: int| 0 <= i < before.len() && before[i] == k;
                    assert(now[i] == k);
                } else {
                    assert(now[before.len() as int] == k);
                }
            }
        }
        if !part_dropped(parts, n - 1) {
            assert(now.drop_last() =~= before);
        }
    }
}

/// The square of subpath `k` stands at its rank.
proof fn lemma_ranked(parts: Seq<Seq<Segment>>, n: nat, k: int)
    requires
        0 <= k < n <= parts.len(),
        square_of(parts[k]) is Some,
    ensures
        outlined(parts, k as nat).len() < outlined(parts, n).len(),
        outlined(parts, n)[outlined(parts, k as nat).len() as int] == square_of(parts[k])->0,
    decreases n,
{
    if k < n - 1 {
        lemma_ranked(parts, (n - 1) as nat, k);
    }
}

/// The subpath of a square by its rank.
proof fn lemma_from_rank(parts: Seq<Seq<Segment>>, n: nat, i: int) -> (k: int)
    requires
        n <= parts.len(),
        0 <= i < outlined(parts, n).len(),
    ensures
        0 <= k < n,
        square_of(parts[k]) == Some(outlined(parts, n)[i]),
        outlined(parts, k as nat).len() == i,
    decreases n,
{
    let before = outlined(parts, (n - 1) as nat);
    if i < before.len() {
        lemma_from_rank(parts, (n - 1) as nat, i)
    } else {
        n - 1
    }
}

proof fn lemma_dropped(parts: Seq<Seq<Segment>>, k: int)
    requires
        0 <= k < parts.len() <= usize::MAX,
        squares_ok(outlined(parts, parts.len())),
        outlined(parts, parts.len()).len() <= usize::MAX,
        part_dropped(parts, k),
    ensures
        drawn_by_a_run(parts, k),
{
    let squares = outlined(parts, parts.len());
    let i = outlined(parts, k as nat).len() as int;
    lemma_ranked(parts, parts.len(), k);
    let (r, x, y) = law_a_square_taken_out_is_drawn_by_a_run(squares, i);
    assert(drawn_at(squares, square_of(parts[k])->0, r, x, y));
}

/// On every inked cell of a run lies a square that does not stay.
proof fn lemma_cell_dropped(parts: Seq<Seq<Segment>>, r: int, x: int, y: int) -> (k: int)
    requires
        parts.len() <= usize::MAX,
        squares_ok(outlined(parts, parts.len())),
        outlined(parts, parts.len()).len() <= usize::MAX,
        0 <= r < runs_in(outlined(parts, parts.len())).len(),
        in_run(runs_in(outlined(parts, parts.len()))[r], x, y),
        tile_inked(runs_in(outlined(parts, parts.len()))[r], x, y),
    ensures
        0 <= k < parts.len(),
        part_dropped(parts, k),
        square_of(parts[k]) is Some,
        sits_on(square_of(parts[k])->0, runs_in(outlined(parts, parts.len()))[r], x, y),
{
    let squares = outlined(parts, parts.len());
    let run = runs_in(squares)[r];
    law_a_run_draws_the_squares_under_it(squares, r, x, y);
    let i = choose|i: int|
        0 <= i < squares.len() && sits_on(#[trigger] squares[i], run, x, y) && covered_by_run(
            squares,
            i,
        );
    lemma_from_rank(parts, parts.len(), i)
}

/// The cell of run `r` is blank, or one of the subpaths that are not in `list`
/// outlines a square on it.
pub open spec fn drawn_for(
    parts: Seq<Seq<Segment>>,
    list: Seq<int>,
    r: int,
    x: int,
    y: int,
) -> bool {
    let run = runs_in(outlined(parts, parts.len()))[r];
    in_run(run, x, y) && tile_inked(run, x, y) ==> exists|k: int|
        0 <= k < parts.len() && !list.contains(k) && (square_of(#[trigger] parts[k]) matches Some(s)
            && sits_on(s, run, x, y))
}

/// The subpaths that stay: the rest are drawn by runs, and every square that a
/// run draws is among the rest.
proof fn lemma_left(parts: Seq<Seq<Segment>>)
    requires
        parts.len() <= usize::MAX,
        squares_ok(outlined(parts, parts.len())),
    ensures
        kept(parts, parts.len()) == chained(parts, staying(parts, parts.len())),
        rising(staying(parts, parts.len()), parts.len() as int),
        forall|k: int|
            0 <= k < parts.len() && !(#[trigger] staying(parts, parts.len()).contains(k))
                ==> drawn_by_a_run(parts, k),
        forall|r: int, x: int, y: int|
            0 <= r < runs_in(outlined(parts, parts.len())).len() ==> #[trigger] drawn_for(
                parts,
                staying(parts, parts.len()),
                r,
                x,
                y,
            ),
{
    let list = staying(parts, parts.len());
    lemma_staying(parts, parts.len());
    lemma_outlined_few(parts, parts.len());
    assert forall|k: int| 0 <= k < parts.len() && !(#[trigger] list.contains(k)) implies
        drawn_by_a_run(parts, k) by {
        lemma_dropped(parts, k);
    }
    let squares = outlined(parts, parts.len());
    assert forall|r: int, x: int, y: int| 0 <= r < runs_in(squares).len() implies
        #[trigger] drawn_for(parts, list, r, x, y) by {
        let run = runs_in(squares)[r];
        if in_run(run, x, y) && tile_inked(run, x, y) {
            let k = lemma_cell_dropped(parts, r, x, y);
            assert(!list.contains(k));
            assert(square_of(parts[k]) is Some);
        }
    }
}

/// What is left of a path are its subpaths in their order, all but some whose
/// squares the runs draw; and for every square that a run draws, one of them is
/// gone.
pub proof fn law_what_no_run_draws_is_left(parts: Seq<Seq<Segment>>) -> (list: Seq<int>)
    requires
        parts.len() <= usize::MAX,
        squares_ok(outlined(parts, parts.len())),
    ensures
        kept(parts, parts.len()) == chained(parts, list),
        rising(list, parts.len() as int),
        forall|k: int|
            0 <= k < parts.len() && !(#[trigger] list.contains(k)) ==> drawn_by_a_run(parts, k),
        forall|r: int, x: int, y: int|
            0 <= r < runs_in(outlined(parts, parts.len())).len() ==> #[trigger] drawn_for(
                parts,
                list,
                r,
                x,
                y,
            ),
{
    lemma_left(parts);
    staying(parts, parts.len())
}

/// The texts of a path's subpaths.
pub open spec fn chunks_of(d: Seq<char>) -> Seq<Seq<char>> {
    Seq::new(parts_of(d).len(), |k: int| chunk(d, k))
}

/// The text up to its subpaths, then all of them: every one's text, one behind
/// the other, is the path's data.
pub proof fn law_a_paths_text_is_its_subpaths(d: Seq<char>)
    requires
        d.contains('M'),
    ensures
        ({
            let all = chunks_of(d);
            let first = starts(d, d.len())[0];
            &&& all.len() > 0
            &&& 0 <= first < d.len()
            &&& d.subrange(0, first) + all.flatten() == d
            &&& forall|i: int| 0 <= i < first ==> #[trigger] d[i] != 'M'
            &&& forall|k: int| 0 <= k < all.len() ==> one_subpath(#[trigger] all[k])
        }),
{
    let s = starts(d, d.len());
    lemma_starts(d, d.len());
    let i = choose|i: int| 0 <= i < d.len() && d[i] == 'M';
    assert(s.contains(i));
    let all = chunks_of(d);
    assert(all.len() == s.len());
    lemma_chunks(d, all.len());
    assert(all.take(all.len() as int) =~= all);
    let (head, tail) = (d.subrange(0, s[0]), d.subrange(s[0], d.len() as int));
    assert(head + tail =~= d);
    assert forall|i: int| 0 <= i < s[0] implies #[trigger] d[i] != 'M' by {
        if d[i] == 'M' {
            assert(s.contains(i));
            let m = choose|m: int| 0 <= m < s.len() && s[m] == i;
            assert(m == 0 || s[0] < s[m]);
        }
    }
    assert forall|k: int| 0 <= k < all.len() implies one_subpath(#[trigger] all[k]) by {
        let c = chunk(d, k);
        let to = if k + 1 < s.len() {
            s[k + 1]
        } else {
            d.len() as int
        };
        assert(s[k] < to);
        assert(c[0] == d[s[k]]);
        assert forall|i: int| 0 < i < c.len() implies #[trigger] c[i] != 'M' by {
            assert(c[i] == d[s[k] + i]);
            if d[s[k] + i] == 'M' {
                assert(s.contains(s[k] + i));
                let m = choose|m: int| 0 <= m < s.len() && s[m] == s[k] + i;
                assert(m > k) by {
                    if m < k {
                        assert(s[m] < s[k]);
                    }
                }
                assert(m == k + 1 || s[k + 1] < s[m]);
            }
        }
    }
}

/// The text starts a subpath and no other.
pub open spec fn one_subpath(text: Seq<char>) -> bool {
    &&& text.len() > 0
    &&& text[0] == 'M'
    &&& forall|i: int| 0 < i < text.len() ==> #[trigger] text[i] != 'M'
}

proof fn lemma_starts(d: Seq<char>, n: nat)
    requires
        n <= d.len(),
    ensures
        forall|k: int|
            0 <= k < starts(d, n).len() ==> 0 <= #[trigger] starts(d, n)[k] < n && d[starts(d, n)[k]]
                == 'M',
        forall|a: int, b: int|
            0 <= a < b < starts(d, n).len() ==> #[trigger] starts(d, n)[a] < #[trigger] starts(
                d,
                n,
            )[b],
        forall|i: int| 0 <= i < n && #[trigger] d[i] == 'M' ==> starts(d, n).contains(i),
    decreases n,
{
    if n > 0 {
        let m = (n - 1) as nat;
        lemma_starts(d, m);
        let (before, now) = (starts(d, m), starts(d, n));
        assert forall|i: int| 0 <= i < n && #[trigger] d[i] == 'M' implies now.contains(i) by {
            if i < m {
                assert(before.contains(i));
                let k = choose|k: int| 0 <= k < before.len() && before[k] == i;
                assert(now[k] == i);
            } else {
                assert(now[before.len() as int] == i);
            }
        }
    }
}

proof fn lemma_chunks(d: Seq<char>, n: nat)
    requires
        0 < n <= starts(d, d.len()).len(),
    ensures
        chunks_of(d).take(n as int).flatten() == d.subrange(
            starts(d, d.len())[0],
            if n < starts(d, d.len()).len() {
                starts(d, d.len())[n as int]
            } else {
                d.len() as int
            },
        ),
    decreases n,
{
    let s = starts(d, d.len());
    let all = chunks_of(d);
    lemma_starts(d, d.len());
    let to = if n < s.len() {
        s[n as int]
    } else {
        d.len() as int
    };
    let m = (n - 1) as nat;
    let part = all.take(n as int);
    assert(part.drop_last() =~= all.take(m as int));
    assert(part =~= all.take(m as int).push(chunk(d, m as int)));
    all.take(m as int).lemma_flatten_push(chunk(d, m as int));
    assert(chunk(d, m as int) == d.subrange(s[m as int], to));
    if m == 0 {
        assert(all.take(0).flatten() =~= Seq::<char>::empty()) by {
            assert(all.take(0) =~= Seq::<Seq<char>>::empty());
        }
        assert(Seq::<char>::empty() + d.subrange(s[0], to) =~= d.subrange(s[0], to));
    } else {
        lemma_chunks(d, m);
        assert(s[0] < s[m as int]);
        assert(s[m as int] < to);
        assert(d.subrange(s[0], s[m as int]) + d.subrange(s[m as int], to) =~= d.subrange(s[0], to));
    }
}

proof fn lemma_kept_text(d: Seq<char>, n: nat)
    requires
        n <= parts_of(d).len(),
    ensures
        kept_text(d, n) == chained(chunks_of(d), staying(parts_of(d), n)),
    decreases n,
{
    if n > 0 {
        let m = (n - 1) as nat;
        lemma_kept_text(d, m);
        let now = staying(parts_of(d), n);
        if !part_dropped(parts_of(d), n - 1) {
            assert(now.drop_last() =~= staying(parts_of(d), m));
            assert(chunks_of(d)[n - 1] == chunk(d, n - 1));
        }
    }
}

/// What is left of a path's text are the texts of its subpaths in their order,
/// each as it was, all but some whose squares the runs draw; and for every
/// square that a run draws, one of them is gone.
pub proof fn law_what_no_run_draws_is_left_written(d: Seq<char>) -> (list: Seq<int>)
    requires
        d.len() <= usize::MAX,
        squares_ok(outlined(parts_of(d), parts_of(d).len())),
    ensures
        kept_text(d, parts_of(d).len()) == chained(chunks_of(d), list),
        rising(list, parts_of(d).len() as int),
        forall|k: int|
            0 <= k < parts_of(d).len() && !(#[trigger] list.contains(k)) ==> drawn_by_a_run(
                parts_of(d),
                k,
            ),
        forall|r: int, x: int, y: int|
            0 <= r < runs_in(outlined(parts_of(d), parts_of(d).len())).len()
                ==> #[trigger] drawn_for(parts_of(d), list, r, x, y),
{
    let parts = parts_of(d);
    lemma_starts_few(d, d.len());
    assert(parts.len() == starts(d, d.len()).len());
    lemma_kept_text(d, parts.len());
    lemma_left(parts);
    staying(parts, parts.len())
}

proof fn lemma_starts_few(d: Seq<char>, n: nat)
    ensures
        starts(d, n).len() <= n,
    decreases n,
{
    if n > 0 {
        lemma_starts_few(d, (n - 1) as nat);
    }
}

proof fn lemma_outlined_few(parts: Seq<Seq<Segment>>, n: nat)
    ensures
        outlined(parts, n).len() <= n,
    decreases n,
{
    if n > 0 {
        lemma_outlined_few(parts, (n - 1) as nat);
    }
}

} // verus!
