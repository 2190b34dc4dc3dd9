//! The flood that fills dropped pixels reaches every one from the nearest
//! seed.
use crate::recolor::{
    beside, flood, flood_ok, flooded, lemma_filled, lemma_flood_ok, lemma_neighbour,
    neighbour, spread, Fill, Flood,
};
use vstd::prelude::*;

verus! {

/// A seed lies within `k` steps of pixel `i`, every step into a dropped
/// pixel.
pub open spec fn within(
    seeds: Seq<Fill>,
    dropped: Seq<bool>,
    w: int,
    h: int,
    i: int,
    k: nat,
) -> bool
    decreases k,
{
    if k == 0 {
        seeds[i] is Some
    } else {
        within(seeds, dropped, w, h, i, (k - 1) as nat) || (dropped[i] && exists|m: int|
            0 <= m < seeds.len() && within(seeds, dropped, w, h, m, (k - 1) as nat)
                && #[trigger] beside(w, h, m, i))
    }
}

/// Pixel `i` has `t` from a seed exactly `k` steps away.
pub open spec fn carries(
    seeds: Seq<Fill>,
    dropped: Seq<bool>,
    w: int,
    h: int,
    i: int,
    k: nat,
    t: Fill,
) -> bool
    decreases k,
{
    if k == 0 {
        t is Some && seeds[i] == t
    } else {
        dropped[i] && exists|m: int|
            0 <= m < seeds.len() && carries(
                seeds,
                dropped,
                w,
                h,
                m,
                (k - 1) as nat,
                t,
            ) && #[trigger] beside(w, h, m, i)
    }
}

/// Pixel `i` has `t` from a seed `k` steps away, and no seed is nearer.
pub open spec fn nearest(
    seeds: Seq<Fill>,
    dropped: Seq<bool>,
    w: int,
    h: int,
    i: int,
    k: nat,
    t: Fill,
) -> bool {
    &&& carries(seeds, dropped, w, h, i, k, t)
    &&& k > 0 ==> !within(seeds, dropped, w, h, i, (k - 1) as nat)
}

proof fn lemma_within_grows(
    seeds: Seq<Fill>,
    dropped: Seq<bool>,
    w: int,
    h: int,
    i: int,
    a: nat,
    b: nat,
)
    requires
        a <= b,
        within(seeds, dropped, w, h, i, a),
    ensures
        within(seeds, dropped, w, h, i, b),
    decreases b,
{
    if a < b {
        lemma_within_grows(seeds, dropped, w, h, i, a, (b - 1) as nat);
    }
}

/// Every pixel beside `i` that was dropped is filled.
spec fn settled(f: Flood, dropped: Seq<bool>, w: int, h: int, i: int, k: nat) -> bool {
    forall|j: int|
        0 <= j < k ==> (#[trigger] neighbour(w, h, i, j) matches Some(n) ==> (dropped[n]
            ==> f.fill[n] is Some))
}

/// The queue's pixels were filled from their nearest seeds, in the order of
/// their distances.
spec fn sound(
    f: Flood,
    level: Seq<nat>,
    seeds: Seq<Fill>,
    dropped: Seq<bool>,
    w: int,
    h: int,
) -> bool {
    &&& flood_ok(f, dropped.len())
    &&& level.len() == f.queue.len()
    &&& forall|a: int|
        0 <= a < f.queue.len() ==> nearest(
            seeds,
            dropped,
            w,
            h,
            #[trigger] f.queue[a],
            level[a],
            f.fill[f.queue[a]],
        )
    &&& forall|a: int, b: int|
        0 <= a <= b < level.len() ==> #[trigger] level[a] <= #[trigger] level[b]
    &&& forall|i: int|
        0 <= i < f.fill.len() && (#[trigger] f.fill[i]) is Some ==> f.queue.contains(i)
    &&& forall|i: int|
        0 <= i < f.fill.len() && seeds[i] is Some ==> (#[trigger] f.fill[i]) is Some
}

/// The flood after its first `head` pixels spread.
spec fn front(
    f: Flood,
    level: Seq<nat>,
    head: int,
    seeds: Seq<Fill>,
    dropped: Seq<bool>,
    w: int,
    h: int,
) -> bool {
    &&& sound(f, level, seeds, dropped, w, h)
    &&& 0 <= head <= f.queue.len()
    &&& forall|a: int|
        0 <= a < head ==> settled(f, dropped, w, h, #[trigger] f.queue[a], 4)
    &&& head < level.len() ==> forall|b: int|
        0 <= b < level.len() ==> #[trigger] level[b] <= level[head] + 1
    &&& head < level.len() ==> forall|i: int|
        0 <= i < f.fill.len() && within(seeds, dropped, w, h, i, level[head]) ==> (
        #[trigger] f.fill[i]) is Some
}

/// One neighbour after the other is filled, one step further than `i`.
proof fn lemma_spread(
    f: Flood,
    level: Seq<nat>,
    head: int,
    seeds: Seq<Fill>,
    dropped: Seq<bool>,
    w: int,
    h: int,
    k: nat,
) -> (now: Seq<nat>)
    requires
        w > 0,
        h > 0,
        seeds.len() == dropped.len() == w * h,
        front(f, level, head, seeds, dropped, w, h),
        head < f.queue.len(),
        k <= 4,
    ensures
        sound(spread(f, dropped, w, h, f.queue[head], k), now, seeds, dropped, w, h),
        settled(
            spread(f, dropped, w, h, f.queue[head], k),
            dropped,
            w,
            h,
            f.queue[head],
            k,
        ),
        f.queue.len() <= spread(f, dropped, w, h, f.queue[head], k).queue.len(),
        forall|a: int|
            0 <= a < f.queue.len() ==> #[trigger] now[a] == level[a] && spread(
                f,
                dropped,
                w,
                h,
                f.queue[head],
                k,
            ).queue[a] == f.queue[a],
        forall|b: int| 0 <= b < now.len() ==> #[trigger] now[b] <= level[head] + 1,
        forall|i: int|
            0 <= i < f.fill.len() && f.fill[i] is Some ==> (#[trigger] spread(
                f,
                dropped,
                w,
                h,
                f.queue[head],
                k,
            ).fill[i]) == f.fill[i],
    decreases k,
{
    let i = f.queue[head];
    if k == 0 {
        level
    } else {
        let before = lemma_spread(f, level, head, seeds, dropped, w, h, (k - 1) as nat);
        let g = spread(f, dropped, w, h, i, (k - 1) as nat);
        let now_f = spread(f, dropped, w, h, i, k);
        lemma_neighbour(w, h, i, k - 1);
        match neighbour(w, h, i, k - 1) {
            Some(n) => {
                if dropped[n] && g.fill[n] is None {
                    let far = level[head] + 1;
                    let now = before.push(far);
                    assert(f.fill[n] is None) by {
                        if f.fill[n] is Some {
                            assert(g.fill[n] == f.fill[n]);
                        }
                    }
                    assert(g.fill[i] == f.fill[i]);
                    assert(nearest(seeds, dropped, w, h, n, far, f.fill[i])) by {
                        assert(nearest(seeds, dropped, w, h, f.queue[head], level[head], f.fill[i]));
                        assert(beside(w, h, i, n)) by {
                            assert(neighbour(w, h, i, k - 1) == Some(n));
                        }
                        assert(carries(seeds, dropped, w, h, i, (far - 1) as nat, f.fill[i]));
                    }
                    assert forall|a: int| 0 <= a < now_f.queue.len() implies nearest(
                        seeds,
                        dropped,
                        w,
                        h,
                        #[trigger] now_f.queue[a],
                        now[a],
                        now_f.fill[now_f.queue[a]],
                    ) by {
                        if a < g.queue.len() {
                            assert(now_f.queue[a] == g.queue[a]);
                            assert(g.fill[g.queue[a]] is Some);
                        }
                    }
                    assert forall|j: int| 0 <= j < now_f.fill.len() && (
                    #[trigger] now_f.fill[j]) is Some implies now_f.queue.contains(j) by {
                        if j == n {
                            assert(now_f.queue[now_f.queue.len() - 1] == n);
                        } else {
                            assert(g.fill[j] is Some);
                            assert(g.queue.contains(j));
                            let a = choose|a: int| 0 <= a < g.queue.len() && g.queue[a] == j;
                            assert(now_f.queue[a] == j);
                        }
                    }
                    assert(flood_ok(now_f, dropped.len())) by {
                        assert forall|a: int| 0 <= a < now_f.queue.len() implies 0
                            <= #[trigger] now_f.queue[a] < dropped.len()
                            && now_f.fill[now_f.queue[a]] is Some by {
                            if a < g.queue.len() {
                                assert(now_f.queue[a] == g.queue[a]);
                            }
                        }
                    }
                    assert(settled(now_f, dropped, w, h, i, k)) by {
                        assert forall|j: int| 0 <= j < k implies (
                        #[trigger] neighbour(w, h, i, j) matches Some(m) ==> (dropped[m]
                            ==> now_f.fill[m] is Some)) by {
                            lemma_neighbour(w, h, i, j);
                        }
                    }
                    assert forall|j: int| 0 <= j < f.fill.len() && f.fill[j] is Some implies (
                    #[trigger] now_f.fill[j]) == f.fill[j] by {
                        assert(g.fill[j] == f.fill[j]);
                    }
                    now
                } else {
                    assert(settled(now_f, dropped, w, h, i, k)) by {
                        assert forall|j: int| 0 <= j < k implies (
                        #[trigger] neighbour(w, h, i, j) matches Some(m) ==> (dropped[m]
                            ==> now_f.fill[m] is Some)) by {}
                    }
                    before
                }
            },
            None => {
                assert(settled(now_f, dropped, w, h, i, k)) by {
                    assert forall|j: int| 0 <= j < k implies (
                    #[trigger] neighbour(w, h, i, j) matches Some(m) ==> (dropped[m]
                        ==> now_f.fill[m] is Some)) by {}
                }
                before
            },
        }
    }
}

spec fn head_of(f: Flood, n: nat) -> int {
    if n <= f.queue.len() {
        n as int
    } else {
        f.queue.len() as int
    }
}

/// The front holds after every number of steps.
proof fn lemma_front(
    seeds: Seq<Fill>,
    dropped: Seq<bool>,
    w: int,
    h: int,
    n: nat,
) -> (level: Seq<nat>)
    requires
        w > 0,
        h > 0,
        seeds.len() == dropped.len() == w * h,
    ensures
        front(
            flood(seeds, dropped, w, h, n),
            level,
            head_of(flood(seeds, dropped, w, h, n), n),
            seeds,
            dropped,
            w,
            h,
        ),
    decreases n,
{
    let f = flood(seeds, dropped, w, h, n);
    lemma_flood_ok(seeds, dropped, w, h, n);
    if n == 0 {
        lemma_filled(seeds, seeds.len());
        let level = Seq::new(f.queue.len(), |a: int| 0nat);
        assert forall|a: int| 0 <= a < f.queue.len() implies nearest(
            seeds,
            dropped,
            w,
            h,
            #[trigger] f.queue[a],
            level[a],
            f.fill[f.queue[a]],
        ) by {
            assert(f.fill[f.queue[a]] is Some);
        }
        level
    } else {
        let before = lemma_front(seeds, dropped, w, h, (n - 1) as nat);
        let g = flood(seeds, dropped, w, h, (n - 1) as nat);
        if n - 1 < g.queue.len() {
            let head = n - 1;
            let level = lemma_spread(g, before, head, seeds, dropped, w, h, 4);
            let i = g.queue[head];
            assert forall|a: int| 0 <= a < n implies settled(
                f,
                dropped,
                w,
                h,
                #[trigger] f.queue[a],
                4,
            ) by {
                assert(f.queue[a] == g.queue[a]) by {
                    assert(level[a] == before[a]);
                }
                if a < head {
                    assert(settled(g, dropped, w, h, g.queue[a], 4));
                    assert forall|j: int| 0 <= j < 4 implies (
                    #[trigger] neighbour(w, h, f.queue[a], j) matches Some(m) ==> (dropped[m]
                        ==> f.fill[m] is Some)) by {
                        lemma_neighbour(w, h, g.queue[a], j);
                        if let Some(m) = neighbour(w, h, f.queue[a], j) {
                            if dropped[m] {
                                assert(g.fill[m] is Some);
                                assert(f.fill[m] == g.fill[m]);
                            }
                        }
                    }
                }
            }
            if n < level.len() {
                assert(level[head] == before[head]);
                assert(level[head] <= level[n as int]);
                assert forall|b: int| 0 <= b < level.len() implies #[trigger] level[b]
                    <= level[n as int] + 1 by {
                    assert(level[b] <= before[head] + 1);
                }
                assert forall|x: int| 0 <= x < f.fill.len() && within(
                    seeds,
                    dropped,
                    w,
                    h,
                    x,
                    level[n as int],
                ) implies (#[trigger] f.fill[x]) is Some by {
                    lemma_reached(f, g, level, before, seeds, dropped, w, h, n as int, x);
                }
            }
            level
        } else {
            before
        }
    }
}

/// A pixel within the distance of the queue's next one is filled.
proof fn lemma_reached(
    f: Flood,
    g: Flood,
    level: Seq<nat>,
    before: Seq<nat>,
    seeds: Seq<Fill>,
    dropped: Seq<bool>,
    w: int,
    h: int,
    n: int,
    x: int,
)
    requires
        w > 0,
        h > 0,
        seeds.len() == dropped.len() == w * h,
        front(g, before, n - 1, seeds, dropped, w, h),
        0 < n < level.len(),
        n - 1 < g.queue.len(),
        sound(f, level, seeds, dropped, w, h),
        level[n - 1] == before[n - 1],
        level[n] <= before[n - 1] + 1,
        forall|a: int| 0 <= a < n ==> settled(f, dropped, w, h, #[trigger] f.queue[a], 4),
        forall|a: int|
            0 <= a < g.queue.len() ==> #[trigger] level[a] == before[a] && f.queue[a] == g.queue[a],
        forall|i: int|
            0 <= i < g.fill.len() && g.fill[i] is Some ==> (#[trigger] f.fill[i]) == g.fill[i],
        0 <= x < f.fill.len(),
        within(seeds, dropped, w, h, x, level[n]),
    ensures
        f.fill[x] is Some,
{
    let near = before[n - 1];
    assert(level[n - 1] <= level[n]);
    if within(seeds, dropped, w, h, x, near) {
        assert(g.fill[x] is Some);
        assert(f.fill[x] == g.fill[x]);
    } else {
        assert(level[n] == near + 1);
        let m = choose|m: int|
            0 <= m < seeds.len() && within(seeds, dropped, w, h, m, near) && #[trigger] beside(
                w,
                h,
                m,
                x,
            );
        assert(g.fill[m] is Some);
        assert(f.fill[m] == g.fill[m]);
        assert(f.queue.contains(m));
        let a = choose|a: int| 0 <= a < f.queue.len() && f.queue[a] == m;
        assert(nearest(seeds, dropped, w, h, f.queue[a], level[a], f.fill[m]));
        assert(level[a] <= near) by {
            if level[a] > near {
                lemma_within_grows(seeds, dropped, w, h, m, near, (level[a] - 1) as nat);
            }
        }
        assert(a < n) by {
            if a >= n {
                assert(level[n] <= level[a]);
            }
        }
        assert(settled(f, dropped, w, h, f.queue[a], 4));
        let k = choose|k: int| 0 <= k < 4 && #[trigger] neighbour(w, h, m, k) == Some(x);
        assert(neighbour(w, h, m, k) == Some(x));
        assert(dropped[x]);
    }
}

/// What the flood fills, and with what: a dropped pixel is filled exactly
/// when a seed can be reached from it through dropped pixels, and then with
/// what a nearest seed holds.
pub proof fn law_nearest_seed_fills(seeds: Seq<Fill>, dropped: Seq<bool>, w: int, h: int, i: int)
    requires
        w > 0,
        h > 0,
        seeds.len() == dropped.len() == w * h,
        0 <= i < w * h,
    ensures
        flooded(seeds, dropped, w, h)[i] is Some <==> exists|k: nat|
            within(seeds, dropped, w, h, i, k),
        flooded(seeds, dropped, w, h)[i] is Some ==> exists|k: nat|
            nearest(seeds, dropped, w, h, i, k, flooded(seeds, dropped, w, h)[i]),
{
    let n = seeds.len();
    let level = lemma_front(seeds, dropped, w, h, n);
    lemma_flood_ok(seeds, dropped, w, h, n);
    let f = flood(seeds, dropped, w, h, n);
    assert(head_of(f, n) == f.queue.len());
    if f.fill[i] is Some {
        assert(f.queue.contains(i));
        let a = choose|a: int| 0 <= a < f.queue.len() && f.queue[a] == i;
        assert(nearest(seeds, dropped, w, h, f.queue[a], level[a], f.fill[i]));
        lemma_carries_within(seeds, dropped, w, h, i, level[a], f.fill[i]);
    }
    if exists|k: nat| within(seeds, dropped, w, h, i, k) {
        let k = choose|k: nat| within(seeds, dropped, w, h, i, k);
        lemma_all_reached(f, level, seeds, dropped, w, h, i, k);
    }
}

proof fn lemma_carries_within(
    seeds: Seq<Fill>,
    dropped: Seq<bool>,
    w: int,
    h: int,
    i: int,
    k: nat,
    t: Fill,
)
    requires
        carries(seeds, dropped, w, h, i, k, t),
    ensures
        within(seeds, dropped, w, h, i, k),
    decreases k,
{
    if k > 0 {
        let m = choose|m: int|
            0 <= m < seeds.len() && carries(
                seeds,
                dropped,
                w,
                h,
                m,
                (k - 1) as nat,
                t,
            ) && #[trigger] beside(w, h, m, i);
        lemma_carries_within(seeds, dropped, w, h, m, (k - 1) as nat, t);
    }
}

proof fn lemma_all_reached(
    f: Flood,
    level: Seq<nat>,
    seeds: Seq<Fill>,
    dropped: Seq<bool>,
    w: int,
    h: int,
    i: int,
    k: nat,
)
    requires
        front(f, level, f.queue.len() as int, seeds, dropped, w, h),
        seeds.len() == dropped.len(),
        0 <= i < seeds.len(),
        within(seeds, dropped, w, h, i, k),
    ensures
        f.fill[i] is Some,
    decreases k,
{
    if k > 0 {
        if within(seeds, dropped, w, h, i, (k - 1) as nat) {
            lemma_all_reached(f, level, seeds, dropped, w, h, i, (k - 1) as nat);
        } else {
            let m = choose|m: int|
                0 <= m < seeds.len() && within(
                    seeds,
                    dropped,
                    w,
                    h,
                    m,
                    (k - 1) as nat,
                ) && #[trigger] beside(w, h, m, i);
            lemma_all_reached(f, level, seeds, dropped, w, h, m, (k - 1) as nat);
            assert(f.queue.contains(m));
            let a = choose|a: int| 0 <= a < f.queue.len() && f.queue[a] == m;
            assert(settled(f, dropped, w, h, f.queue[a], 4));
            let j = choose|j: int| 0 <= j < 4 && #[trigger] neighbour(w, h, m, j) == Some(i);
            assert(neighbour(w, h, m, j) == Some(i));
        }
    }
}

} // verus!
