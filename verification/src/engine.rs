use vstd::multiset::Multiset;
use vstd::prelude::*;

use crate::image::in_grid;
use crate::image::is_neighbor;
use crate::image::lemma_neighbors_seq_correct;
use crate::image::lemma_row_major_index;
use crate::image::lemma_row_major_injective;
use crate::image::neighbors_seq;
use crate::image::Image;
use crate::image::Rgb;
use crate::spec_color_dist;

verus! {

/// The fill engine's state during a generation run, as specifications see
/// it: the canvas cells, the visited mask, the frontier (as an ordered,
/// duplicate-free sequence of coordinates) and the palette colors still to
/// be placed (consumed from the back, like a stack).
pub ghost struct GenState {
    pub canvas: Seq<Rgb>,
    pub seen: Seq<bool>,
    pub frontier: Seq<(usize, usize)>,
    pub colors: Seq<Rgb>,
}

/// How many cells of a visited mask are set.
pub open spec fn count_true(s: Seq<bool>) -> int
    decreases s.len(),
{
    if s.len() == 0 {
        0
    } else {
        count_true(s.drop_last()) + if s.last() {
            1int
        } else {
            0int
        }
    }
}

/// `true` iff the cell `(x, y)` has at least one visited 8-connected
/// neighbor inside the grid.
pub open spec fn has_visited_neighbor(seen: Seq<bool>, w: int, h: int, x: int, y: int) -> bool {
    exists|a: int, b: int|
        in_grid(w, h, a, b) && is_neighbor(x, y, a, b) && seen[b * w + a]
}

/// Extends a frontier with every candidate of `nbrs`, in order, that is
/// unvisited and not already present. Duplicates are no-ops: the frontier
/// behaves as a set.
pub open spec fn add_new(
    f: Seq<(usize, usize)>,
    seen: Seq<bool>,
    w: int,
    nbrs: Seq<(usize, usize)>,
) -> Seq<(usize, usize)>
    decreases nbrs.len(),
{
    if nbrs.len() == 0 {
        f
    } else {
        let q = nbrs.first();
        let f2 = if !seen[q.1 * w + q.0] && !f.contains(q) {
            f.push(q)
        } else {
            f
        };
        add_new(f2, seen, w, nbrs.drop_first())
    }
}

/// The sequence with the first occurrence of `p` removed, or the sequence
/// unchanged if `p` does not occur.
pub open spec fn remove_coord(f: Seq<(usize, usize)>, p: (usize, usize)) -> Seq<(usize, usize)>
    decreases f.len(),
{
    if f.len() == 0 {
        f
    } else if f.first() == p {
        f.drop_first()
    } else {
        seq![f.first()] + remove_coord(f.drop_first(), p)
    }
}

/// How many of the cells of `nbrs` are visited.
pub open spec fn visited_among(seen: Seq<bool>, w: int, nbrs: Seq<(usize, usize)>) -> int
    decreases nbrs.len(),
{
    if nbrs.len() == 0 {
        0
    } else {
        (if seen[nbrs.first().1 * w + nbrs.first().0] {
            1int
        } else {
            0int
        }) + visited_among(seen, w, nbrs.drop_first())
    }
}

/// The sum, over the visited cells of `nbrs`, of the squared color distance
/// between `c` and the color placed there.
pub open spec fn dist_among(
    canvas: Seq<Rgb>,
    seen: Seq<bool>,
    w: int,
    nbrs: Seq<(usize, usize)>,
    c: Rgb,
) -> int
    decreases nbrs.len(),
{
    if nbrs.len() == 0 {
        0
    } else {
        (if seen[nbrs.first().1 * w + nbrs.first().0] {
            spec_color_dist(c, canvas[nbrs.first().1 * w + nbrs.first().0])
        } else {
            0int
        }) + dist_among(canvas, seen, w, nbrs.drop_first(), c)
    }
}

/// A frontier candidate's score for color `c`: the average squared color
/// distance between `c` and the candidate's already-visited neighbors
/// (integer division; the candidate must have at least one such neighbor
/// for the score to be meaningful).
pub open spec fn spec_score(
    canvas: Seq<Rgb>,
    seen: Seq<bool>,
    w: int,
    h: int,
    x: int,
    y: int,
    c: Rgb,
) -> int {
    let nbrs = neighbors_seq(w, h, x, y);
    dist_among(canvas, seen, w, nbrs, c) / visited_among(seen, w, nbrs)
}

/// The index, among the first `n` frontier entries, of the entry with the
/// minimum score for the next color to place; the earliest such entry on a
/// tie. This fixes the tie-break deterministically.
pub open spec fn best_in_prefix(s: GenState, w: int, h: int, n: int) -> int
    decreases n,
{
    if n <= 1 {
        0
    } else {
        let b = best_in_prefix(s, w, h, n - 1);
        let p = s.frontier[n - 1];
        let q = s.frontier[b];
        if spec_score(s.canvas, s.seen, w, h, p.0 as int, p.1 as int, s.colors.last())
            < spec_score(s.canvas, s.seen, w, h, q.0 as int, q.1 as int, s.colors.last()) {
            n - 1
        } else {
            b
        }
    }
}

/// Places the next palette color at the unvisited cell `(x, y)`: pops the
/// color, assigns it, marks the cell visited, removes the cell from the
/// frontier, and adds the cell's unvisited neighbors to the frontier.
pub open spec fn place(s: GenState, w: int, h: int, x: int, y: int) -> GenState {
    let c = s.colors.last();
    let k = y * w + x;
    let seen2 = s.seen.update(k, true);
    GenState {
        canvas: s.canvas.update(k, c),
        seen: seen2,
        frontier: add_new(
            remove_coord(s.frontier, (x as usize, y as usize)),
            seen2,
            w,
            neighbors_seq(w, h, x, y),
        ),
        colors: s.colors.drop_last(),
    }
}

/// One iteration of the main loop: select the frontier cell with the
/// minimum score for the next color, and place the color there.
pub open spec fn do_step(s: GenState, w: int, h: int) -> GenState {
    let b = best_in_prefix(s, w, h, s.frontier.len() as int);
    let p = s.frontier[b];
    place(s, w, h, p.0 as int, p.1 as int)
}

/// Runs the main loop until the palette is exhausted.
pub open spec fn run(s: GenState, w: int, h: int) -> GenState
    decreases s.colors.len(),
{
    if s.colors.len() == 0 {
        s
    } else {
        run(do_step(s, w, h), w, h)
    }
}

/// Seeding: places one palette color at each seed coordinate, in order.
pub open spec fn seed_fold(s: GenState, w: int, h: int, seeds: Seq<(usize, usize)>) -> GenState
    decreases seeds.len(),
{
    if seeds.len() == 0 {
        s
    } else {
        let p = seeds.first();
        seed_fold(place(s, w, h, p.0 as int, p.1 as int), w, h, seeds.drop_first())
    }
}

/// The state before seeding: a blank canvas, nothing visited, an empty
/// frontier, and the whole palette still to place.
pub open spec fn start_state(colors: Seq<Rgb>, w: int, h: int) -> GenState {
    GenState {
        canvas: Seq::new((w * h) as nat, |i: int| (0u8, 0u8, 0u8)),
        seen: Seq::new((w * h) as nat, |i: int| false),
        frontier: Seq::empty(),
        colors: colors,
    }
}

/// The canvas that generation produces from the given palette, dimensions
/// and seeds. Generation is a function of these inputs alone: two runs on
/// identical inputs produce identical canvases.
pub open spec fn spec_generate(
    colors: Seq<Rgb>,
    w: int,
    h: int,
    seeds: Seq<(usize, usize)>,
) -> Seq<Rgb> {
    run(seed_fold(start_state(colors, w, h), w, h, seeds), w, h).canvas
}

/// The inputs on which generation is defined: positive dimensions whose
/// product is addressable, a palette of exactly one color per cell, and at
/// least one seed, all seeds in bounds and pairwise distinct.
pub open spec fn valid_inputs(
    colors: Seq<Rgb>,
    w: int,
    h: int,
    seeds: Seq<(usize, usize)>,
) -> bool {
    &&& 0 < w
    &&& 0 < h
    &&& w * h <= usize::MAX
    &&& colors.len() == w * h
    &&& 1 <= seeds.len()
    &&& forall|i: int| 0 <= i < seeds.len() ==> in_grid(w, h, #[trigger] seeds[i].0 as int, seeds[i].1 as int)
    &&& forall|i: int, j: int| 0 <= i < j < seeds.len() ==> seeds[i] != seeds[j]
}

/// The engine's invariant over a mid-run state, dimensions aside:
/// consistent sizes, the visited count accounting for every color placed so
/// far, and the frontier holding exactly — without duplicates — the
/// in-bounds cells that are unvisited but have a visited neighbor.
pub open spec fn state_inv0(s: GenState, w: int, h: int) -> bool {
    &&& 1 <= w
    &&& 1 <= h
    &&& w * h <= usize::MAX
    &&& s.canvas.len() == w * h
    &&& s.seen.len() == w * h
    &&& s.colors.len() <= w * h
    &&& count_true(s.seen) == w * h - s.colors.len()
    &&& forall|i: int|
        0 <= i < s.frontier.len() ==> in_grid(
            w,
            h,
            #[trigger] s.frontier[i].0 as int,
            s.frontier[i].1 as int,
        )
    &&& distinct_coords(s.frontier)
    &&& forall|p: (usize, usize)|
        in_grid(w, h, p.0 as int, p.1 as int) ==> (#[trigger] s.frontier.contains(p) <==> (
        !s.seen[p.1 * w + p.0] && has_visited_neighbor(s.seen, w, h, p.0 as int, p.1 as int)))
}

/// The engine's invariant once seeding has begun: at least one cell is
/// visited.
pub open spec fn state_inv(s: GenState, w: int, h: int) -> bool {
    &&& state_inv0(s, w, h)
    &&& 1 <= count_true(s.seen)
}

/// No coordinate occurs twice.
pub open spec fn distinct_coords(f: Seq<(usize, usize)>) -> bool {
    forall|i: int, j: int| 0 <= i < j < f.len() ==> f[i] != f[j]
}

/// Visited counts lie between zero and the mask's size.
pub proof fn lemma_count_true_bound(s: Seq<bool>)
    ensures
        0 <= count_true(s) <= s.len(),
    decreases s.len(),
{
    if s.len() > 0 {
        lemma_count_true_bound(s.drop_last());
    }
}

/// Marking one unvisited cell visited raises the visited count by one.
pub proof fn lemma_count_true_update(s: Seq<bool>, i: int)
    requires
        0 <= i < s.len(),
        !s[i],
    ensures
        count_true(s.update(i, true)) == count_true(s) + 1,
    decreases s.len(),
{
    let t = s.update(i, true);
    if i == s.len() - 1 {
        assert(t.drop_last() =~= s.drop_last());
    } else {
        assert(t.drop_last() =~= s.drop_last().update(i, true));
        lemma_count_true_update(s.drop_last(), i);
    }
}

/// A mask whose visited count equals its size is entirely true.
pub proof fn lemma_count_true_full(s: Seq<bool>)
    requires
        count_true(s) == s.len(),
    ensures
        forall|i: int| 0 <= i < s.len() ==> s[i],
    decreases s.len(),
{
    if s.len() > 0 {
        lemma_count_true_bound(s.drop_last());
        lemma_count_true_full(s.drop_last());
        assert forall|i: int| 0 <= i < s.len() implies s[i] by {
            if i < s.len() - 1 {
                assert(s.drop_last()[i]);
            }
        }
    }
}

/// A positive visited count yields a visited cell.
pub proof fn lemma_count_true_pos(s: Seq<bool>)
    requires
        count_true(s) > 0,
    ensures
        exists|i: int| 0 <= i < s.len() && s[i],
    decreases s.len(),
{
    if s.last() {
        assert(0 <= s.len() - 1 < s.len() && s[s.len() - 1]);
    } else {
        lemma_count_true_pos(s.drop_last());
        let i = choose|i: int| 0 <= i < s.drop_last().len() && s.drop_last()[i];
        assert(0 <= i < s.len() && s[i]);
    }
}

/// A visited count short of the mask's size yields an unvisited cell.
pub proof fn lemma_count_true_missing(s: Seq<bool>)
    requires
        count_true(s) < s.len(),
    ensures
        exists|i: int| 0 <= i < s.len() && !s[i],
    decreases s.len(),
{
    if !s.last() {
        assert(0 <= s.len() - 1 < s.len() && !s[s.len() - 1]);
    } else {
        lemma_count_true_missing(s.drop_last());
        let i = choose|i: int| 0 <= i < s.drop_last().len() && !s.drop_last()[i];
        assert(0 <= i < s.len() && !s[i]);
    }
}

/// Dropping the first element of a duplicate-free sequence keeps it
/// duplicate-free and removes the first element entirely.
proof fn lemma_distinct_drop_first(f: Seq<(usize, usize)>)
    requires
        distinct_coords(f),
        f.len() > 0,
    ensures
        distinct_coords(f.drop_first()),
        !f.drop_first().contains(f.first()),
{
    assert forall|i: int| 0 <= i < f.drop_first().len() implies f.drop_first()[i] != f.first() by {
        assert(f.drop_first()[i] == f[i + 1]);
    }
}

/// Removing an absent coordinate leaves the frontier unchanged.
pub proof fn lemma_remove_coord_absent(f: Seq<(usize, usize)>, p: (usize, usize))
    requires
        !f.contains(p),
    ensures
        remove_coord(f, p) == f,
    decreases f.len(),
{
    if f.len() > 0 {
        assert(f.first() != p) by {
            assert(f[0] == f.first());
        }
        assert forall|i: int| 0 <= i < f.drop_first().len() implies f.drop_first()[i] != p by {
            assert(f.drop_first()[i] == f[i + 1]);
        }
        lemma_remove_coord_absent(f.drop_first(), p);
        assert(seq![f.first()] + f.drop_first() =~= f);
    }
}

/// Removing a coordinate whose first occurrence is at index `i` removes
/// exactly that index.
pub proof fn lemma_remove_coord_found(f: Seq<(usize, usize)>, p: (usize, usize), i: int)
    requires
        0 <= i < f.len(),
        f[i] == p,
        forall|j: int| 0 <= j < i ==> f[j] != p,
    ensures
        remove_coord(f, p) == f.remove(i),
    decreases i,
{
    if i == 0 {
        assert(f.first() == p);
        assert(f.drop_first() =~= f.remove(0));
    } else {
        assert(f.first() != p) by {
            assert(f[0] == f.first());
        }
        assert(f.drop_first()[i - 1] == p);
        assert forall|j: int| 0 <= j < i - 1 implies f.drop_first()[j] != p by {
            assert(f.drop_first()[j] == f[j + 1]);
        }
        lemma_remove_coord_found(f.drop_first(), p, i - 1);
        assert(seq![f.first()] + f.drop_first().remove(i - 1) =~= f.remove(i));
    }
}

/// On a duplicate-free frontier, removal takes out exactly the one
/// coordinate: membership, duplicate-freedom and in-grid bounds carry over.
pub proof fn lemma_remove_coord_props(f: Seq<(usize, usize)>, p: (usize, usize))
    requires
        distinct_coords(f),
    ensures
        forall|q: (usize, usize)| #[trigger]
            remove_coord(f, p).contains(q) <==> (f.contains(q) && q != p),
        distinct_coords(remove_coord(f, p)),
        forall|i: int|
            0 <= i < remove_coord(f, p).len() ==> f.contains(#[trigger] remove_coord(f, p)[i]),
    decreases f.len(),
{
    broadcast use vstd::seq_lib::lemma_seq_concat_contains_all_elements;

    let r = remove_coord(f, p);
    if f.len() == 0 {
    } else if f.first() == p {
        lemma_distinct_drop_first(f);
        assert forall|q: (usize, usize)| #[trigger] r.contains(q) implies (f.contains(q) && q != p) by {
            let i = choose|i: int| 0 <= i < r.len() && r[i] == q;
            assert(f[i + 1] == q);
        }
        assert forall|q: (usize, usize)| f.contains(q) && q != p implies #[trigger] r.contains(q) by {
            let i = choose|i: int| 0 <= i < f.len() && f[i] == q;
            assert(i != 0);
            assert(r[i - 1] == q);
        }
        assert forall|i: int| 0 <= i < r.len() implies f.contains(#[trigger] r[i]) by {
            assert(f[i + 1] == r[i]);
        }
    } else {
        lemma_distinct_drop_first(f);
        lemma_remove_coord_props(f.drop_first(), p);
        let rr = remove_coord(f.drop_first(), p);
        assert(r == seq![f.first()] + rr);
        assert forall|q: (usize, usize)| #[trigger] r.contains(q) implies (f.contains(q) && q != p) by {
            if q == f.first() {
                assert(f[0] == q);
            } else {
                assert(rr.contains(q));
                assert(f.drop_first().contains(q));
                let i = choose|i: int| 0 <= i < f.drop_first().len() && f.drop_first()[i] == q;
                assert(f[i + 1] == q);
            }
        }
        assert forall|q: (usize, usize)| f.contains(q) && q != p implies #[trigger] r.contains(q) by {
            let i = choose|i: int| 0 <= i < f.len() && f[i] == q;
            if i == 0 {
                assert(seq![f.first()].contains(q)) by {
                    assert(seq![f.first()][0] == q);
                }
            } else {
                assert(f.drop_first()[i - 1] == q);
                assert(f.drop_first().contains(q));
            }
        }
        assert(distinct_coords(r)) by {
            assert forall|i: int, j: int| 0 <= i < j < r.len() implies r[i] != r[j] by {
                if i == 0 {
                    assert(r[j] == rr[j - 1]);
                    assert(f.drop_first().contains(rr[j - 1]));
                    assert(!f.drop_first().contains(f.first()));
                } else {
                    assert(r[i] == rr[i - 1] && r[j] == rr[j - 1]);
                }
            }
        }
        assert forall|i: int| 0 <= i < r.len() implies f.contains(#[trigger] r[i]) by {
            if i == 0 {
                assert(f[0] == r[0]);
            } else {
                assert(r[i] == rr[i - 1]);
                assert(f.drop_first().contains(rr[i - 1]));
                let k = choose|k: int|
                    0 <= k < f.drop_first().len() && f.drop_first()[k] == rr[i - 1];
                assert(f[k + 1] == rr[i - 1]);
            }
        }
    }
}

/// Extending a frontier adds exactly the unvisited candidates that were not
/// yet present; every prior member stays, duplicate-freedom carries over,
/// and each new member comes from the candidate list.
pub proof fn lemma_add_new_props(
    f: Seq<(usize, usize)>,
    seen: Seq<bool>,
    w: int,
    nbrs: Seq<(usize, usize)>,
)
    requires
        distinct_coords(f),
    ensures
        forall|q: (usize, usize)| #[trigger]
            add_new(f, seen, w, nbrs).contains(q) <==> (f.contains(q) || (nbrs.contains(q)
                && !seen[q.1 * w + q.0])),
        distinct_coords(add_new(f, seen, w, nbrs)),
        forall|i: int|
            0 <= i < add_new(f, seen, w, nbrs).len() ==> (f.contains(
                #[trigger] add_new(f, seen, w, nbrs)[i],
            ) || nbrs.contains(add_new(f, seen, w, nbrs)[i])),
    decreases nbrs.len(),
{
    let r = add_new(f, seen, w, nbrs);
    if nbrs.len() == 0 {
        assert forall|i: int| 0 <= i < r.len() implies (f.contains(#[trigger] r[i]) || nbrs.contains(
            r[i],
        )) by {
            assert(f[i] == r[i]);
        }
    } else {
        let q0 = nbrs.first();
        let f2 = if !seen[q0.1 * w + q0.0] && !f.contains(q0) {
            f.push(q0)
        } else {
            f
        };
        assert(distinct_coords(f2)) by {
            if !seen[q0.1 * w + q0.0] && !f.contains(q0) {
                assert forall|i: int, j: int| 0 <= i < j < f2.len() implies f2[i] != f2[j] by {
                    if j == f2.len() - 1 {
                        assert(f2[i] == f[i] && f.contains(f[i]));
                    }
                }
            }
        }
        lemma_add_new_props(f2, seen, w, nbrs.drop_first());
        assert(add_new(f2, seen, w, nbrs.drop_first()) == r);
        assert forall|q: (usize, usize)| #[trigger] r.contains(q) implies (f.contains(q) || (
        nbrs.contains(q) && !seen[q.1 * w + q.0])) by {
            if f2.contains(q) {
                if f2 != f && q == q0 {
                    assert(nbrs[0] == q0);
                } else {
                    let i = choose|i: int| 0 <= i < f2.len() && f2[i] == q;
                    if i < f.len() {
                        assert(f[i] == q);
                    } else {
                        assert(q == q0);
                        assert(nbrs[0] == q0);
                    }
                }
            } else {
                let i = choose|i: int|
                    0 <= i < nbrs.drop_first().len() && nbrs.drop_first()[i] == q;
                assert(nbrs[i + 1] == q);
            }
        }
        assert forall|q: (usize, usize)| (f.contains(q) || (nbrs.contains(q) && !seen[q.1 * w
            + q.0])) implies #[trigger] r.contains(q) by {
            if f.contains(q) {
                let i = choose|i: int| 0 <= i < f.len() && f[i] == q;
                assert(f2[i] == q);
                assert(f2.contains(q));
            } else {
                assert(nbrs.contains(q) && !seen[q.1 * w + q.0]);
                let i = choose|i: int| 0 <= i < nbrs.len() && nbrs[i] == q;
                if i == 0 {
                    assert(q == q0);
                    assert(f2.contains(q)) by {
                        if !f.contains(q0) {
                            assert(f2[f2.len() - 1] == q0);
                        } else {
                            assert(false);
                        }
                    }
                } else {
                    assert(nbrs.drop_first()[i - 1] == q);
                    assert(nbrs.drop_first().contains(q));
                }
            }
        }
        assert forall|i: int| 0 <= i < r.len() implies (f.contains(#[trigger] r[i]) || nbrs.contains(
            r[i],
        )) by {
            if f2.contains(r[i]) {
                let k = choose|k: int| 0 <= k < f2.len() && f2[k] == r[i];
                if k < f.len() {
                    assert(f[k] == r[i]);
                } else {
                    assert(r[i] == q0 && nbrs[0] == q0);
                }
            } else {
                let k = choose|k: int|
                    0 <= k < nbrs.drop_first().len() && nbrs.drop_first()[k] == r[i];
                assert(nbrs[k + 1] == r[i]);
            }
        }
    }
}

/// Walking from a visited cell toward an unvisited cell by kings moves,
/// the first unvisited cell on the way is unvisited with a visited
/// neighbor. So whenever both a visited and an unvisited cell exist, some
/// cell qualifies for the frontier.
pub proof fn lemma_path_to_frontier(
    seen: Seq<bool>,
    w: int,
    h: int,
    vx: int,
    vy: int,
    ux: int,
    uy: int,
)
    requires
        1 <= w,
        1 <= h,
        seen.len() == w * h,
        in_grid(w, h, vx, vy),
        in_grid(w, h, ux, uy),
        seen[vy * w + vx],
        !seen[uy * w + ux],
    ensures
        exists|x: int, y: int|
            in_grid(w, h, x, y) && !seen[y * w + x] && has_visited_neighbor(seen, w, h, x, y),
    decreases (if vx < ux {
        ux - vx
    } else {
        vx - ux
    }) + (if vy < uy {
        uy - vy
    } else {
        vy - uy
    }),
{
    assert(vx != ux || vy != uy);
    let wx = if ux > vx {
        vx + 1
    } else if ux < vx {
        vx - 1
    } else {
        vx
    };
    let wy = if uy > vy {
        vy + 1
    } else if uy < vy {
        vy - 1
    } else {
        vy
    };
    assert(in_grid(w, h, wx, wy));
    assert(is_neighbor(wx, wy, vx, vy));
    if !seen[wy * w + wx] {
        assert(in_grid(w, h, vx, vy) && is_neighbor(wx, wy, vx, vy) && seen[vy * w + vx]);
        assert(has_visited_neighbor(seen, w, h, wx, wy));
    } else {
        lemma_path_to_frontier(seen, w, h, wx, wy, ux, uy);
    }
}

/// Turns a row-major index into in-bounds coordinates.
proof fn lemma_index_to_coords(w: int, h: int, k: int)
    requires
        1 <= w,
        1 <= h,
        0 <= k < w * h,
    ensures
        in_grid(w, h, k % w, k / w),
        (k / w) * w + (k % w) == k,
{
    vstd::arithmetic::div_mod::lemma_fundamental_div_mod(k, w);
    vstd::arithmetic::div_mod::lemma_mod_division_less_than_divisor(k, w);
    let q = k / w;
    let r = k % w;
    assert(0 <= q < h && q * w + r == k) by (nonlinear_arith)
        requires
            k == w * q + r,
            0 <= r < w,
            0 <= k < w * h,
    ;
}

/// While unplaced colors remain, the frontier is not empty: the visited
/// region is neither empty nor the whole grid, so some unvisited cell
/// borders it, and the frontier invariant puts that cell in the frontier.
pub proof fn lemma_frontier_nonempty(s: GenState, w: int, h: int)
    requires
        state_inv(s, w, h),
        s.colors.len() > 0,
    ensures
        s.frontier.len() > 0,
{
    lemma_count_true_pos(s.seen);
    let kv = choose|i: int| 0 <= i < s.seen.len() && s.seen[i];
    lemma_count_true_missing(s.seen);
    let ku = choose|i: int| 0 <= i < s.seen.len() && !s.seen[i];
    lemma_index_to_coords(w, h, kv);
    lemma_index_to_coords(w, h, ku);
    lemma_path_to_frontier(s.seen, w, h, kv % w, kv / w, ku % w, ku / w);
    let (x, y) = choose|x: int, y: int|
        in_grid(w, h, x, y) && !s.seen[y * w + x] && has_visited_neighbor(s.seen, w, h, x, y);
    assert(w <= w * h && h <= w * h) by (nonlinear_arith)
        requires
            1 <= w && 1 <= h,
    ;
    let p = (x as usize, y as usize);
    assert(p.0 as int == x && p.1 as int == y);
    assert(s.frontier.contains(p));
    let i = choose|i: int| 0 <= i < s.frontier.len() && s.frontier[i] == p;
}

/// The multiset of colors already placed on the canvas: one occurrence per
/// visited cell.
pub open spec fn vis_mset(canvas: Seq<Rgb>, seen: Seq<bool>) -> Multiset<Rgb>
    decreases seen.len(),
{
    if seen.len() == 0 {
        Multiset::empty()
    } else {
        let m = vis_mset(canvas, seen.drop_last());
        if seen.last() {
            m.insert(canvas[seen.len() - 1])
        } else {
            m
        }
    }
}

/// `vis_mset` reads the canvas only at mask positions.
proof fn lemma_vis_mset_agree(c1: Seq<Rgb>, c2: Seq<Rgb>, seen: Seq<bool>)
    requires
        forall|i: int| 0 <= i < seen.len() ==> c1[i] == c2[i],
    ensures
        vis_mset(c1, seen) == vis_mset(c2, seen),
    decreases seen.len(),
{
    if seen.len() > 0 {
        lemma_vis_mset_agree(c1, c2, seen.drop_last());
    }
}

/// Assigning a color to an unvisited cell and marking it visited adds
/// exactly that color to the placed multiset.
pub proof fn lemma_vis_mset_update(canvas: Seq<Rgb>, seen: Seq<bool>, k: int, c: Rgb)
    requires
        canvas.len() == seen.len(),
        0 <= k < seen.len(),
        !seen[k],
    ensures
        vis_mset(canvas.update(k, c), seen.update(k, true)) == vis_mset(canvas, seen).insert(c),
    decreases seen.len(),
{
    let c2 = canvas.update(k, c);
    let s2 = seen.update(k, true);
    if k == seen.len() - 1 {
        assert(s2.drop_last() =~= seen.drop_last());
        lemma_vis_mset_agree(c2, canvas, seen.drop_last());
        assert(c2[seen.len() - 1] == c);
    } else {
        assert(s2.drop_last() =~= seen.drop_last().update(k, true));
        lemma_vis_mset_update(canvas.drop_last(), seen.drop_last(), k, c);
        lemma_vis_mset_agree(c2, canvas.drop_last().update(k, c), seen.drop_last().update(k, true));
        lemma_vis_mset_agree(canvas, canvas.drop_last(), seen.drop_last());
        assert(vis_mset(c2, s2.drop_last()) == vis_mset(canvas, seen.drop_last()).insert(c));
        if seen.last() {
            assert(s2.last());
            assert(c2[seen.len() - 1] == canvas[seen.len() - 1]);
            assert(vis_mset(canvas, seen.drop_last()).insert(c).insert(canvas[seen.len() - 1])
                =~= vis_mset(canvas, seen.drop_last()).insert(canvas[seen.len() - 1]).insert(c));
        }
    }
}

/// Once every cell is visited, the placed multiset is the canvas's
/// multiset.
pub proof fn lemma_vis_mset_full(canvas: Seq<Rgb>, seen: Seq<bool>)
    requires
        canvas.len() == seen.len(),
        forall|i: int| 0 <= i < seen.len() ==> seen[i],
    ensures
        vis_mset(canvas, seen) == canvas.to_multiset(),
    decreases seen.len(),
{
    broadcast use vstd::seq_lib::group_to_multiset_ensures;

    if seen.len() == 0 {
        assert(canvas.to_multiset() =~= Multiset::<Rgb>::empty()) by {
            assert(canvas.to_multiset().len() == 0);
        }
    } else {
        lemma_vis_mset_agree(canvas, canvas.drop_last(), seen.drop_last());
        lemma_vis_mset_full(canvas.drop_last(), seen.drop_last());
        assert(canvas =~= canvas.drop_last().push(canvas.last()));
        assert(canvas.drop_last().push(canvas.last()).to_multiset() =~= canvas.drop_last()
            .to_multiset().insert(canvas.last()));
    }
}

/// Color conservation: the colors placed so far, together with the colors
/// still to place, are exactly the input palette.
pub open spec fn mset_inv(s: GenState, colors0: Seq<Rgb>) -> bool {
    vis_mset(s.canvas, s.seen).add(s.colors.to_multiset()) == colors0.to_multiset()
}

/// Placing one color at an unvisited in-bounds cell preserves the engine's
/// invariant and color conservation, raises the visited count by one,
/// assigns exactly that cell, and touches no other cell.
pub proof fn lemma_place_preserves(s: GenState, w: int, h: int, x: int, y: int, colors0: Seq<Rgb>)
    requires
        state_inv0(s, w, h),
        mset_inv(s, colors0),
        in_grid(w, h, x, y),
        !s.seen[y * w + x],
        1 <= s.colors.len(),
    ensures
        state_inv0(place(s, w, h, x, y), w, h),
        mset_inv(place(s, w, h, x, y), colors0),
        place(s, w, h, x, y).colors == s.colors.drop_last(),
        count_true(place(s, w, h, x, y).seen) == count_true(s.seen) + 1,
        place(s, w, h, x, y).seen[y * w + x],
        place(s, w, h, x, y).canvas[y * w + x] == s.colors.last(),
        forall|i: int|
            0 <= i < w * h && i != y * w + x ==> place(s, w, h, x, y).seen[i] == s.seen[i]
                && place(s, w, h, x, y).canvas[i] == s.canvas[i],
    {
    broadcast use vstd::seq_lib::group_to_multiset_ensures;

    let k = y * w + x;
    lemma_row_major_index(w, h, x, y);
    let c = s.colors.last();
    let t = place(s, w, h, x, y);
    let seen2 = s.seen.update(k, true);
    let p = (x as usize, y as usize);
    assert(w <= w * h && h <= w * h) by (nonlinear_arith)
        requires
            1 <= w && 1 <= h,
    ;
    assert(p.0 as int == x && p.1 as int == y);
    lemma_count_true_update(s.seen, k);
    // color conservation
    lemma_vis_mset_update(s.canvas, s.seen, k, c);
    assert(s.colors =~= s.colors.drop_last().push(c));
    assert(s.colors.drop_last().push(c).to_multiset() =~= s.colors.drop_last()
        .to_multiset().insert(c));
    assert(vis_mset(t.canvas, t.seen).add(t.colors.to_multiset()) =~= colors0.to_multiset()) by {
        assert(vis_mset(s.canvas, s.seen).insert(c).add(s.colors.drop_last().to_multiset())
            =~= vis_mset(s.canvas, s.seen).add(s.colors.drop_last().to_multiset().insert(c)));
    }
    // the frontier after the step
    let f1 = remove_coord(s.frontier, p);
    let nbrs = neighbors_seq(w, h, x, y);
    let f2 = add_new(f1, seen2, w, nbrs);
    assert(t.frontier == f2);
    lemma_remove_coord_props(s.frontier, p);
    lemma_add_new_props(f1, seen2, w, nbrs);
    lemma_neighbors_seq_correct(w, h, x, y);
    // every member of the new frontier lies in the grid
    assert forall|i: int| 0 <= i < f2.len() implies in_grid(
        w,
        h,
        #[trigger] f2[i].0 as int,
        f2[i].1 as int,
    ) by {
        let q = f2[i];
        if f1.contains(q) {
            assert(s.frontier.contains(q));
            let j = choose|j: int| 0 <= j < s.frontier.len() && s.frontier[j] == q;
            assert(in_grid(w, h, s.frontier[j].0 as int, s.frontier[j].1 as int));
        } else {
            assert(nbrs.contains(q));
        }
    }
    // the frontier invariant
    assert forall|q: (usize, usize)| in_grid(w, h, q.0 as int, q.1 as int) implies (
    #[trigger] f2.contains(q) <==> (!seen2[q.1 * w + q.0] && has_visited_neighbor(
        seen2,
        w,
        h,
        q.0 as int,
        q.1 as int,
    ))) by {
        let qx = q.0 as int;
        let qy = q.1 as int;
        let qi = qy * w + qx;
        lemma_row_major_index(w, h, qx, qy);
        if q == p {
            assert(seen2[k]);
            assert(!f1.contains(q));
            assert(!is_neighbor(x, y, qx, qy));
            assert(!nbrs.contains(q));
            assert(!f2.contains(q));
        } else {
            assert(qi != k) by {
                if qi == k {
                    lemma_row_major_injective(w, h, qx, qy, x, y);
                }
            }
            assert(seen2[qi] == s.seen[qi]);
            if has_visited_neighbor(s.seen, w, h, qx, qy) {
                let (a, b) = choose|a: int, b: int|
                    in_grid(w, h, a, b) && is_neighbor(qx, qy, a, b) && s.seen[b * w + a];
                lemma_row_major_index(w, h, a, b);
                assert(b * w + a != k) by {
                    if b * w + a == k {
                        lemma_row_major_injective(w, h, a, b, x, y);
                    }
                }
                assert(seen2[b * w + a]);
                assert(has_visited_neighbor(seen2, w, h, qx, qy));
            }
            if is_neighbor(qx, qy, x, y) {
                assert(in_grid(w, h, x, y) && is_neighbor(qx, qy, x, y) && seen2[y * w + x]);
                assert(has_visited_neighbor(seen2, w, h, qx, qy));
            }
            if has_visited_neighbor(seen2, w, h, qx, qy) && !is_neighbor(qx, qy, x, y) {
                let (a, b) = choose|a: int, b: int|
                    in_grid(w, h, a, b) && is_neighbor(qx, qy, a, b) && seen2[b * w + a];
                lemma_row_major_index(w, h, a, b);
                assert((a, b) != (x, y));
                assert(b * w + a != k) by {
                    if b * w + a == k {
                        lemma_row_major_injective(w, h, a, b, x, y);
                    }
                }
                assert(s.seen[b * w + a]);
                assert(has_visited_neighbor(s.seen, w, h, qx, qy));
            }
            assert(is_neighbor(x, y, qx, qy) == is_neighbor(qx, qy, x, y));
            assert(f2.contains(q) <==> (f1.contains(q) || (nbrs.contains(q) && !seen2[qi])));
            assert(f1.contains(q) <==> s.frontier.contains(q));
        }
    }
}

/// The score of the `i`-th frontier entry for the next color to place.
pub open spec fn frontier_score(s: GenState, w: int, h: int, i: int) -> int {
    spec_score(
        s.canvas,
        s.seen,
        w,
        h,
        s.frontier[i].0 as int,
        s.frontier[i].1 as int,
        s.colors.last(),
    )
}

/// The selected frontier entry is in range and its score is the minimum
/// among the first `n` entries; every earlier entry scores strictly worse,
/// so the tie-break picks the earliest minimum.
pub proof fn lemma_best_in_prefix_props(s: GenState, w: int, h: int, n: int)
    requires
        1 <= n <= s.frontier.len(),
    ensures
        0 <= best_in_prefix(s, w, h, n) < n,
        forall|i: int|
            0 <= i < n ==> frontier_score(s, w, h, best_in_prefix(s, w, h, n))
                <= #[trigger] frontier_score(s, w, h, i),
        forall|i: int|
            0 <= i < best_in_prefix(s, w, h, n) ==> frontier_score(s, w, h, best_in_prefix(s, w, h, n))
                < #[trigger] frontier_score(s, w, h, i),
    decreases n,
{
    if n > 1 {
        lemma_best_in_prefix_props(s, w, h, n - 1);
    }
}

/// One main-loop step preserves the engine's invariant and color
/// conservation, consumes exactly one color, and — monotonicity — leaves
/// every visited cell visited with its color untouched.
pub proof fn lemma_step_preserves(s: GenState, w: int, h: int, colors0: Seq<Rgb>)
    requires
        state_inv(s, w, h),
        mset_inv(s, colors0),
        1 <= s.colors.len(),
    ensures
        state_inv(do_step(s, w, h), w, h),
        mset_inv(do_step(s, w, h), colors0),
        do_step(s, w, h).colors == s.colors.drop_last(),
        count_true(do_step(s, w, h).seen) == count_true(s.seen) + 1,
        forall|i: int|
            0 <= i < w * h && s.seen[i] ==> do_step(s, w, h).seen[i] && do_step(
                s,
                w,
                h,
            ).canvas[i] == s.canvas[i],
{
    lemma_frontier_nonempty(s, w, h);
    lemma_best_in_prefix_props(s, w, h, s.frontier.len() as int);
    let b = best_in_prefix(s, w, h, s.frontier.len() as int);
    let p = s.frontier[b];
    let x = p.0 as int;
    let y = p.1 as int;
    assert(in_grid(w, h, x, y));
    assert(s.frontier.contains(p)) by {
        assert(s.frontier[b] == p);
    }
    assert(!s.seen[y * w + x]);
    lemma_row_major_index(w, h, x, y);
    lemma_place_preserves(s, w, h, x, y, colors0);
}

/// A mask with nothing set has a visited count of zero.
proof fn lemma_count_true_none(s: Seq<bool>)
    requires
        forall|i: int| 0 <= i < s.len() ==> !s[i],
    ensures
        count_true(s) == 0,
    decreases s.len(),
{
    if s.len() > 0 {
        lemma_count_true_none(s.drop_last());
    }
}

/// With nothing visited, no color has been placed.
proof fn lemma_vis_mset_none(canvas: Seq<Rgb>, seen: Seq<bool>)
    requires
        forall|i: int| 0 <= i < seen.len() ==> !seen[i],
    ensures
        vis_mset(canvas, seen) == Multiset::<Rgb>::empty(),
    decreases seen.len(),
{
    if seen.len() > 0 {
        lemma_vis_mset_none(canvas, seen.drop_last());
    }
}

/// The blank starting state satisfies the engine's invariant and color
/// conservation, with nothing visited.
pub proof fn lemma_start_state_inv(colors: Seq<Rgb>, w: int, h: int)
    requires
        0 < w,
        0 < h,
        w * h <= usize::MAX,
        colors.len() == w * h,
    ensures
        state_inv0(start_state(colors, w, h), w, h),
        mset_inv(start_state(colors, w, h), colors),
        count_true(start_state(colors, w, h).seen) == 0,
{
    let s = start_state(colors, w, h);
    lemma_count_true_none(s.seen);
    lemma_vis_mset_none(s.canvas, s.seen);
    assert(vis_mset(s.canvas, s.seen).add(s.colors.to_multiset()) =~= colors.to_multiset());
    assert forall|p: (usize, usize)| in_grid(w, h, p.0 as int, p.1 as int) implies (
    #[trigger] s.frontier.contains(p) <==> (!s.seen[p.1 * w + p.0] && has_visited_neighbor(
        s.seen,
        w,
        h,
        p.0 as int,
        p.1 as int,
    ))) by {
        assert(!s.frontier.contains(p)) by {
            if s.frontier.contains(p) {
                let i = choose|i: int| 0 <= i < s.frontier.len() && s.frontier[i] == p;
            }
        }
        assert(!has_visited_neighbor(s.seen, w, h, p.0 as int, p.1 as int)) by {
            if has_visited_neighbor(s.seen, w, h, p.0 as int, p.1 as int) {
                let (a, b) = choose|a: int, b: int|
                    in_grid(w, h, a, b) && is_neighbor(p.0 as int, p.1 as int, a, b) && s.seen[b
                        * w + a];
                lemma_row_major_index(w, h, a, b);
            }
        }
    }
}

/// Seeding places one palette color per seed, in seed order, at cells that
/// were unvisited; it preserves the invariant and color conservation, and
/// leaves every previously visited cell untouched.
pub proof fn lemma_seed_fold_preserves(
    s: GenState,
    w: int,
    h: int,
    seeds: Seq<(usize, usize)>,
    colors0: Seq<Rgb>,
)
    requires
        state_inv0(s, w, h),
        mset_inv(s, colors0),
        forall|i: int|
            0 <= i < seeds.len() ==> in_grid(w, h, #[trigger] seeds[i].0 as int, seeds[i].1 as int),
        distinct_coords(seeds),
        forall|i: int| 0 <= i < seeds.len() ==> !s.seen[#[trigger] (seeds[i].1 * w + seeds[i].0)],
    ensures
        state_inv0(seed_fold(s, w, h, seeds), w, h),
        mset_inv(seed_fold(s, w, h, seeds), colors0),
        seed_fold(s, w, h, seeds).colors =~= s.colors.take(s.colors.len() - seeds.len()),
        count_true(seed_fold(s, w, h, seeds).seen) == count_true(s.seen) + seeds.len(),
        forall|i: int|
            0 <= i < w * h && s.seen[i] ==> seed_fold(s, w, h, seeds).seen[i] && seed_fold(
                s,
                w,
                h,
                seeds,
            ).canvas[i] == s.canvas[i],
        forall|i: int|
            0 <= i < seeds.len() ==> seed_fold(s, w, h, seeds).seen[#[trigger] (seeds[i].1 * w
                + seeds[i].0)] && seed_fold(s, w, h, seeds).canvas[seeds[i].1 * w + seeds[i].0]
                == s.colors[s.colors.len() - 1 - i],
    decreases seeds.len(),
{
    if seeds.len() > 0 {
        let p = seeds.first();
        let x = p.0 as int;
        let y = p.1 as int;
        let k = y * w + x;
        assert(seeds[0] == p);
        lemma_row_major_index(w, h, x, y);
        assert(1 <= s.colors.len()) by {
            if s.colors.len() == 0 {
                lemma_count_true_full(s.seen);
            }
        }
        lemma_place_preserves(s, w, h, x, y, colors0);
        let s1 = place(s, w, h, x, y);
        let rest = seeds.drop_first();
        assert(distinct_coords(rest)) by {
            assert forall|i: int, j: int| 0 <= i < j < rest.len() implies rest[i] != rest[j] by {
                assert(rest[i] == seeds[i + 1] && rest[j] == seeds[j + 1]);
            }
        }
        assert forall|i: int| 0 <= i < rest.len() implies in_grid(
            w,
            h,
            #[trigger] rest[i].0 as int,
            rest[i].1 as int,
        ) by {
            assert(rest[i] == seeds[i + 1]);
        }
        assert forall|i: int| 0 <= i < rest.len() implies !s1.seen[#[trigger] (rest[i].1 * w
            + rest[i].0)] by {
            assert(rest[i] == seeds[i + 1]);
            let rx = rest[i].0 as int;
            let ry = rest[i].1 as int;
            lemma_row_major_index(w, h, rx, ry);
            assert(seeds[i + 1] != seeds[0]);
            assert(ry * w + rx != k) by {
                if ry * w + rx == k {
                    lemma_row_major_injective(w, h, rx, ry, x, y);
                }
            }
        }
        lemma_seed_fold_preserves(s1, w, h, rest, colors0);
        let t = seed_fold(s1, w, h, rest);
        assert(t == seed_fold(s, w, h, seeds));
        assert(t.colors =~= s.colors.take(s.colors.len() - seeds.len())) by {
            assert(s1.colors =~= s.colors.drop_last());
        }
        assert forall|i: int| 0 <= i < seeds.len() implies t.seen[#[trigger] (seeds[i].1 * w
            + seeds[i].0)] && t.canvas[seeds[i].1 * w + seeds[i].0] == s.colors[s.colors.len() - 1
            - i] by {
            if i == 0 {
                assert(s1.seen[k] && s1.canvas[k] == s.colors.last());
            } else {
                assert(rest[i - 1] == seeds[i]);
                assert(t.canvas[seeds[i].1 * w + seeds[i].0] == s1.colors[s1.colors.len() - 1 - (i
                    - 1)]);
                assert(s1.colors[s1.colors.len() - 1 - (i - 1)] == s.colors[s.colors.len() - 1
                    - i]);
            }
        }
    } else {
        assert(seed_fold(s, w, h, seeds).colors =~= s.colors.take(s.colors.len() as int));
    }
}

/// Running the main loop to exhaustion preserves the invariant and color
/// conservation, consumes every color, and never revisits a cell: once
/// visited, a cell keeps its color to the end of the run.
pub proof fn lemma_run_preserves(s: GenState, w: int, h: int, colors0: Seq<Rgb>)
    requires
        state_inv(s, w, h),
        mset_inv(s, colors0),
    ensures
        state_inv(run(s, w, h), w, h),
        mset_inv(run(s, w, h), colors0),
        run(s, w, h).colors.len() == 0,
        forall|i: int|
            0 <= i < w * h && s.seen[i] ==> run(s, w, h).seen[i] && run(s, w, h).canvas[i]
                == s.canvas[i],
    decreases s.colors.len(),
{
    if s.colors.len() > 0 {
        lemma_step_preserves(s, w, h, colors0);
        lemma_run_preserves(do_step(s, w, h), w, h, colors0);
    }
}

/// On valid inputs a generation run completes: every color is placed,
/// every cell ends visited, the frontier ends empty, the canvas's colors
/// are exactly the input palette, and each seed keeps the color it was
/// given during seeding.
pub proof fn lemma_generation_completes(
    colors: Seq<Rgb>,
    w: int,
    h: int,
    seeds: Seq<(usize, usize)>,
)
    requires
        valid_inputs(colors, w, h, seeds),
    ensures
        ({
            let t = run(seed_fold(start_state(colors, w, h), w, h, seeds), w, h);
            &&& t.canvas == spec_generate(colors, w, h, seeds)
            &&& t.colors.len() == 0
            &&& t.frontier.len() == 0
            &&& forall|i: int| 0 <= i < w * h ==> t.seen[i]
            &&& t.canvas.len() == w * h
            &&& t.canvas.to_multiset() == colors.to_multiset()
            &&& forall|i: int|
                0 <= i < seeds.len() ==> t.canvas[#[trigger] (seeds[i].1 * w + seeds[i].0)]
                    == colors[colors.len() - 1 - i]
        }),
{
    broadcast use vstd::seq_lib::group_to_multiset_ensures;

    let s0 = start_state(colors, w, h);
    lemma_start_state_inv(colors, w, h);
    assert forall|i: int| 0 <= i < seeds.len() implies !s0.seen[#[trigger] (seeds[i].1 * w
        + seeds[i].0)] by {
        lemma_row_major_index(w, h, seeds[i].0 as int, seeds[i].1 as int);
    }
    lemma_seed_fold_preserves(s0, w, h, seeds, colors);
    let s1 = seed_fold(s0, w, h, seeds);
    assert(state_inv(s1, w, h));
    lemma_run_preserves(s1, w, h, colors);
    let t = run(s1, w, h);
    assert(count_true(t.seen) == w * h);
    lemma_count_true_full(t.seen);
    assert(t.frontier.len() == 0) by {
        if t.frontier.len() > 0 {
            let q = t.frontier[0];
            assert(t.frontier.contains(q));
            assert(in_grid(w, h, q.0 as int, q.1 as int));
            lemma_row_major_index(w, h, q.0 as int, q.1 as int);
            assert(!t.seen[q.1 * w + q.0]);
        }
    }
    lemma_vis_mset_full(t.canvas, t.seen);
    assert(t.canvas.to_multiset() == colors.to_multiset()) by {
        assert(t.colors.to_multiset() =~= Multiset::<Rgb>::empty()) by {
            assert(t.colors.to_multiset().len() == 0);
        }
        assert(t.canvas.to_multiset().add(Multiset::<Rgb>::empty()) =~= t.canvas.to_multiset());
    }
    assert forall|i: int| 0 <= i < seeds.len() implies t.canvas[#[trigger] (seeds[i].1 * w
        + seeds[i].0)] == colors[colors.len() - 1 - i] by {
        lemma_row_major_index(w, h, seeds[i].0 as int, seeds[i].1 as int);
        assert(s1.seen[seeds[i].1 * w + seeds[i].0]);
        assert(s1.canvas[seeds[i].1 * w + seeds[i].0] == colors[colors.len() - 1 - i]);
    }
}

/// Unfolds the scoring sums one candidate at a time, matching a scan of
/// the candidate list.
proof fn lemma_among_skip(
    canvas: Seq<Rgb>,
    seen: Seq<bool>,
    w: int,
    nbrs: Seq<(usize, usize)>,
    c: Rgb,
    j: int,
)
    requires
        0 <= j < nbrs.len(),
    ensures
        visited_among(seen, w, nbrs.skip(j)) == (if seen[nbrs[j].1 * w + nbrs[j].0] {
            1int
        } else {
            0int
        }) + visited_among(seen, w, nbrs.skip(j + 1)),
        dist_among(canvas, seen, w, nbrs.skip(j), c) == (if seen[nbrs[j].1 * w + nbrs[j].0] {
            spec_color_dist(c, canvas[nbrs[j].1 * w + nbrs[j].0])
        } else {
            0int
        }) + dist_among(canvas, seen, w, nbrs.skip(j + 1), c),
{
    assert(nbrs.skip(j).first() == nbrs[j]);
    assert(nbrs.skip(j).drop_first() =~= nbrs.skip(j + 1));
}

/// The scoring sums are nonnegative and bounded by one maximal squared
/// distance per candidate.
proof fn lemma_among_bounds(
    canvas: Seq<Rgb>,
    seen: Seq<bool>,
    w: int,
    nbrs: Seq<(usize, usize)>,
    c: Rgb,
)
    ensures
        0 <= visited_among(seen, w, nbrs) <= nbrs.len(),
        0 <= dist_among(canvas, seen, w, nbrs, c) <= nbrs.len() * (3 * 255 * 255),
    decreases nbrs.len(),
{
    if nbrs.len() > 0 {
        lemma_among_bounds(canvas, seen, w, nbrs.drop_first(), c);
        let q = nbrs.first();
        let col = canvas[q.1 * w + q.0];
        crate::lemma_square_bound(c.0 - col.0);
        crate::lemma_square_bound(c.1 - col.1);
        crate::lemma_square_bound(c.2 - col.2);
        assert((nbrs.len() - 1) * (3 * 255 * 255) + (3 * 255 * 255) == nbrs.len() * (3 * 255
            * 255)) by (nonlinear_arith);
    }
}

/// The visited-neighbor count alone is nonnegative.
proof fn lemma_visited_among_nonneg(seen: Seq<bool>, w: int, nbrs: Seq<(usize, usize)>)
    ensures
        0 <= visited_among(seen, w, nbrs),
    decreases nbrs.len(),
{
    if nbrs.len() > 0 {
        lemma_visited_among_nonneg(seen, w, nbrs.drop_first());
    }
}

/// A visited candidate makes the visited-neighbor count positive.
proof fn lemma_among_pos(seen: Seq<bool>, w: int, nbrs: Seq<(usize, usize)>, q: (usize, usize))
    requires
        nbrs.contains(q),
        seen[q.1 * w + q.0],
    ensures
        visited_among(seen, w, nbrs) >= 1,
    decreases nbrs.len(),
{
    lemma_visited_among_nonneg(seen, w, nbrs.drop_first());
    if nbrs.first() != q {
        assert forall|i: int| 0 <= i < nbrs.len() && nbrs[i] == q implies i >= 1 by {}
        let i = choose|i: int| 0 <= i < nbrs.len() && nbrs[i] == q;
        assert(nbrs.drop_first()[i - 1] == q);
        lemma_among_pos(seen, w, nbrs.drop_first(), q);
    }
}

/// The engine's state as carried by the executable pieces: the canvas and
/// mask grids, the frontier vector and the remaining palette.
pub open spec fn cur_state(
    img: Image<Rgb>,
    seen: Image<bool>,
    frontier: Seq<(usize, usize)>,
    colors: Seq<Rgb>,
) -> GenState {
    GenState { canvas: img.pixels(), seen: seen.pixels(), frontier: frontier, colors: colors }
}

/// The index of the first occurrence of `(x, y)`, if any.
fn find_coord(f: &Vec<(usize, usize)>, x: usize, y: usize) -> (r: Option<usize>)
    ensures
        match r {
            Some(i) => i < f@.len() && f@[i as int] == (x, y) && (forall|j: int|
                0 <= j < i ==> f@[j] != (x, y)),
            None => !f@.contains((x, y)),
        },
{
    let n = f.len();
    let mut i: usize = 0;
    while i < n
        invariant
            i <= n,
            n == f@.len(),
            forall|j: int| 0 <= j < i ==> f@[j] != (x, y),
        decreases n - i,
    {
        let q = f[i];
        if q.0 == x && q.1 == y {
            return Some(i);
        }
        i += 1;
    }
    proof {
        if f@.contains((x, y)) {
            let j = choose|j: int| 0 <= j < f@.len() && f@[j] == (x, y);
        }
    }
    None
}

/// The average squared color distance between `c` and the visited
/// neighbors of `(x, y)`, which must have at least one visited neighbor.
fn score_of(img: &Image<Rgb>, seen: &Image<bool>, x: usize, y: usize, c: Rgb) -> (r: i32)
    requires
        img.wf(),
        seen.wf(),
        img.spec_width() == seen.spec_width(),
        img.spec_height() == seen.spec_height(),
        img.spec_width() * img.spec_height() <= usize::MAX,
        in_grid(img.spec_width(), img.spec_height(), x as int, y as int),
        has_visited_neighbor(
            seen.pixels(),
            img.spec_width(),
            img.spec_height(),
            x as int,
            y as int,
        ),
    ensures
        r == spec_score(
            img.pixels(),
            seen.pixels(),
            img.spec_width(),
            img.spec_height(),
            x as int,
            y as int,
            c,
        ),
{
    let ghost gw = img.spec_width();
    let ghost gh = img.spec_height();
    let ghost cv = img.pixels();
    let ghost sn = seen.pixels();
    let nbrs = img.neighbors(x, y);
    proof {
        lemma_neighbors_seq_correct(gw, gh, x as int, y as int);
        assert(nbrs@.len() <= 8);
        assert(nbrs@.skip(0) =~= nbrs@);
    }
    let n = nbrs.len();
    let mut count: i32 = 0;
    let mut total: i32 = 0;
    let mut j: usize = 0;
    while j < n
        invariant
            j <= n,
            n == nbrs@.len(),
            n <= 8,
            img.wf(),
            seen.wf(),
            gw == img.spec_width(),
            gw == seen.spec_width(),
            gh == img.spec_height(),
            gh == seen.spec_height(),
            cv == img.pixels(),
            sn == seen.pixels(),
            nbrs@ == neighbors_seq(gw, gh, x as int, y as int),
            forall|i: int|
                0 <= i < nbrs@.len() ==> in_grid(gw, gh, #[trigger] nbrs@[i].0 as int, nbrs@[i].1 as int),
            0 <= count <= j,
            0 <= total,
            count == visited_among(sn, gw, nbrs@) - visited_among(sn, gw, nbrs@.skip(j as int)),
            total == dist_among(cv, sn, gw, nbrs@, c) - dist_among(
                cv,
                sn,
                gw,
                nbrs@.skip(j as int),
                c,
            ),
        decreases n - j,
    {
        let q = nbrs[j];
        proof {
            assert(nbrs@.contains(nbrs@[j as int]));
            lemma_row_major_index(gw, gh, q.0 as int, q.1 as int);
            lemma_among_skip(cv, sn, gw, nbrs@, c, j as int);
            lemma_among_bounds(cv, sn, gw, nbrs@, c);
            lemma_among_bounds(cv, sn, gw, nbrs@.skip(j as int), c);
            lemma_among_bounds(cv, sn, gw, nbrs@.skip(j as int + 1), c);
            assert(nbrs@.len() * (3 * 255 * 255) <= 8 * (3 * 255 * 255)) by (nonlinear_arith)
                requires
                    nbrs@.len() <= 8,
            ;
            assert(dist_among(cv, sn, gw, nbrs@, c) <= 8 * (3 * 255 * 255));
        }
        if seen.get(q.0, q.1) {
            count += 1;
            let d = crate::color_dist(c, img.get(q.0, q.1));
            total += d;
        }
        j += 1;
    }
    proof {
        assert(nbrs@.skip(n as int) =~= Seq::<(usize, usize)>::empty());
        let (a, b) = choose|a: int, b: int|
            in_grid(gw, gh, a, b) && is_neighbor(x as int, y as int, a, b) && sn[b * gw + a];
        assert(gw <= usize::MAX && gh <= usize::MAX) by (nonlinear_arith)
            requires
                1 <= gw && 1 <= gh && gw * gh <= usize::MAX,
        ;
        let q = (a as usize, b as usize);
        assert(q.0 as int == a && q.1 as int == b);
        assert(nbrs@.contains(q));
        lemma_among_pos(sn, gw, nbrs@, q);
    }
    total / count
}

/// Performs one placement on the executable state: pops the next color,
/// assigns it at `(x, y)`, marks the cell visited, removes the cell from
/// the frontier and enqueues its unvisited neighbors.
fn place_step(
    img: &mut Image<Rgb>,
    seen: &mut Image<bool>,
    frontier: &mut Vec<(usize, usize)>,
    colors: &mut Vec<Rgb>,
    x: usize,
    y: usize,
)
    requires
        old(img).wf(),
        old(seen).wf(),
        old(img).spec_width() == old(seen).spec_width(),
        old(img).spec_height() == old(seen).spec_height(),
        old(img).spec_width() * old(img).spec_height() <= usize::MAX,
        in_grid(old(img).spec_width(), old(img).spec_height(), x as int, y as int),
        !old(seen).pixels()[y * old(seen).spec_width() + x],
        old(colors)@.len() >= 1,
    ensures
        final(img).wf(),
        final(seen).wf(),
        final(img).spec_width() == old(img).spec_width(),
        final(img).spec_height() == old(img).spec_height(),
        final(seen).spec_width() == old(seen).spec_width(),
        final(seen).spec_height() == old(seen).spec_height(),
        cur_state(*final(img), *final(seen), final(frontier)@, final(colors)@) == place(
            cur_state(*old(img), *old(seen), old(frontier)@, old(colors)@),
            old(img).spec_width(),
            old(img).spec_height(),
            x as int,
            y as int,
        ),
{
    let ghost gw = img.spec_width();
    let ghost gh = img.spec_height();
    let ghost s_in = cur_state(*img, *seen, frontier@, colors@);
    proof {
        lemma_row_major_index(gw, gh, x as int, y as int);
    }
    let c = colors.pop().unwrap();
    img.set(x, y, c);
    seen.set(x, y, true);
    proof {
        assert(colors@ =~= s_in.colors.drop_last());
        assert(img.pixels() == s_in.canvas.update(y * gw + x, c));
        assert(seen.pixels() == s_in.seen.update(y * gw + x, true));
    }
    let ghost seen2 = seen.pixels();
    match find_coord(frontier, x, y) {
        Some(i) => {
            frontier.remove(i);
            proof {
                lemma_remove_coord_found(s_in.frontier, (x, y), i as int);
            }
        },
        None => {
            proof {
                lemma_remove_coord_absent(s_in.frontier, (x, y));
            }
        },
    }
    let ghost f1 = frontier@;
    assert(f1 == remove_coord(s_in.frontier, (x, y)));
    let nbrs = img.neighbors(x, y);
    proof {
        lemma_neighbors_seq_correct(gw, gh, x as int, y as int);
        assert(nbrs@.skip(0) =~= nbrs@);
    }
    let n = nbrs.len();
    let mut j: usize = 0;
    while j < n
        invariant
            j <= n,
            n == nbrs@.len(),
            img.wf(),
            seen.wf(),
            gw == img.spec_width(),
            gw == seen.spec_width(),
            gh == img.spec_height(),
            gh == seen.spec_height(),
            seen2 == seen.pixels(),
            nbrs@ == neighbors_seq(gw, gh, x as int, y as int),
            forall|i: int|
                0 <= i < nbrs@.len() ==> in_grid(gw, gh, #[trigger] nbrs@[i].0 as int, nbrs@[i].1 as int),
            add_new(frontier@, seen2, gw, nbrs@.skip(j as int)) == add_new(f1, seen2, gw, nbrs@),
        decreases n - j,
    {
        let q = nbrs[j];
        proof {
            assert(nbrs@.contains(nbrs@[j as int]));
            lemma_row_major_index(gw, gh, q.0 as int, q.1 as int);
            assert(nbrs@.skip(j as int).first() == nbrs@[j as int]);
            assert(nbrs@.skip(j as int).drop_first() =~= nbrs@.skip(j as int + 1));
        }
        let ghost f_before = frontier@;
        if !seen.get(q.0, q.1) {
            let present = match find_coord(frontier, q.0, q.1) {
                Some(_) => true,
                None => false,
            };
            proof {
                if present {
                    let i = choose|i: int| 0 <= i < frontier@.len() && frontier@[i] == q;
                }
                assert(present == frontier@.contains(q));
            }
            if !present {
                frontier.push(q);
            }
        }
        j += 1;
    }
    proof {
        assert(nbrs@.skip(n as int) =~= Seq::<(usize, usize)>::empty());
        let t = place(s_in, gw, gh, x as int, y as int);
        assert(frontier@ == t.frontier);
    }
}

/// Generates the canvas: assigns one seed color per seed coordinate, then
/// repeatedly places the next palette color at the frontier cell whose
/// already-placed neighbors it matches best (minimum average squared color
/// distance, earliest frontier entry on a tie), until the palette is
/// exhausted and every cell is filled.
///
/// The result is a function of the palette, the dimensions and the seeds
/// alone: two calls on identical inputs yield identical canvases.
pub fn generate(
    colors: Vec<Rgb>,
    width: usize,
    height: usize,
    seeds: Vec<(usize, usize)>,
) -> (img: Image<Rgb>)
    requires
        valid_inputs(colors@, width as int, height as int, seeds@),
    ensures
        img.wf(),
        img.spec_width() == width,
        img.spec_height() == height,
        img.pixels() == spec_generate(colors@, width as int, height as int, seeds@),
        img.pixels().to_multiset() == colors@.to_multiset(),
        forall|i: int|
            #![trigger seeds@[i]]
            0 <= i < seeds@.len() ==> img.at(seeds@[i].0 as int, seeds@[i].1 as int)
                == colors@[colors@.len() - 1 - i],
{
    let ghost gw = width as int;
    let ghost gh = height as int;
    let ghost colors0 = colors@;
    let ghost seeds0 = seeds@;
    let mut img = Image::new((0u8, 0u8, 0u8), width, height);
    let mut seen: Image<bool> = Image::new(false, width, height);
    let mut frontier: Vec<(usize, usize)> = Vec::new();
    let mut colors = colors;
    let ghost s0 = start_state(colors0, gw, gh);
    proof {
        lemma_start_state_inv(colors0, gw, gh);
        assert(img.pixels() =~= s0.canvas);
        assert(seen.pixels() =~= s0.seen);
        assert(frontier@ =~= s0.frontier);
        assert(cur_state(img, seen, frontier@, colors@) == s0);
        assert(seeds0.skip(0) =~= seeds0);
    }
    let ns = seeds.len();
    proof {
        assert forall|j: int| 0 <= j < ns implies !seen.pixels()[#[trigger] (seeds0[j].1 * gw
            + seeds0[j].0)] by {
            assert(in_grid(gw, gh, seeds0[j].0 as int, seeds0[j].1 as int));
            lemma_row_major_index(gw, gh, seeds0[j].0 as int, seeds0[j].1 as int);
        }
    }
    let mut si: usize = 0;
    while si < ns
        invariant
            si <= ns,
            ns == seeds0.len(),
            seeds@ == seeds0,
            img.wf(),
            seen.wf(),
            img.spec_width() == gw,
            seen.spec_width() == gw,
            img.spec_height() == gh,
            seen.spec_height() == gh,
            valid_inputs(colors0, gw, gh, seeds0),
            state_inv0(cur_state(img, seen, frontier@, colors@), gw, gh),
            mset_inv(cur_state(img, seen, frontier@, colors@), colors0),
            count_true(seen.pixels()) == si,
            forall|j: int|
                si <= j < ns ==> !seen.pixels()[#[trigger] (seeds0[j].1 * gw + seeds0[j].0)],
            seed_fold(cur_state(img, seen, frontier@, colors@), gw, gh, seeds0.skip(si as int))
                == seed_fold(s0, gw, gh, seeds0),
        decreases ns - si,
    {
        let p = seeds[si];
        let ghost prev = cur_state(img, seen, frontier@, colors@);
        proof {
            assert(p == seeds0[si as int]);
            assert(in_grid(gw, gh, p.0 as int, p.1 as int));
            lemma_row_major_index(gw, gh, p.0 as int, p.1 as int);
            assert(!seen.pixels()[p.1 * gw + p.0]);
            assert(colors@.len() >= 1) by {
                if colors@.len() == 0 {
                    lemma_count_true_full(seen.pixels());
                }
            }
        }
        place_step(&mut img, &mut seen, &mut frontier, &mut colors, p.0, p.1);
        proof {
            lemma_place_preserves(prev, gw, gh, p.0 as int, p.1 as int, colors0);
            let curn = cur_state(img, seen, frontier@, colors@);
            assert(curn == place(prev, gw, gh, p.0 as int, p.1 as int));
            assert forall|j: int| si + 1 <= j < ns implies !seen.pixels()[#[trigger] (seeds0[j].1
                * gw + seeds0[j].0)] by {
                let rx = seeds0[j].0 as int;
                let ry = seeds0[j].1 as int;
                lemma_row_major_index(gw, gh, rx, ry);
                assert(seeds0[j] != seeds0[si as int]);
                assert(ry * gw + rx != p.1 * gw + p.0) by {
                    if ry * gw + rx == p.1 * gw + p.0 {
                        lemma_row_major_injective(gw, gh, rx, ry, p.0 as int, p.1 as int);
                    }
                }
            }
            assert(seeds0.skip(si as int).first() == seeds0[si as int]);
            assert(seeds0.skip(si as int).drop_first() =~= seeds0.skip(si as int + 1));
            assert(seed_fold(curn, gw, gh, seeds0.skip(si as int + 1)) == seed_fold(
                prev,
                gw,
                gh,
                seeds0.skip(si as int),
            ));
        }
        si += 1;
    }
    let ghost s1 = seed_fold(s0, gw, gh, seeds0);
    proof {
        assert(seeds0.skip(ns as int) =~= Seq::<(usize, usize)>::empty());
        assert(cur_state(img, seen, frontier@, colors@) == s1);
        assert(state_inv(cur_state(img, seen, frontier@, colors@), gw, gh));
    }
    let ghost tfin = run(s1, gw, gh);
    while colors.len() > 0
        invariant
            img.wf(),
            seen.wf(),
            img.spec_width() == gw,
            seen.spec_width() == gw,
            img.spec_height() == gh,
            seen.spec_height() == gh,
            state_inv(cur_state(img, seen, frontier@, colors@), gw, gh),
            mset_inv(cur_state(img, seen, frontier@, colors@), colors0),
            run(cur_state(img, seen, frontier@, colors@), gw, gh) == tfin,
        decreases colors@.len(),
    {
        let ghost cur = cur_state(img, seen, frontier@, colors@);
        proof {
            lemma_frontier_nonempty(cur, gw, gh);
        }
        let c = colors[colors.len() - 1];
        let p0 = frontier[0];
        proof {
            assert(frontier@.contains(frontier@[0]));
            assert(in_grid(gw, gh, p0.0 as int, p0.1 as int));
            assert(has_visited_neighbor(seen.pixels(), gw, gh, p0.0 as int, p0.1 as int));
            assert(c == cur.colors.last());
        }
        let mut best: usize = 0;
        let mut best_score: i32 = score_of(&img, &seen, p0.0, p0.1, c);
        proof {
            assert(best_score == frontier_score(cur, gw, gh, 0));
            assert(best_in_prefix(cur, gw, gh, 1) == 0);
        }
        let fl = frontier.len();
        let mut i: usize = 1;
        while i < fl
            invariant
                1 <= i <= fl,
                fl == frontier@.len(),
                (best as int) < i,
                img.wf(),
                seen.wf(),
                img.spec_width() == gw,
                seen.spec_width() == gw,
                img.spec_height() == gh,
                seen.spec_height() == gh,
                cur == cur_state(img, seen, frontier@, colors@),
                state_inv(cur, gw, gh),
                colors@.len() >= 1,
                c == cur.colors.last(),
                best as int == best_in_prefix(cur, gw, gh, i as int),
                best_score == frontier_score(cur, gw, gh, best as int),
            decreases fl - i,
        {
            let q = frontier[i];
            proof {
                assert(frontier@.contains(frontier@[i as int]));
                assert(in_grid(gw, gh, q.0 as int, q.1 as int));
                assert(has_visited_neighbor(seen.pixels(), gw, gh, q.0 as int, q.1 as int));
            }
            let sc = score_of(&img, &seen, q.0, q.1, c);
            proof {
                assert(sc == frontier_score(cur, gw, gh, i as int));
            }
            if sc < best_score {
                best = i;
                best_score = sc;
            }
            i += 1;
        }
        let p = frontier[best];
        let ghost prev = cur;
        proof {
            assert(best as int == best_in_prefix(cur, gw, gh, frontier@.len() as int));
            assert(p == cur.frontier[best as int]);
            assert(frontier@.contains(frontier@[best as int]));
            assert(in_grid(gw, gh, p.0 as int, p.1 as int));
            lemma_row_major_index(gw, gh, p.0 as int, p.1 as int);
            assert(!seen.pixels()[p.1 * gw + p.0]);
        }
        place_step(&mut img, &mut seen, &mut frontier, &mut colors, p.0, p.1);
        proof {
            let curn = cur_state(img, seen, frontier@, colors@);
            assert(curn == place(prev, gw, gh, p.0 as int, p.1 as int));
            assert(curn == do_step(prev, gw, gh));
            lemma_step_preserves(prev, gw, gh, colors0);
            assert(run(prev, gw, gh) == run(curn, gw, gh));
        }
    }
    proof {
        let cur = cur_state(img, seen, frontier@, colors@);
        assert(run(cur, gw, gh) == cur);
        lemma_generation_completes(colors0, gw, gh, seeds0);
        assert(img.pixels() == spec_generate(colors0, gw, gh, seeds0));
        assert forall|i: int|
            #![trigger seeds0[i]]
            0 <= i < seeds0.len() implies img.at(seeds0[i].0 as int, seeds0[i].1 as int)
            == colors0[colors0.len() - 1 - i] by {
            assert(tfin.canvas[seeds0[i].1 * gw + seeds0[i].0] == colors0[colors0.len() - 1 - i]);
        }
    }
    img
}

} // verus!
