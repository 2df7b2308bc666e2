//! Hysteresis tracing: dual-threshold classification of a suppressed
//! magnitude field, then promotion of weak pixels 8-connected to a strong one.
use crate::grid::{idx, in_frame, lemma_coords, lemma_idx, offset};
use vstd::prelude::*;

verus! {

/// A pixel survives classification as Weak or Strong: it carries a nonzero
/// magnitude of at least `low`.
pub open spec fn is_candidate(v: u32, low: u64) -> bool {
    v > 0 && v >= low
}

/// A pixel is classified Strong: it carries a nonzero magnitude of at least `high`.
pub open spec fn is_strong(v: u32, high: u64) -> bool {
    v > 0 && v >= high
}

/// Two pixels are 8-connected neighbours (a pixel counts as its own neighbour).
pub open spec fn touches(a: (int, int), b: (int, int)) -> bool {
    -1 <= a.0 - b.0 <= 1 && -1 <= a.1 - b.1 <= 1
}

/// The magnitude that `field` holds at pixel `p`.
pub open spec fn value_at(field: Seq<u32>, w: int, p: (int, int)) -> u32 {
    field[idx(w, p.0, p.1)]
}

/// `t` is a chain of in-frame candidate pixels, each touching the next.
pub open spec fn is_chain(field: Seq<u32>, w: int, h: int, low: u64, t: Seq<(int, int)>) -> bool {
    &&& t.len() > 0
    &&& forall|k: int|
        #![trigger t[k]]
        0 <= k < t.len() ==> {
            &&& in_frame(w, h, t[k].0, t[k].1)
            &&& is_candidate(value_at(field, w, t[k]), low)
        }
    &&& forall|k: int| 0 <= k < t.len() - 1 ==> touches(#[trigger] t[k], t[k + 1])
}

/// Pixel `(x, y)` ends as an edge: some chain of candidates leads to it
/// from a Strong pixel.
pub open spec fn is_edge(field: Seq<u32>, w: int, h: int, low: u64, high: u64, x: int, y: int) -> bool {
    exists|t: Seq<(int, int)>|
        #[trigger] is_chain(field, w, h, low, t) && is_strong(value_at(field, w, t[0]), high)
            && t.last() == (x, y)
}

/// The final edge classification of a `w` by `h` magnitude field.
pub open spec fn edges_of(field: Seq<u32>, w: int, h: int, low: u64, high: u64) -> Seq<bool> {
    Seq::new((w * h) as nat, |i: int| is_edge(field, w, h, low, high, i % w, i / w))
}

/// Number of `true` entries.
pub open spec fn count_set(s: Seq<bool>) -> nat
    decreases s.len(),
{
    if s.len() == 0 {
        0
    } else {
        count_set(s.drop_last()) + if s.last() {
            1nat
        } else {
            0nat
        }
    }
}

proof fn lemma_count_bound(s: Seq<bool>)
    ensures
        count_set(s) <= s.len(),
    decreases s.len(),
{
    if s.len() > 0 {
        lemma_count_bound(s.drop_last());
    }
}

proof fn lemma_count_set_one(s: Seq<bool>, i: int)
    requires
        0 <= i < s.len(),
        !s[i],
    ensures
        count_set(s.update(i, true)) == count_set(s) + 1,
    decreases s.len(),
{
    let u = s.update(i, true);
    if i == s.len() - 1 {
        assert(u.drop_last() =~= s.drop_last());
    } else {
        assert(u.drop_last() =~= s.drop_last().update(i, true));
        lemma_count_set_one(s.drop_last(), i);
    }
}

/// Every candidate touching pixel `j` is marked.
pub open spec fn closed_at(field: Seq<u32>, w: int, h: int, low: u64, marked: Seq<bool>, j: int) -> bool {
    forall|x: int, y: int|
        in_frame(w, h, x, y) && touches((j % w, j / w), (x, y)) && is_candidate(
            field[idx(w, x, y)],
            low,
        ) ==> #[trigger] marked[idx(w, x, y)]
}

/// The last pixel of a chain that starts at a Strong pixel is marked, when
/// every Strong pixel is marked and every marked pixel is closed.
proof fn lemma_chain_marked(
    field: Seq<u32>,
    w: int,
    h: int,
    low: u64,
    high: u64,
    marked: Seq<bool>,
    t: Seq<(int, int)>,
)
    requires
        w >= 0,
        field.len() == w * h,
        marked.len() == w * h,
        is_chain(field, w, h, low, t),
        is_strong(value_at(field, w, t[0]), high),
        forall|j: int| 0 <= j < w * h && is_strong(field[j], high) ==> marked[j],
        forall|j: int| 0 <= j < w * h && #[trigger] marked[j] ==> closed_at(field, w, h, low, marked, j),
    ensures
        marked[idx(w, t.last().0, t.last().1)],
    decreases t.len(),
{
    let p = t.last();
    let n = t.len() - 1;
    assert(0 <= n < t.len());
    assert(in_frame(w, h, t[n].0, t[n].1) && is_candidate(value_at(field, w, t[n]), low));
    lemma_idx(w, h, p.0, p.1);
    if t.len() == 1 {
        lemma_idx(w, h, t[0].0, t[0].1);
    } else {
        let s = t.drop_last();
        assert(is_chain(field, w, h, low, s)) by {
            assert forall|k: int| 0 <= k < s.len() implies in_frame(w, h, s[k].0, s[k].1) && is_candidate(
                #[trigger] value_at(field, w, s[k]),
                low,
            ) by {
                assert(s[k] == t[k]);
                assert(value_at(field, w, t[k]) == value_at(field, w, s[k]));
            }
            assert forall|k: int| 0 <= k < s.len() - 1 implies touches(#[trigger] s[k], s[k + 1]) by {
                assert(s[k] == t[k] && s[k + 1] == t[k + 1]);
                assert(touches(t[k], t[k + 1]));
            }
        }
        lemma_chain_marked(field, w, h, low, high, marked, s);
        let q = s.last();
        lemma_idx(w, h, q.0, q.1);
        let j = idx(w, q.0, q.1);
        assert(touches(t[t.len() - 2], t[t.len() - 1]));
        assert(closed_at(field, w, h, low, marked, j));
        assert(marked[idx(w, p.0, p.1)]);
    }
}

/// Whether every Strong pixel of `field` is marked.
spec fn strong_marked(field: Seq<u32>, high: u64, marked: Seq<bool>) -> bool {
    forall|j: int| 0 <= j < field.len() && is_strong(field[j], high) ==> marked[j]
}

/// Whether every marked pixel is an edge.
spec fn marks_sound(field: Seq<u32>, w: int, h: int, low: u64, high: u64, marked: Seq<bool>) -> bool {
    forall|j: int| 0 <= j < w * h && #[trigger] marked[j] ==> is_edge(field, w, h, low, high, j % w, j / w)
}

/// Whether every marked pixel that is not waiting on the worklist, nor
/// `skip`, has all its touching candidates marked.
spec fn marks_closed(
    field: Seq<u32>,
    w: int,
    h: int,
    low: u64,
    marked: Seq<bool>,
    work: Seq<usize>,
    skip: int,
) -> bool {
    forall|j: int|
        0 <= j < w * h && #[trigger] marked[j] && !work.contains(j as usize) && j != skip
            ==> closed_at(field, w, h, low, marked, j)
}

/// Whether every worklist entry is a marked pixel index.
spec fn work_marked(w: int, h: int, marked: Seq<bool>, work: Seq<usize>) -> bool {
    forall|k: int| 0 <= k < work.len() ==> #[trigger] work[k] < w * h && marked[work[k] as int]
}

/// Marks pixel `(x, y)` when it is an unmarked candidate touching the edge
/// pixel `(cx, cy)`, and queues it.
fn visit(
    field: &Vec<u32>,
    w: usize,
    h: usize,
    low: u64,
    Ghost(high): Ghost<u64>,
    marked: &mut Vec<bool>,
    work: &mut Vec<usize>,
    cx: usize,
    cy: usize,
    x: usize,
    y: usize,
)
    requires
        w * h <= usize::MAX,
        field@.len() == w * h,
        old(marked)@.len() == w * h,
        in_frame(w as int, h as int, x as int, y as int),
        in_frame(w as int, h as int, cx as int, cy as int),
        touches((cx as int, cy as int), (x as int, y as int)),
        is_edge(field@, w as int, h as int, low, high, cx as int, cy as int),
        marks_sound(field@, w as int, h as int, low, high, old(marked)@),
        work_marked(w as int, h as int, old(marked)@, old(work)@),
    ensures
        final(marked)@.len() == w * h,
        marks_sound(field@, w as int, h as int, low, high, final(marked)@),
        work_marked(w as int, h as int, final(marked)@, final(work)@),
        is_candidate(field@[idx(w as int, x as int, y as int)], low) ==> final(marked)@[idx(
            w as int,
            x as int,
            y as int,
        )],
        forall|j: int| 0 <= j < w * h && old(marked)@[j] ==> final(marked)@[j],
        forall|j: int|
            0 <= j < w * h && final(marked)@[j] && !old(marked)@[j] ==> final(work)@.contains(j as usize),
        forall|j: usize| old(work)@.contains(j) ==> final(work)@.contains(j),
        2 * (w * h - count_set(final(marked)@)) + final(work)@.len() <= 2 * (w * h - count_set(
            old(marked)@,
        )) + old(work)@.len(),
        count_set(final(marked)@) <= w * h,
{
    proof {
        lemma_count_bound(marked@);
    }
    let j = offset(w, h, x, y);
    let v = field[j];
    if v > 0 && v as u64 >= low && !marked[j] {
        proof {
            lemma_idx(w as int, h as int, x as int, y as int);
            lemma_idx(w as int, h as int, cx as int, cy as int);
            let t = choose|t: Seq<(int, int)>|
                #[trigger] is_chain(field@, w as int, h as int, low, t) && is_strong(
                    value_at(field@, w as int, t[0]),
                    high,
                ) && t.last() == (cx as int, cy as int);
            let t2 = t.push((x as int, y as int));
            assert(is_chain(field@, w as int, h as int, low, t2)) by {
                assert forall|k: int| 0 <= k < t2.len() implies in_frame(
                    w as int,
                    h as int,
                    t2[k].0,
                    t2[k].1,
                ) && is_candidate(#[trigger] value_at(field@, w as int, t2[k]), low) by {
                    if k < t.len() {
                        assert(t2[k] == t[k]);
                        assert(value_at(field@, w as int, t[k]) == value_at(field@, w as int, t2[k]));
                    }
                }
                assert forall|k: int| 0 <= k < t2.len() - 1 implies touches(#[trigger] t2[k], t2[k + 1]) by {
                    if k < t.len() - 1 {
                        assert(t2[k] == t[k] && t2[k + 1] == t[k + 1]);
                        assert(touches(t[k], t[k + 1]));
                    }
                }
            }
            assert(t2[0] == t[0]);
            assert(is_edge(field@, w as int, h as int, low, high, x as int, y as int));
            lemma_count_set_one(marked@, j as int);
        }
        marked.set(j, true);
        work.push(j);
        proof {
            lemma_count_bound(marked@);
            assert forall|k: int| 0 <= k < work@.len() implies #[trigger] work@[k] < w * h && marked@[work@[k] as int] by {
                if k < work@.len() - 1 {
                    assert(work@[k] == old(work)@[k]);
                }
            }
            assert forall|i: usize| old(work)@.contains(i) implies work@.contains(i) by {
                let k = choose|k: int| 0 <= k < old(work)@.len() && old(work)@[k] == i;
                assert(work@[k] == i);
            }
            assert(work@[work@.len() - 1] == j);
        }
    }
}

/// Classifies every pixel of a `width` by `height` magnitude field as
/// Strong (nonzero, at least `high`), Weak (nonzero, at least `low`) or
/// NonEdge, then promotes each Weak pixel 8-connected through Weak pixels to
/// a Strong one. The result holds `true` exactly at the promoted and Strong
/// pixels: it does not depend on the order in which pixels are visited.
pub fn hysteresis(field: &Vec<u32>, width: usize, height: usize, low: u64, high: u64) -> (r: Vec<bool>)
    requires
        field@.len() == width * height,
        low <= high,
    ensures
        r@ == edges_of(field@, width as int, height as int, low, high),
        r@.len() == width * height,
        forall|i: int| 0 <= i < r@.len() && is_strong(#[trigger] field@[i], high) ==> r@[i],
{
    let n: usize = field.len();
    let ghost w = width as int;
    let ghost h = height as int;
    let mut marked: Vec<bool> = Vec::with_capacity(n);
    let mut work: Vec<usize> = Vec::new();
    for i in 0..n
        invariant
            n == w * h,
            w == width,
            h == height,
            field@.len() == n,
            low <= high,
            marked@.len() == i,
            forall|j: int| 0 <= j < i ==> marked@[j] == is_strong(#[trigger] field@[j], high),
            forall|k: int| 0 <= k < work@.len() ==> #[trigger] work@[k] < i && marked@[work@[k] as int],
            forall|j: int| 0 <= j < i && #[trigger] marked@[j] ==> work@.contains(j as usize),
            forall|j: int|
                0 <= j < i && #[trigger] marked@[j] ==> is_edge(field@, w, h, low, high, j % w, j / w),
    {
        let ghost w0 = work@;
        let ghost m0 = marked@;
        let v = field[i];
        let strong = v > 0 && v as u64 >= high;
        marked.push(strong);
        if strong {
            work.push(i);
            proof {
                lemma_coords(w, h, i as int);
                let t = seq![(i as int % w, i as int / w)];
                assert(value_at(field@, w, t[0]) == field@[i as int]);
                assert(is_chain(field@, w, h, low, t));
            }
        }
        proof {
            assert forall|k: int| 0 <= k < work@.len() implies #[trigger] work@[k] < i + 1 && marked@[work@[k] as int] by {
                if k < w0.len() {
                    assert(work@[k] == w0[k]);
                }
            }
            assert forall|j: int| 0 <= j < i + 1 && #[trigger] marked@[j] implies work@.contains(j as usize) by {
                if j == i {
                    assert(work@[work@.len() - 1] == i);
                } else {
                    assert(marked@[j] == m0[j]);
                    assert(w0.contains(j as usize));
                    let k = choose|k: int| 0 <= k < w0.len() && w0[k] == j as usize;
                    assert(work@[k] == w0[k]);
                }
            }
        }
    }
    proof {
        assert forall|j: int| 0 <= j < w * h && #[trigger] marked@[j] && !work@.contains(j as usize) && j != -1
            implies closed_at(field@, w, h, low, marked@, j) by {}
        lemma_count_bound(marked@);
    }
    while work.len() > 0
        invariant
            n == w * h,
            w == width,
            h == height,
            field@.len() == n,
            marked@.len() == n,
            strong_marked(field@, high, marked@),
            marks_sound(field@, w, h, low, high, marked@),
            work_marked(w, h, marked@, work@),
            marks_closed(field@, w, h, low, marked@, work@, -1),
            count_set(marked@) <= n,
        decreases 2 * (n - count_set(marked@)) + work@.len(),
    {
        let ghost measure = 2 * (n - count_set(marked@)) + work@.len();
        let ghost w0 = work@;
        let j = work.pop().unwrap();
        proof {
            assert(w0[w0.len() - 1] == j);
            assert(w0 =~= work@.push(j));
            assert forall|k: int| 0 <= k < work@.len() implies #[trigger] work@[k] < w * h && marked@[work@[k] as int] by {
                assert(work@[k] == w0[k]);
            }
            assert forall|i: int| 0 <= i < w * h && #[trigger] marked@[i] && !work@.contains(i as usize) && i != j
                implies closed_at(field@, w, h, low, marked@, i) by {
                if w0.contains(i as usize) {
                    let k = choose|k: int| 0 <= k < w0.len() && w0[k] == i as usize;
                    assert(k < w0.len() - 1);
                    assert(work@[k] == w0[k]);
                }
            }
            lemma_coords(w, h, j as int);
            assert(w0[w0.len() - 1] < w * h);
        }
        let x = j % width;
        let y = j / width;
        for dy in 0..3usize
            invariant
                n == w * h,
                w == width,
                h == height,
                field@.len() == n,
                marked@.len() == n,
                x == j as int % w,
                y == j as int / w,
                in_frame(w, h, x as int, y as int),
                idx(w, x as int, y as int) == j,
                j < n,
                marked@[j as int],
                strong_marked(field@, high, marked@),
                marks_sound(field@, w, h, low, high, marked@),
                work_marked(w, h, marked@, work@),
                marks_closed(field@, w, h, low, marked@, work@, j as int),
                count_set(marked@) <= n,
                2 * (n - count_set(marked@)) + work@.len() < measure,
                forall|nx: int, ny: int|
                    in_frame(w, h, nx, ny) && touches((x as int, y as int), (nx, ny)) && ny < y - 1 + dy
                        && is_candidate(field@[idx(w, nx, ny)], low) ==> #[trigger] marked@[idx(w, nx, ny)],
        {
            for dx in 0..3usize
                invariant
                    n == w * h,
                    w == width,
                    h == height,
                    field@.len() == n,
                    marked@.len() == n,
                    x == j as int % w,
                    y == j as int / w,
                    dy < 3,
                    in_frame(w, h, x as int, y as int),
                    idx(w, x as int, y as int) == j,
                    j < n,
                    marked@[j as int],
                    strong_marked(field@, high, marked@),
                    marks_sound(field@, w, h, low, high, marked@),
                    work_marked(w, h, marked@, work@),
                    marks_closed(field@, w, h, low, marked@, work@, j as int),
                    count_set(marked@) <= n,
                    2 * (n - count_set(marked@)) + work@.len() < measure,
                    forall|nx: int, ny: int|
                        in_frame(w, h, nx, ny) && touches((x as int, y as int), (nx, ny)) && (ny < y - 1 + dy || (
                        ny == y - 1 + dy && nx < x - 1 + dx)) && is_candidate(field@[idx(w, nx, ny)], low)
                            ==> #[trigger] marked@[idx(w, nx, ny)],
            {
                let ok_x = if dx == 0 {
                    x > 0
                } else if dx == 1 {
                    true
                } else {
                    x + 1 < width
                };
                let ok_y = if dy == 0 {
                    y > 0
                } else if dy == 1 {
                    true
                } else {
                    y + 1 < height
                };
                if ok_x && ok_y {
                    let ghost m0 = marked@;
                    let ghost k0 = work@;
                    proof {
                        assert(marked@[j as int]);
                        assert(is_edge(field@, w, h, low, high, j as int % w, j as int / w));
                        assert(is_edge(field@, w, h, low, high, x as int, y as int));
                    }
                    visit(field, width, height, low, Ghost(high), &mut marked, &mut work, x, y, x + dx - 1, y + dy - 1);
                    proof {
                        assert forall|i: int| 0 <= i < w * h && #[trigger] marked@[i] && !work@.contains(i as usize) && i != j
                            implies closed_at(field@, w, h, low, marked@, i) by {
                            assert(m0[i]);
                            assert(!k0.contains(i as usize));
                            assert(closed_at(field@, w, h, low, m0, i));
                            assert forall|px: int, py: int|
                                in_frame(w, h, px, py) && touches((i % w, i / w), (px, py)) && is_candidate(
                                    field@[idx(w, px, py)],
                                    low,
                                ) implies #[trigger] marked@[idx(w, px, py)] by {
                                lemma_idx(w, h, px, py);
                                assert(m0[idx(w, px, py)]);
                            }
                        }
                    }
                }
                proof {
                    assert forall|nx: int, ny: int|
                        in_frame(w, h, nx, ny) && touches((x as int, y as int), (nx, ny)) && (ny < y - 1 + dy || (
                        ny == y - 1 + dy && nx < x - 1 + dx + 1)) && is_candidate(field@[idx(w, nx, ny)], low)
                            implies #[trigger] marked@[idx(w, nx, ny)] by {
                        lemma_idx(w, h, nx, ny);
                    }
                }
            }
        }
        proof {
            assert(closed_at(field@, w, h, low, marked@, j as int));
        }
    }
    proof {
        assert forall|i: int| 0 <= i < n implies marked@[i] == is_edge(field@, w, h, low, high, i % w, i / w) by {
            lemma_coords(w, h, i);
            if is_edge(field@, w, h, low, high, i % w, i / w) {
                let t = choose|t: Seq<(int, int)>|
                    #[trigger] is_chain(field@, w, h, low, t) && is_strong(value_at(field@, w, t[0]), high)
                        && t.last() == (i % w, i / w);
                lemma_chain_marked(field@, w, h, low, high, marked@, t);
            }
        }
        assert(marked@ =~= edges_of(field@, w, h, low, high));
    }
    marked
}

} // verus!
