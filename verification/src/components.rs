//! Connected text regions of a thresholded detection map: the islands of
//! foreground pixels (4-connected), each with its pixel count and bounding
//! box, in the order in which a row-major scan first meets them.

use vstd::prelude::*;

verus! {

broadcast use vstd::set::group_set_axioms;

/// Row-major index of pixel `p` in a grid `w` pixels wide.
pub open spec fn lin(w: int, p: (int, int)) -> int {
    p.1 * w + p.0
}

pub open spec fn in_grid(w: int, h: int, p: (int, int)) -> bool {
    0 <= p.0 < w && 0 <= p.1 < h
}

/// A foreground pixel of the mask.
pub open spec fn fg(mask: Seq<bool>, w: int, h: int, p: (int, int)) -> bool {
    in_grid(w, h, p) && mask[lin(w, p)]
}

/// Horizontal or vertical neighbours.
pub open spec fn adjacent(a: (int, int), b: (int, int)) -> bool {
    ||| a.1 == b.1 && (a.0 == b.0 + 1 || b.0 == a.0 + 1)
    ||| a.0 == b.0 && (a.1 == b.1 + 1 || b.1 == a.1 + 1)
}

/// Row-major scan order: `a` comes before `b`.
pub open spec fn before(a: (int, int), b: (int, int)) -> bool {
    a.1 < b.1 || (a.1 == b.1 && a.0 < b.0)
}

/// The scan at `cur` has passed `p`.
pub open spec fn scanned(cur: (int, int), p: (int, int)) -> bool {
    before(p, cur)
}

/// A set that contains every foreground neighbour of its members.
pub open spec fn closed_region(mask: Seq<bool>, w: int, h: int, r: Set<(int, int)>) -> bool {
    forall|a: (int, int), b: (int, int)|
        #![trigger r.contains(a), adjacent(a, b)]
        r.contains(a) && adjacent(a, b) && fg(mask, w, h, b) ==> r.contains(b)
}

/// The island of `s`: the smallest closed set containing `s`, i.e. the
/// pixels reached from `s` by steps between adjacent foreground pixels.
#[verifier::opaque]
pub open spec fn component(mask: Seq<bool>, w: int, h: int, s: (int, int)) -> Set<(int, int)> {
    Set::new(
        |t: (int, int)|
            forall|r: Set<(int, int)>| #[trigger] closed_region(mask, w, h, r) && r.contains(s) ==> r.contains(t),
    )
}

/// The pixel at which the scan first meets its island: a foreground pixel
/// that no earlier foreground pixel reaches.
pub open spec fn is_seed(mask: Seq<bool>, w: int, h: int, s: (int, int)) -> bool {
    &&& fg(mask, w, h, s)
    &&& forall|t: (int, int)| #[trigger] fg(mask, w, h, t) && before(t, s) ==> !component(mask, w, h, t).contains(s)
}

/// One island: the pixel the scan met first, the pixel count and the
/// inclusive bounding box.
pub struct PixelComponent {
    pub seed_x: usize,
    pub seed_y: usize,
    pub count: usize,
    pub min_x: usize,
    pub min_y: usize,
    pub max_x: usize,
    pub max_y: usize,
}

pub open spec fn seed_of(c: PixelComponent) -> (int, int) {
    (c.seed_x as int, c.seed_y as int)
}

/// The bounding box and count of `c` are those of the pixel set `r`.
pub open spec fn summarizes(c: PixelComponent, r: Set<(int, int)>) -> bool {
    &&& c.count == r.len()
    &&& forall|p: (int, int)| #[trigger] r.contains(p) ==> c.min_x <= p.0 <= c.max_x && c.min_y <= p.1 <= c.max_y
    &&& exists|p: (int, int)| #[trigger] r.contains(p) && p.0 == c.min_x
    &&& exists|p: (int, int)| #[trigger] r.contains(p) && p.0 == c.max_x
    &&& exists|p: (int, int)| #[trigger] r.contains(p) && p.1 == c.min_y
    &&& exists|p: (int, int)| #[trigger] r.contains(p) && p.1 == c.max_y
}

/// `c` is the island met at its seed.
pub open spec fn describes(mask: Seq<bool>, w: int, h: int, c: PixelComponent) -> bool {
    &&& is_seed(mask, w, h, seed_of(c))
    &&& summarizes(c, component(mask, w, h, seed_of(c)))
}

proof fn lemma_lin(w: int, h: int, p: (int, int), q: (int, int))
    requires
        in_grid(w, h, p),
        in_grid(w, h, q),
    ensures
        0 <= lin(w, p) < w * h,
        lin(w, p) == lin(w, q) ==> p == q,
{
    assert(0 <= p.1 * w) by (nonlinear_arith)
        requires
            0 <= p.1,
            0 <= w,
    ;
    assert(p.1 * w + p.0 < w * h) by (nonlinear_arith)
        requires
            0 <= p.0 < w,
            0 <= p.1 < h,
    ;
    if p.1 < q.1 {
        assert(p.1 * w + p.0 < q.1 * w + q.0) by (nonlinear_arith)
            requires
                0 <= p.0 < w,
                0 <= q.0,
                p.1 < q.1,
        ;
    } else if q.1 < p.1 {
        assert(q.1 * w + q.0 < p.1 * w + p.0) by (nonlinear_arith)
            requires
                0 <= q.0 < w,
                0 <= p.0,
                q.1 < p.1,
        ;
    }
}

/// Indices of distinct grid pixels differ.
proof fn lemma_lin_all(w: int, h: int, q: (int, int))
    requires
        in_grid(w, h, q),
    ensures
        0 <= lin(w, q) < w * h,
        forall|p: (int, int)| in_grid(w, h, p) && p != q ==> #[trigger] lin(w, p) != lin(w, q),
{
    lemma_lin(w, h, q, q);
    assert forall|p: (int, int)| in_grid(w, h, p) && p != q implies #[trigger] lin(w, p) != lin(w, q) by {
        lemma_lin(w, h, p, q);
    }
}

fn idx(w: usize, h: usize, x: usize, y: usize) -> (i: usize)
    requires
        x < w,
        y < h,
        w * h <= usize::MAX,
    ensures
        i == lin(w as int, (x as int, y as int)),
        i < w * h,
{
    proof {
        lemma_lin(w as int, h as int, (x as int, y as int), (x as int, y as int));
    }
    assert(y * w <= w * h) by (nonlinear_arith)
        requires
            y < h,
    ;
    y * w + x
}

/// An island contains the foreground neighbours of its members.
proof fn lemma_component_step(mask: Seq<bool>, w: int, h: int, s: (int, int), m: (int, int), b: (int, int))
    requires
        component(mask, w, h, s).contains(m),
        adjacent(m, b),
        fg(mask, w, h, b),
    ensures
        component(mask, w, h, s).contains(b),
{
    reveal(component);
    assert forall|r: Set<(int, int)>| #[trigger] closed_region(mask, w, h, r) && r.contains(s) implies r.contains(b) by {
        assert(r.contains(m));
    }
}

/// Every pixel lies in its own island.
proof fn lemma_component_has_seed(mask: Seq<bool>, w: int, h: int, s: (int, int))
    ensures
        component(mask, w, h, s).contains(s),
{
    reveal(component);
}

/// A closed set holding `s` holds its whole island.
proof fn lemma_component_within(mask: Seq<bool>, w: int, h: int, s: (int, int), r: Set<(int, int)>)
    requires
        closed_region(mask, w, h, r),
        r.contains(s),
    ensures
        component(mask, w, h, s).subset_of(r),
{
    reveal(component);
    assert forall|t: (int, int)| component(mask, w, h, s).contains(t) implies r.contains(t) by {
        assert(closed_region(mask, w, h, r));
    }
}

pub open spec fn stack_px(stack: Seq<(usize, usize)>) -> Seq<(int, int)> {
    stack.map_values(|e: (usize, usize)| (e.0 as int, e.1 as int))
}

/// State of one flood fill from `s` over pixels not yet taken (`v_old`).
pub open spec fn flood_inv(
    mask: Seq<bool>,
    w: int,
    h: int,
    s: (int, int),
    v_old: Set<(int, int)>,
    visited: Seq<bool>,
    stack: Seq<(usize, usize)>,
    mset: Set<(int, int)>,
) -> bool {
    &&& visited.len() == w * h
    &&& mset.finite()
    &&& mset.contains(s)
    &&& forall|p: (int, int)| #[trigger] mset.contains(p) ==> fg(mask, w, h, p) && !v_old.contains(p) && component(mask, w, h, s).contains(p)
    &&& forall|p: (int, int)| in_grid(w, h, p) ==> (visited[#[trigger] lin(w, p)] <==> (v_old.contains(p) || mset.contains(p)))
    &&& stack_px(stack).no_duplicates()
    &&& forall|j: int| 0 <= j < stack.len() ==> mset.contains(#[trigger] stack_px(stack)[j])
}

/// Takes the neighbour `(nx, ny)` of the member `m` into the fill when it is
/// an untaken foreground pixel.
fn visit_neighbor(
    mask: &Vec<bool>,
    visited: &mut Vec<bool>,
    stack: &mut Vec<(usize, usize)>,
    w: usize,
    h: usize,
    nx: usize,
    ny: usize,
    Ghost(s): Ghost<(int, int)>,
    Ghost(v_old): Ghost<Set<(int, int)>>,
    Ghost(mset): Ghost<Set<(int, int)>>,
    Ghost(m): Ghost<(int, int)>,
) -> (r: Ghost<Set<(int, int)>>)
    requires
        mask@.len() >= w * h,
        w * h <= usize::MAX,
        nx < w,
        ny < h,
        mset.contains(m),
        adjacent(m, (nx as int, ny as int)),
        flood_inv(mask@, w as int, h as int, s, v_old, old(visited)@, old(stack)@, mset),
    ensures
        flood_inv(mask@, w as int, h as int, s, v_old, final(visited)@, final(stack)@, r@),
        mset.subset_of(r@),
        fg(mask@, w as int, h as int, (nx as int, ny as int)) ==> r@.contains((nx as int, ny as int)) || v_old.contains((nx as int, ny as int)),
        r@.len() - final(stack)@.len() == mset.len() - old(stack)@.len(),
        forall|p: (int, int)| (#[trigger] r@.contains(p) && !stack_px(final(stack)@).contains(p)) <==> (mset.contains(p) && !stack_px(old(stack)@).contains(p)),
{
    let ghost nb = (nx as int, ny as int);
    let i = idx(w, h, nx, ny);
    proof {
        lemma_lin_all(w as int, h as int, nb);
    }
    if !visited[i] && mask[i] {
        let ghost old_stack = stack@;
        visited.set(i, true);
        stack.push((nx, ny));
        proof {
            assert(fg(mask@, w as int, h as int, nb));
            assert(!mset.contains(nb));
            assert(!v_old.contains(nb));
            lemma_component_step(mask@, w as int, h as int, s, m, nb);
            let ms = mset.insert(nb);
            assert(stack_px(stack@) =~= stack_px(old_stack).push(nb));
            assert(!stack_px(old_stack).contains(nb)) by {
                if stack_px(old_stack).contains(nb) {
                    let j = choose|j: int| 0 <= j < old_stack.len() && stack_px(old_stack)[j] == nb;
                    assert(mset.contains(stack_px(old_stack)[j]));
                }
            }
            assert forall|a: int, b: int| 0 <= a < stack@.len() && 0 <= b < stack@.len() && a != b implies stack_px(stack@)[a] != stack_px(stack@)[b] by {
                if a == old_stack.len() {
                    assert(stack_px(stack@)[b] == stack_px(old_stack)[b]);
                } else if b == old_stack.len() {
                    assert(stack_px(stack@)[a] == stack_px(old_stack)[a]);
                } else {
                    assert(stack_px(stack@)[a] == stack_px(old_stack)[a]);
                    assert(stack_px(stack@)[b] == stack_px(old_stack)[b]);
                }
            }
            assert forall|j: int| 0 <= j < stack@.len() implies ms.contains(#[trigger] stack_px(stack@)[j]) by {
                if j < old_stack.len() {
                    assert(stack_px(stack@)[j] == stack_px(old_stack)[j]);
                    assert(mset.contains(stack_px(old_stack)[j]));
                }
            }
            assert forall|p: (int, int)| in_grid(w as int, h as int, p) implies (visited@[#[trigger] lin(w as int, p)] <==> (v_old.contains(p) || ms.contains(p))) by {
                lemma_lin(w as int, h as int, p, p);
                if p != nb {
                    assert(lin(w as int, p) != lin(w as int, nb));
                }
            }
            assert forall|p: (int, int)| (#[trigger] ms.contains(p) && !stack_px(stack@).contains(p)) <==> (mset.contains(p) && !stack_px(old_stack).contains(p)) by {
                if p == nb {
                    assert(stack_px(stack@)[old_stack.len() as int] == nb);
                } else {
                    if stack_px(old_stack).contains(p) {
                        let j = choose|j: int| 0 <= j < old_stack.len() && stack_px(old_stack)[j] == p;
                        assert(stack_px(stack@)[j] == p);
                    }
                    if stack_px(stack@).contains(p) {
                        let j = choose|j: int| 0 <= j < stack@.len() && stack_px(stack@)[j] == p;
                        assert(j < old_stack.len());
                        assert(stack_px(old_stack)[j] == p);
                    }
                }
            }
            assert(ms.len() == mset.len() + 1);
        }
        Ghost(mset.insert(nb))
    } else {
        proof {
            if fg(mask@, w as int, h as int, nb) {
                assert(visited@[lin(w as int, nb)]);
            }
        }
        Ghost(mset)
    }
}

/// Flood fill from the untaken foreground pixel `(sx, sy)`: marks its whole
/// island as taken and returns its count and bounding box.
fn flood(
    mask: &Vec<bool>,
    visited: &mut Vec<bool>,
    w: usize,
    h: usize,
    sx: usize,
    sy: usize,
    Ghost(v_old): Ghost<Set<(int, int)>>,
) -> (c: PixelComponent)
    requires
        mask@.len() >= w * h,
        w * h <= usize::MAX,
        sx < w,
        sy < h,
        old(visited)@.len() == w * h,
        fg(mask@, w as int, h as int, (sx as int, sy as int)),
        !v_old.contains((sx as int, sy as int)),
        closed_region(mask@, w as int, h as int, v_old),
        forall|p: (int, int)| in_grid(w as int, h as int, p) ==> (old(visited)@[#[trigger] lin(w as int, p)] <==> v_old.contains(p)),
    ensures
        final(visited)@.len() == w * h,
        seed_of(c) == (sx as int, sy as int),
        summarizes(c, component(mask@, w as int, h as int, (sx as int, sy as int))),
        component(mask@, w as int, h as int, (sx as int, sy as int)).finite(),
        closed_region(mask@, w as int, h as int, component(mask@, w as int, h as int, (sx as int, sy as int))),
        forall|p: (int, int)| #[trigger] component(mask@, w as int, h as int, (sx as int, sy as int)).contains(p)
            ==> fg(mask@, w as int, h as int, p) && !v_old.contains(p),
        forall|p: (int, int)| in_grid(w as int, h as int, p) ==> (final(visited)@[#[trigger] lin(w as int, p)]
            <==> (v_old.contains(p) || component(mask@, w as int, h as int, (sx as int, sy as int)).contains(p))),
{
    let ghost s = (sx as int, sy as int);
    let ghost wi = w as int;
    let ghost hi = h as int;
    let i = idx(w, h, sx, sy);
    proof {
        lemma_lin_all(wi, hi, s);
    }
    visited.set(i, true);
    let mut stack: Vec<(usize, usize)> = Vec::new();
    stack.push((sx, sy));
    let ghost mut mset: Set<(int, int)> = Set::empty().insert(s);
    proof {
        lemma_component_has_seed(mask@, wi, hi, s);
        assert(stack_px(stack@) =~= seq![s]);
        assert forall|p: (int, int)| in_grid(wi, hi, p) implies (visited@[#[trigger] lin(wi, p)] <==> (v_old.contains(p) || mset.contains(p))) by {
            lemma_lin(wi, hi, p, p);
            if p != s {
                assert(lin(wi, p) != lin(wi, s));
            }
        }
        assert(mset.len() == 1);
        assert(stack_px(stack@)[0] == s);
        assert(stack_px(stack@).contains(s));
    }
    let mut count: usize = 0;
    let mut min_x = sx;
    let mut min_y = sy;
    let mut max_x = sx;
    let mut max_y = sy;
    while stack.len() > 0
        invariant
            mask@.len() >= w * h,
            w * h <= usize::MAX,
            wi == w,
            hi == h,
            s == (sx as int, sy as int),
            sx < w,
            sy < h,
            closed_region(mask@, wi, hi, v_old),
            flood_inv(mask@, wi, hi, s, v_old, visited@, stack@, mset),
            count == mset.len() - stack@.len(),
            forall|a: (int, int), b: (int, int)|
                #![trigger mset.contains(a), adjacent(a, b)]
                mset.contains(a) && !stack_px(stack@).contains(a) && adjacent(a, b) && fg(mask@, wi, hi, b) ==> mset.contains(b),
            count == 0 ==> min_x == sx && max_x == sx && min_y == sy && max_y == sy,
            count == 0 ==> stack_px(stack@) == seq![s] && mset == Set::<(int, int)>::empty().insert(s),
            count > 0 ==> {
                &&& forall|p: (int, int)| #[trigger] mset.contains(p) && !stack_px(stack@).contains(p) ==> min_x <= p.0 <= max_x && min_y <= p.1 <= max_y
                &&& exists|p: (int, int)| #[trigger] mset.contains(p) && !stack_px(stack@).contains(p) && p.0 == min_x
                &&& exists|p: (int, int)| #[trigger] mset.contains(p) && !stack_px(stack@).contains(p) && p.0 == max_x
                &&& exists|p: (int, int)| #[trigger] mset.contains(p) && !stack_px(stack@).contains(p) && p.1 == min_y
                &&& exists|p: (int, int)| #[trigger] mset.contains(p) && !stack_px(stack@).contains(p) && p.1 == max_y
            },
        decreases w * h - (mset.len() - stack@.len()),
    {
        let ghost st0 = stack@;
        let (cx, cy) = stack.pop().unwrap();
        let ghost m = (cx as int, cy as int);
        let ghost st1 = stack@;
        proof {
            assert(st1 =~= st0.drop_last());
            assert(stack_px(st0)[st0.len() - 1] == m);
            assert(mset.contains(m));
            assert(stack_px(st1) =~= stack_px(st0).drop_last());
            assert(!stack_px(st1).contains(m)) by {
                if stack_px(st1).contains(m) {
                    let j = choose|j: int| 0 <= j < st1.len() && stack_px(st1)[j] == m;
                    assert(stack_px(st0)[j] == m);
                }
            }
            assert forall|p: (int, int)| stack_px(st1).contains(p) implies stack_px(st0).contains(p) by {
                let j = choose|j: int| 0 <= j < st1.len() && stack_px(st1)[j] == p;
                assert(stack_px(st0)[j] == p);
            }
            assert forall|p: (int, int)| #[trigger] mset.contains(p) && !stack_px(st1).contains(p) && p != m implies !stack_px(st0).contains(p) by {
                if stack_px(st0).contains(p) {
                    let j = choose|j: int| 0 <= j < st0.len() && stack_px(st0)[j] == p;
                    assert(j != st0.len() - 1);
                    assert(stack_px(st1)[j] == p);
                }
            }
            lemma_grid_set_len(wi, hi, mset);
        }
        let ghost c0 = count;
        let ghost (ominx, ominy, omaxx, omaxy) = (min_x, min_y, max_x, max_y);
        count += 1;
        if cx < min_x { min_x = cx; }
        if cx > max_x { max_x = cx; }
        if cy < min_y { min_y = cy; }
        if cy > max_y { max_y = cy; }
        let ghost m0 = mset;
        let ghost st_after_pop = stack@;
        if cx > 0 {
            let Ghost(ns) = visit_neighbor(mask, visited, &mut stack, w, h, cx - 1, cy, Ghost(s), Ghost(v_old), Ghost(mset), Ghost(m));
            proof { mset = ns; }
        }
        let ghost m1 = mset;
        let ghost st_1 = stack@;
        if cx + 1 < w {
            let Ghost(ns) = visit_neighbor(mask, visited, &mut stack, w, h, cx + 1, cy, Ghost(s), Ghost(v_old), Ghost(mset), Ghost(m));
            proof { mset = ns; }
        }
        let ghost m2 = mset;
        let ghost st_2 = stack@;
        if cy > 0 {
            let Ghost(ns) = visit_neighbor(mask, visited, &mut stack, w, h, cx, cy - 1, Ghost(s), Ghost(v_old), Ghost(mset), Ghost(m));
            proof { mset = ns; }
        }
        let ghost m3 = mset;
        let ghost st_3 = stack@;
        if cy + 1 < h {
            let Ghost(ns) = visit_neighbor(mask, visited, &mut stack, w, h, cx, cy + 1, Ghost(s), Ghost(v_old), Ghost(mset), Ghost(m));
            proof { mset = ns; }
        }
        proof {
            // processed members: those of before the pop, plus m
            assert forall|p: (int, int)| (#[trigger] mset.contains(p) && !stack_px(stack@).contains(p)) <==> ((m0.contains(p) && !stack_px(st0).contains(p)) || p == m) by {
                if p == m {
                    assert(m0.contains(m));
                }
            }
            // every foreground neighbour of m is now a member
            assert forall|b: (int, int)| adjacent(m, b) && fg(mask@, wi, hi, b) implies mset.contains(b) by {
                if v_old.contains(b) {
                    assert(adjacent(b, m));
                    assert(v_old.contains(m));
                }
            }
            assert forall|a: (int, int), b: (int, int)|
                #![trigger mset.contains(a), adjacent(a, b)]
                mset.contains(a) && !stack_px(stack@).contains(a) && adjacent(a, b) && fg(mask@, wi, hi, b) implies mset.contains(b) by {
                if a != m {
                    assert(m0.contains(a) && !stack_px(st0).contains(a));
                    assert(m0.contains(b));
                }
            }
            assert(m0.subset_of(mset));
            lemma_grid_set_len(wi, hi, mset);
            // bounding box of the processed members
            let pm = |p: (int, int)| mset.contains(p) && !stack_px(stack@).contains(p);
            let po = |p: (int, int)| m0.contains(p) && !stack_px(st0).contains(p);
            assert(pm(m));
            assert forall|p: (int, int)| #[trigger] mset.contains(p) && !stack_px(stack@).contains(p) implies min_x <= p.0 <= max_x && min_y <= p.1 <= max_y by {
                if p != m {
                    assert(po(p));
                    if c0 == 0 {
                        assert(p == s);
                        assert(stack_px(st0)[0] == s);
                    }
                }
            }
            if c0 == 0 {
                assert(m == s);
                assert(min_x == m.0 && max_x == m.0 && min_y == m.1 && max_y == m.1);
            } else {
                if cx >= ominx {
                    let q = choose|p: (int, int)| #[trigger] m0.contains(p) && !stack_px(st0).contains(p) && p.0 == ominx;
                    assert(pm(q));
                }
                if cx <= omaxx {
                    let q = choose|p: (int, int)| #[trigger] m0.contains(p) && !stack_px(st0).contains(p) && p.0 == omaxx;
                    assert(pm(q));
                }
                if cy >= ominy {
                    let q = choose|p: (int, int)| #[trigger] m0.contains(p) && !stack_px(st0).contains(p) && p.1 == ominy;
                    assert(pm(q));
                }
                if cy <= omaxy {
                    let q = choose|p: (int, int)| #[trigger] m0.contains(p) && !stack_px(st0).contains(p) && p.1 == omaxy;
                    assert(pm(q));
                }
            }
        }
    }
    proof {
        let members = mset;
        assert(stack_px(stack@).len() == 0);
        assert forall|p: (int, int)| !stack_px(stack@).contains(p) by {}
        assert(closed_region(mask@, wi, hi, members)) by {
            assert forall|a: (int, int), b: (int, int)|
                #![trigger members.contains(a), adjacent(a, b)]
                members.contains(a) && adjacent(a, b) && fg(mask@, wi, hi, b) implies members.contains(b) by {
                assert(!stack_px(stack@).contains(a));
            }
        }
        lemma_component_within(mask@, wi, hi, s, members);
        assert(component(mask@, wi, hi, s) =~= members);
    }
    PixelComponent { seed_x: sx, seed_y: sy, count, min_x, min_y, max_x, max_y }
}

/// A set of grid pixels has at most `w * h` members.
proof fn lemma_grid_set_len(w: int, h: int, r: Set<(int, int)>)
    requires
        r.finite(),
        0 <= w,
        0 <= h,
        forall|p: (int, int)| #[trigger] r.contains(p) ==> in_grid(w, h, p),
    ensures
        r.len() <= w * h,
{
    let f = |p: (int, int)| lin(w, p);
    assert(vstd::relations::injective_on(f, r)) by {
        assert forall|p: (int, int), q: (int, int)| r.contains(p) && r.contains(q) && #[trigger] f(p) == #[trigger] f(q) implies p == q by {
            lemma_lin(w, h, p, q);
        }
    }
    let img = r.map(f);
    vstd::set_lib::lemma_map_size(r, img, f);
    assert forall|i: int| img.contains(i) implies 0 <= i < w * h by {
        let p = choose|p: (int, int)| r.contains(p) && f(p) == i;
        lemma_lin(w, h, p, p);
    }
    vstd::set_lib::lemma_int_range(0, w * h);
    vstd::set_lib::lemma_len_subset(img, vstd::set_lib::set_int_range(0, w * h));
}


/// Scan-state facts: `v` is the set of pixels taken so far, i.e. the
/// islands of every foreground pixel before `cur`.
#[verifier::opaque]
pub open spec fn scan_inv(mask: Seq<bool>, w: int, h: int, cur: (int, int), visited: Seq<bool>, v: Set<(int, int)>) -> bool {
    &&& visited.len() == w * h
    &&& closed_region(mask, w, h, v)
    &&& forall|p: (int, int)| #[trigger] v.contains(p) ==> fg(mask, w, h, p)
    &&& forall|p: (int, int)| in_grid(w, h, p) ==> (visited[#[trigger] lin(w, p)] <==> v.contains(p))
    &&& forall|p: (int, int)| #[trigger] scanned(cur, p) && fg(mask, w, h, p) ==> v.contains(p)
    &&& forall|p: (int, int)| #[trigger] v.contains(p) ==> exists|t: (int, int)| #[trigger] fg(mask, w, h, t) && before(t, cur) && component(mask, w, h, t).contains(p)
}

/// The islands found so far: all islands of at least `min_pixels` pixels
/// whose seed comes before `cur`, in scan order.
#[verifier::opaque]
pub open spec fn found_inv(mask: Seq<bool>, w: int, h: int, min_pixels: int, cur: (int, int), comps: Seq<PixelComponent>) -> bool {
    &&& forall|k: int| 0 <= k < comps.len() ==> describes(mask, w, h, #[trigger] comps[k]) && comps[k].count >= min_pixels
        && before(seed_of(comps[k]), cur)
    &&& forall|k: int, l: int| 0 <= k < l < comps.len() ==> before(seed_of(#[trigger] comps[k]), seed_of(#[trigger] comps[l]))
    &&& forall|p: (int, int)| #[trigger] scanned(cur, p) && is_seed(mask, w, h, p) && component(mask, w, h, p).len() >= min_pixels
        ==> exists|k: int| 0 <= k < comps.len() && seed_of(#[trigger] comps[k]) == p
}

/// Connected regions of the foreground pixels (4-neighbourhood) of a
/// row-major `w` x `h` mask, in the order in which a row-major scan meets
/// them; regions of fewer than `min_pixels` pixels are dropped. Each region
/// comes with its seed (the pixel met first), its pixel count and its
/// inclusive bounding box.
pub fn pixel_components(mask: &Vec<bool>, w: usize, h: usize, min_pixels: usize) -> (comps: Vec<PixelComponent>)
    requires
        mask@.len() >= w * h,
    ensures
        forall|k: int| 0 <= k < comps@.len() ==> describes(mask@, w as int, h as int, #[trigger] comps@[k])
            && comps@[k].count >= min_pixels,
        forall|k: int, l: int| 0 <= k < l < comps@.len() ==> before(seed_of(#[trigger] comps@[k]), seed_of(#[trigger] comps@[l])),
        forall|p: (int, int)| #[trigger] is_seed(mask@, w as int, h as int, p) && component(mask@, w as int, h as int, p).len() >= min_pixels
            ==> exists|k: int| 0 <= k < comps@.len() && seed_of(#[trigger] comps@[k]) == p,
{
    let ghost wi = w as int;
    let ghost hi = h as int;
    let ml = mask.len();
    assert(w * h <= ml);
    let n = w * h;
    let mut visited: Vec<bool> = Vec::new();
    let mut k: usize = 0;
    while k < n
        invariant
            k <= n,
            n == w * h,
            visited@.len() == k,
            forall|j: int| 0 <= j < k ==> !visited@[j],
        decreases n - k,
    {
        visited.push(false);
        k += 1;
    }
    let ghost mut v: Set<(int, int)> = Set::empty();
    proof {
        reveal(scan_inv);
        reveal(found_inv);
        assert forall|p: (int, int)| in_grid(wi, hi, p) implies (visited@[#[trigger] lin(wi, p)] <==> v.contains(p)) by {
            lemma_lin(wi, hi, p, p);
        }
        assert forall|p: (int, int)| #[trigger] scanned((0, 0), p) && fg(mask@, wi, hi, p) implies v.contains(p) by {
        }
        assert(scan_inv(mask@, wi, hi, (0, 0), visited@, v));
        assert(found_inv(mask@, wi, hi, min_pixels as int, (0, 0), Seq::<PixelComponent>::empty()));
    }
    let mut comps: Vec<PixelComponent> = Vec::new();
    let mut y: usize = 0;
    while y < h
        invariant
            mask@.len() >= w * h,
            n == w * h,
            wi == w,
            hi == h,
            y <= h,
            visited@.len() == w * h,
            scan_inv(mask@, wi, hi, (0, y as int), visited@, v),
            found_inv(mask@, wi, hi, min_pixels as int, (0, y as int), comps@),
        decreases h - y,
    {
        let mut x: usize = 0;
        while x < w
            invariant
                mask@.len() >= w * h,
                n == w * h,
                wi == w,
                hi == h,
                y < h,
                x <= w,
                visited@.len() == w * h,
                scan_inv(mask@, wi, hi, (x as int, y as int), visited@, v),
                found_inv(mask@, wi, hi, min_pixels as int, (x as int, y as int), comps@),
            decreases w - x,
        {
            let ghost s = (x as int, y as int);
            let i = idx(w, h, x, y);
            if visited[i] || !mask[i] {
                proof {
                    lemma_advance_taken(mask@, wi, hi, min_pixels as int, s, visited@, v, comps@);
                }
            } else {
                let ghost comps0 = comps@;
                let ghost visited0 = visited@;
                proof {
                    lemma_untaken(mask@, wi, hi, s, visited0, v);
                }
                let c = flood(mask, &mut visited, w, h, x, y, Ghost(v));
                if c.count >= min_pixels {
                    comps.push(c);
                }
                proof {
                    lemma_take_island(mask@, wi, hi, min_pixels as int, s, visited0, v, visited@, comps0, c, comps@);
                    v = v.union(component(mask@, wi, hi, s));
                }
            }
            x += 1;
        }
        proof {
            lemma_next_row(mask@, wi, hi, min_pixels as int, y as int, visited@, v, comps@);
        }
        y += 1;
    }
    proof {
        reveal(found_inv);
        assert forall|p: (int, int)| #[trigger] is_seed(mask@, wi, hi, p) && component(mask@, wi, hi, p).len() >= min_pixels
            implies exists|k: int| 0 <= k < comps@.len() && seed_of(#[trigger] comps@[k]) == p by {
            assert(scanned((0, hi), p));
        }
    }
    comps
}

/// Moving the scan past a pixel that is background or already taken keeps
/// both invariants.
proof fn lemma_advance_taken(
    mask: Seq<bool>,
    w: int,
    h: int,
    min_pixels: int,
    s: (int, int),
    visited: Seq<bool>,
    v: Set<(int, int)>,
    comps: Seq<PixelComponent>,
)
    requires
        in_grid(w, h, s),
        visited[lin(w, s)] || !mask[lin(w, s)],
        scan_inv(mask, w, h, s, visited, v),
        found_inv(mask, w, h, min_pixels, s, comps),
    ensures
        scan_inv(mask, w, h, (s.0 + 1, s.1), visited, v),
        found_inv(mask, w, h, min_pixels, (s.0 + 1, s.1), comps),
{
    reveal(scan_inv);
    reveal(found_inv);
    let nxt = (s.0 + 1, s.1);
    assert(!is_seed(mask, w, h, s)) by {
        if fg(mask, w, h, s) {
            assert(v.contains(s));
            let t = choose|t: (int, int)| #[trigger] fg(mask, w, h, t) && before(t, s) && component(mask, w, h, t).contains(s);
        }
    }
    assert forall|p: (int, int)| #[trigger] scanned(nxt, p) && fg(mask, w, h, p) implies v.contains(p) by {
        if p == s {
            assert(visited[lin(w, s)]);
        } else {
            assert(scanned(s, p));
        }
    }
    assert forall|p: (int, int)| #[trigger] v.contains(p) implies exists|t: (int, int)| #[trigger] fg(mask, w, h, t) && before(t, nxt) && component(mask, w, h, t).contains(p) by {
        let t = choose|t: (int, int)| #[trigger] fg(mask, w, h, t) && before(t, s) && component(mask, w, h, t).contains(p);
        assert(fg(mask, w, h, t) && before(t, nxt));
    }
    assert forall|k: int| 0 <= k < comps.len() implies describes(mask, w, h, #[trigger] comps[k]) && comps[k].count >= min_pixels
        && before(seed_of(comps[k]), nxt) by {
        assert(before(seed_of(comps[k]), s));
    }
    assert forall|p: (int, int)| #[trigger] scanned(nxt, p) && is_seed(mask, w, h, p) && component(mask, w, h, p).len() >= min_pixels
        implies exists|k: int| 0 <= k < comps.len() && seed_of(#[trigger] comps[k]) == p by {
        assert(scanned(s, p));
    }
}

/// An untaken foreground pixel at the scan position meets the flood's
/// preconditions.
proof fn lemma_untaken(mask: Seq<bool>, w: int, h: int, s: (int, int), visited: Seq<bool>, v: Set<(int, int)>)
    requires
        in_grid(w, h, s),
        !visited[lin(w, s)],
        mask[lin(w, s)],
        scan_inv(mask, w, h, s, visited, v),
    ensures
        visited.len() == w * h,
        fg(mask, w, h, s),
        !v.contains(s),
        closed_region(mask, w, h, v),
        forall|p: (int, int)| in_grid(w, h, p) ==> (visited[#[trigger] lin(w, p)] <==> v.contains(p)),
{
    reveal(scan_inv);
}

/// After the flood from an untaken foreground pixel, the scan moves on with
/// its island taken and, when large enough, recorded.
proof fn lemma_take_island(
    mask: Seq<bool>,
    w: int,
    h: int,
    min_pixels: int,
    s: (int, int),
    visited0: Seq<bool>,
    v: Set<(int, int)>,
    visited1: Seq<bool>,
    comps0: Seq<PixelComponent>,
    c: PixelComponent,
    comps1: Seq<PixelComponent>,
)
    requires
        in_grid(w, h, s),
        fg(mask, w, h, s),
        !v.contains(s),
        scan_inv(mask, w, h, s, visited0, v),
        found_inv(mask, w, h, min_pixels, s, comps0),
        visited1.len() == w * h,
        seed_of(c) == s,
        summarizes(c, component(mask, w, h, s)),
        closed_region(mask, w, h, component(mask, w, h, s)),
        forall|p: (int, int)| #[trigger] component(mask, w, h, s).contains(p) ==> fg(mask, w, h, p) && !v.contains(p),
        forall|p: (int, int)| in_grid(w, h, p) ==> (visited1[#[trigger] lin(w, p)] <==> (v.contains(p) || component(mask, w, h, s).contains(p))),
        comps1 == (if c.count >= min_pixels { comps0.push(c) } else { comps0 }),
    ensures
        scan_inv(mask, w, h, (s.0 + 1, s.1), visited1, v.union(component(mask, w, h, s))),
        found_inv(mask, w, h, min_pixels, (s.0 + 1, s.1), comps1),
{
    reveal(scan_inv);
    reveal(found_inv);
    let nxt = (s.0 + 1, s.1);
    let cs = component(mask, w, h, s);
    let v2 = v.union(cs);
    lemma_component_has_seed(mask, w, h, s);
    assert(is_seed(mask, w, h, s)) by {
        assert forall|t: (int, int)| #[trigger] fg(mask, w, h, t) && before(t, s) implies !component(mask, w, h, t).contains(s) by {
            assert(scanned(s, t));
            assert(v.contains(t));
            lemma_component_within(mask, w, h, t, v);
        }
    }
    assert(closed_region(mask, w, h, v2)) by {
        assert forall|a: (int, int), b: (int, int)|
            #![trigger v2.contains(a), adjacent(a, b)]
            v2.contains(a) && adjacent(a, b) && fg(mask, w, h, b) implies v2.contains(b) by {
            if v.contains(a) {
            } else {
                assert(cs.contains(a));
            }
        }
    }
    assert forall|p: (int, int)| #[trigger] v2.contains(p) implies exists|t: (int, int)| #[trigger] fg(mask, w, h, t) && before(t, nxt) && component(mask, w, h, t).contains(p) by {
        if v.contains(p) {
            let t = choose|t: (int, int)| #[trigger] fg(mask, w, h, t) && before(t, s) && component(mask, w, h, t).contains(p);
            assert(fg(mask, w, h, t) && before(t, nxt));
        } else {
            assert(fg(mask, w, h, s) && before(s, nxt));
        }
    }
    assert forall|p: (int, int)| #[trigger] scanned(nxt, p) && fg(mask, w, h, p) implies v2.contains(p) by {
        if p != s {
            assert(scanned(s, p));
        }
    }
    assert forall|p: (int, int)| #[trigger] v2.contains(p) implies fg(mask, w, h, p) by {
        if !v.contains(p) {
            assert(cs.contains(p));
        }
    }
    assert(scan_inv(mask, w, h, nxt, visited1, v2));
    if c.count >= min_pixels {
        assert(comps1[comps0.len() as int] == c);
        assert forall|k: int| 0 <= k < comps1.len() implies describes(mask, w, h, #[trigger] comps1[k]) && comps1[k].count >= min_pixels
            && before(seed_of(comps1[k]), nxt) by {
            if k < comps0.len() {
                assert(comps1[k] == comps0[k]);
            }
        }
        assert forall|k: int, l: int| 0 <= k < l < comps1.len() implies before(seed_of(#[trigger] comps1[k]), seed_of(#[trigger] comps1[l])) by {
            assert(comps1[k] == comps0[k]);
            if l < comps0.len() {
                assert(comps1[l] == comps0[l]);
            }
        }
        assert forall|p: (int, int)| #[trigger] scanned(nxt, p) && is_seed(mask, w, h, p) && component(mask, w, h, p).len() >= min_pixels
            implies exists|k: int| 0 <= k < comps1.len() && seed_of(#[trigger] comps1[k]) == p by {
            if p == s {
                assert(seed_of(comps1[comps0.len() as int]) == p);
            } else {
                assert(scanned(s, p));
                let k = choose|k: int| 0 <= k < comps0.len() && seed_of(#[trigger] comps0[k]) == p;
                assert(comps1[k] == comps0[k]);
            }
        }
    } else {
        assert forall|k: int| 0 <= k < comps1.len() implies describes(mask, w, h, #[trigger] comps1[k]) && comps1[k].count >= min_pixels
            && before(seed_of(comps1[k]), nxt) by {
            assert(before(seed_of(comps1[k]), s));
        }
        assert forall|p: (int, int)| #[trigger] scanned(nxt, p) && is_seed(mask, w, h, p) && component(mask, w, h, p).len() >= min_pixels
            implies exists|k: int| 0 <= k < comps1.len() && seed_of(#[trigger] comps1[k]) == p by {
            if p != s {
                assert(scanned(s, p));
            }
        }
    }
}

/// The end of a row is the start of the next.
proof fn lemma_next_row(
    mask: Seq<bool>,
    w: int,
    h: int,
    min_pixels: int,
    y: int,
    visited: Seq<bool>,
    v: Set<(int, int)>,
    comps: Seq<PixelComponent>,
)
    requires
        scan_inv(mask, w, h, (w, y), visited, v),
        found_inv(mask, w, h, min_pixels, (w, y), comps),
    ensures
        scan_inv(mask, w, h, (0, y + 1), visited, v),
        found_inv(mask, w, h, min_pixels, (0, y + 1), comps),
{
    reveal(scan_inv);
    reveal(found_inv);
    let nxt = (0, y + 1);
    assert forall|p: (int, int)| #[trigger] scanned(nxt, p) && fg(mask, w, h, p) implies v.contains(p) by {
        assert(scanned((w, y), p));
    }
    assert forall|p: (int, int)| #[trigger] v.contains(p) implies exists|t: (int, int)| #[trigger] fg(mask, w, h, t) && before(t, nxt) && component(mask, w, h, t).contains(p) by {
        let t = choose|t: (int, int)| #[trigger] fg(mask, w, h, t) && before(t, (w, y)) && component(mask, w, h, t).contains(p);
        assert(fg(mask, w, h, t) && before(t, nxt));
    }
    assert forall|k: int| 0 <= k < comps.len() implies describes(mask, w, h, #[trigger] comps[k]) && comps[k].count >= min_pixels
        && before(seed_of(comps[k]), nxt) by {
        assert(before(seed_of(comps[k]), (w, y)));
    }
    assert forall|p: (int, int)| #[trigger] scanned(nxt, p) && is_seed(mask, w, h, p) && component(mask, w, h, p).len() >= min_pixels
        implies exists|k: int| 0 <= k < comps.len() && seed_of(#[trigger] comps[k]) == p by {
        assert(scanned((w, y), p));
    }
}

} // verus!

verus! {

/// Islands are closed under stepping to adjacent foreground pixels.
proof fn lemma_component_closed(mask: Seq<bool>, w: int, h: int, s: (int, int))
    ensures
        closed_region(mask, w, h, component(mask, w, h, s)),
{
    let c = component(mask, w, h, s);
    assert forall|a: (int, int), b: (int, int)|
        #![trigger c.contains(a), adjacent(a, b)]
        c.contains(a) && adjacent(a, b) && fg(mask, w, h, b) implies c.contains(b) by {
        lemma_component_step(mask, w, h, s, a, b);
    }
}

/// The island of a foreground pixel holds only foreground pixels.
proof fn lemma_component_fg(mask: Seq<bool>, w: int, h: int, s: (int, int))
    requires
        fg(mask, w, h, s),
    ensures
        forall|x: (int, int)| #[trigger] component(mask, w, h, s).contains(x) ==> fg(mask, w, h, x),
{
    let f = Set::new(|x: (int, int)| fg(mask, w, h, x));
    assert(closed_region(mask, w, h, f));
    lemma_component_within(mask, w, h, s, f);
}

/// Being in the same island is symmetric.
proof fn lemma_component_symmetric(mask: Seq<bool>, w: int, h: int, s: (int, int), t: (int, int))
    requires
        fg(mask, w, h, s),
        component(mask, w, h, s).contains(t),
    ensures
        component(mask, w, h, t).contains(s),
{
    let cs = component(mask, w, h, s);
    let r = Set::new(|x: (int, int)| cs.contains(x) && component(mask, w, h, x).contains(s));
    lemma_component_has_seed(mask, w, h, s);
    lemma_component_fg(mask, w, h, s);
    assert(r.contains(s));
    assert(closed_region(mask, w, h, r)) by {
        assert forall|a: (int, int), b: (int, int)|
            #![trigger r.contains(a), adjacent(a, b)]
            r.contains(a) && adjacent(a, b) && fg(mask, w, h, b) implies r.contains(b) by {
            lemma_component_step(mask, w, h, s, a, b);
            assert(fg(mask, w, h, a));
            lemma_component_has_seed(mask, w, h, b);
            assert(adjacent(b, a));
            lemma_component_step(mask, w, h, b, b, a);
            lemma_component_closed(mask, w, h, b);
            lemma_component_within(mask, w, h, a, component(mask, w, h, b));
        }
    }
    lemma_component_within(mask, w, h, s, r);
    assert(r.contains(t));
}

/// For grid pixels the scan order is the order of their indices.
proof fn lemma_before_lin(w: int, h: int, a: (int, int), b: (int, int))
    requires
        in_grid(w, h, a),
        in_grid(w, h, b),
    ensures
        before(a, b) <==> lin(w, a) < lin(w, b),
{
    lemma_lin(w, h, a, b);
    if a.1 < b.1 {
        assert(a.1 * w + a.0 < b.1 * w + b.0) by (nonlinear_arith)
            requires
                0 <= a.0 < w,
                0 <= b.0,
                a.1 < b.1,
        ;
    } else if b.1 < a.1 {
        assert(b.1 * w + b.0 < a.1 * w + a.0) by (nonlinear_arith)
            requires
                0 <= b.0 < w,
                0 <= a.0,
                b.1 < a.1,
        ;
    }
}

/// A set of grid pixels holding one with index at most `n` has a first
/// pixel in scan order.
proof fn lemma_scan_first(w: int, h: int, c: Set<(int, int)>, n: nat) -> (m: (int, int))
    requires
        forall|q: (int, int)| #[trigger] c.contains(q) ==> in_grid(w, h, q),
        exists|q: (int, int)| #[trigger] c.contains(q) && lin(w, q) <= n,
    ensures
        c.contains(m),
        forall|q: (int, int)| #[trigger] c.contains(q) ==> !before(q, m),
    decreases n,
{
    if n > 0 && exists|q: (int, int)| #[trigger] c.contains(q) && lin(w, q) <= n - 1 {
        lemma_scan_first(w, h, c, (n - 1) as nat)
    } else {
        let m = choose|q: (int, int)| #[trigger] c.contains(q) && lin(w, q) <= n;
        assert forall|q: (int, int)| #[trigger] c.contains(q) implies !before(q, m) by {
            lemma_before_lin(w, h, q, m);
            lemma_lin(w, h, q, q);
            if before(q, m) {
                assert(lin(w, q) <= n - 1);
            }
        }
        m
    }
}

/// Every foreground pixel lies in the island of exactly one seed.
pub proof fn law_islands_partition(mask: Seq<bool>, w: int, h: int, p: (int, int))
    requires
        fg(mask, w, h, p),
    ensures
        exists|s: (int, int)| #[trigger] is_seed(mask, w, h, s) && component(mask, w, h, s).contains(p),
        forall|s1: (int, int), s2: (int, int)|
            #[trigger] is_seed(mask, w, h, s1) && #[trigger] is_seed(mask, w, h, s2) && component(mask, w, h, s1).contains(p)
                && component(mask, w, h, s2).contains(p) ==> s1 == s2,
{
    let cp = component(mask, w, h, p);
    lemma_component_has_seed(mask, w, h, p);
    lemma_component_fg(mask, w, h, p);
    lemma_lin(w, h, p, p);
    let m = lemma_scan_first(w, h, cp, lin(w, p) as nat);
    assert(fg(mask, w, h, m));
    lemma_component_symmetric(mask, w, h, p, m);
    assert(is_seed(mask, w, h, m)) by {
        assert forall|t: (int, int)| #[trigger] fg(mask, w, h, t) && before(t, m) implies !component(mask, w, h, t).contains(m) by {
            if component(mask, w, h, t).contains(m) {
                lemma_component_closed(mask, w, h, p);
                lemma_component_within(mask, w, h, m, cp);
                lemma_component_symmetric(mask, w, h, t, m);
                assert(component(mask, w, h, m).contains(t));
                assert(cp.contains(t));
            }
        }
    }
    assert(component(mask, w, h, m).contains(p));
    assert forall|s1: (int, int), s2: (int, int)|
        #[trigger] is_seed(mask, w, h, s1) && #[trigger] is_seed(mask, w, h, s2) && component(mask, w, h, s1).contains(p)
            && component(mask, w, h, s2).contains(p) implies s1 == s2 by {
        // both islands are the island of p
        lemma_component_symmetric(mask, w, h, s1, p);
        lemma_component_symmetric(mask, w, h, s2, p);
        lemma_component_closed(mask, w, h, s1);
        lemma_component_within(mask, w, h, p, component(mask, w, h, s1));
        lemma_component_closed(mask, w, h, s2);
        lemma_component_within(mask, w, h, p, component(mask, w, h, s2));
        lemma_component_has_seed(mask, w, h, s1);
        lemma_component_has_seed(mask, w, h, s2);
        assert(component(mask, w, h, p).contains(s2));
        assert(component(mask, w, h, s1).contains(s2));
        assert(component(mask, w, h, p).contains(s1));
        assert(component(mask, w, h, s2).contains(s1));
        if s1 != s2 {
            if before(s1, s2) {
                assert(!component(mask, w, h, s1).contains(s2));
            } else {
                assert(before(s2, s1));
                assert(!component(mask, w, h, s2).contains(s1));
            }
        }
    }
}

} // verus!

verus! {

pub open spec fn conflict_view(c: Seq<Vec<bool>>) -> Seq<Seq<bool>> {
    c.map_values(|r: Vec<bool>| r@)
}

/// Greedy suppression over the first `n` candidates, taken in priority
/// order: a candidate is kept when no candidate kept before it conflicts
/// with it (`c[j][i]`: kept `j` suppresses `i`).
pub open spec fn spec_greedy_keep(c: Seq<Seq<bool>>, n: int) -> Seq<int>
    decreases n,
{
    if n <= 0 {
        Seq::<int>::empty()
    } else {
        let k = spec_greedy_keep(c, n - 1);
        if forall|t: int| 0 <= t < k.len() ==> !c[#[trigger] k[t]][n - 1] {
            k.push(n - 1)
        } else {
            k
        }
    }
}

/// Overlap suppression: indices of the candidates kept, in order.
pub fn greedy_keep(conflict: &Vec<Vec<bool>>) -> (kept: Vec<usize>)
    requires
        forall|i: int| 0 <= i < conflict@.len() ==> (#[trigger] conflict@[i])@.len() == conflict@.len(),
    ensures
        kept@.map_values(|k: usize| k as int) == spec_greedy_keep(conflict_view(conflict@), conflict@.len() as int),
{
    let ghost c = conflict_view(conflict@);
    let n = conflict.len();
    let mut kept: Vec<usize> = Vec::new();
    let mut i: usize = 0;
    while i < n
        invariant
            n == conflict@.len(),
            c == conflict_view(conflict@),
            i <= n,
            forall|r: int| 0 <= r < conflict@.len() ==> (#[trigger] conflict@[r])@.len() == conflict@.len(),
            kept@.map_values(|k: usize| k as int) == spec_greedy_keep(c, i as int),
            forall|t: int| 0 <= t < kept@.len() ==> kept@[t] < i,
        decreases n - i,
    {
        let ghost ks = kept@.map_values(|k: usize| k as int);
        let mut ok = true;
        let mut t: usize = 0;
        while t < kept.len()
            invariant
                n == conflict@.len(),
                c == conflict_view(conflict@),
                i < n,
                forall|r: int| 0 <= r < conflict@.len() ==> (#[trigger] conflict@[r])@.len() == conflict@.len(),
                ks == kept@.map_values(|k: usize| k as int),
                forall|u: int| 0 <= u < kept@.len() ==> kept@[u] < i,
                t <= kept@.len(),
                ok == forall|u: int| 0 <= u < t ==> !c[#[trigger] ks[u]][i as int],
            decreases kept@.len() - t,
        {
            let j = kept[t];
            assert(c[ks[t as int]] == conflict@[j as int]@);
            if conflict[j][i] {
                ok = false;
            }
            t += 1;
        }
        proof {
            assert(ok == forall|u: int| 0 <= u < ks.len() ==> !c[#[trigger] ks[u]][i as int]);
        }
        if ok {
            kept.push(i);
            assert(kept@.map_values(|k: usize| k as int) =~= ks.push(i as int));
        }
        i += 1;
    }
    kept
}

/// No kept candidate conflicts with one kept after it, and every dropped
/// candidate conflicts with one kept before it.
pub proof fn law_greedy_keep_maximal(c: Seq<Seq<bool>>, n: int)
    requires
        0 <= n,
    ensures
        forall|a: int, b: int| 0 <= a < b < spec_greedy_keep(c, n).len() ==> !c[#[trigger] spec_greedy_keep(c, n)[a]][#[trigger] spec_greedy_keep(c, n)[b]],
        forall|a: int, b: int| 0 <= a < b < spec_greedy_keep(c, n).len() ==> spec_greedy_keep(c, n)[a] < spec_greedy_keep(c, n)[b],
        forall|i: int| 0 <= i < n && !spec_greedy_keep(c, n).contains(i) ==> exists|t: int|
            0 <= t < spec_greedy_keep(c, n).len() && spec_greedy_keep(c, n)[t] < i && #[trigger] c[spec_greedy_keep(c, n)[t]][i],
        forall|t: int| 0 <= t < spec_greedy_keep(c, n).len() ==> 0 <= #[trigger] spec_greedy_keep(c, n)[t] < n,
    decreases n,
{
    if n > 0 {
        law_greedy_keep_maximal(c, n - 1);
        let k = spec_greedy_keep(c, n - 1);
        let kk = spec_greedy_keep(c, n);
        if forall|t: int| 0 <= t < k.len() ==> !c[#[trigger] k[t]][n - 1] {
            assert(kk == k.push(n - 1));
            assert forall|i: int| 0 <= i < n && !kk.contains(i) implies exists|t: int|
                0 <= t < kk.len() && kk[t] < i && #[trigger] c[kk[t]][i] by {
                if i == n - 1 {
                    assert(kk[k.len() as int] == n - 1);
                } else {
                    if k.contains(i) {
                        let w = choose|w: int| 0 <= w < k.len() && k[w] == i;
                        assert(kk[w] == i);
                    }
                    let t = choose|t: int| 0 <= t < k.len() && k[t] < i && #[trigger] c[k[t]][i];
                    assert(kk[t] == k[t]);
                }
            }
            assert forall|a: int, b: int| 0 <= a < b < kk.len() implies !c[#[trigger] kk[a]][#[trigger] kk[b]] by {
                assert(kk[a] == k[a]);
                if b < k.len() {
                    assert(kk[b] == k[b]);
                }
            }
        } else {
            assert(kk == k);
            let t0 = choose|t: int| 0 <= t < k.len() && c[#[trigger] k[t]][n - 1];
            assert forall|i: int| 0 <= i < n && !kk.contains(i) implies exists|t: int|
                0 <= t < kk.len() && kk[t] < i && #[trigger] c[kk[t]][i] by {
                if i == n - 1 {
                    assert(c[kk[t0]][i]);
                }
            }
        }
    }
}

} // verus!

verus! {

/// The detector used by tests and previews; it reports one fixed box, whose
/// float geometry lives with the host.
pub struct MockDetect;

} // verus!
