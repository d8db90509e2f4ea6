//! Removal of small 8-connected ink components ("despeckling").

use vstd::prelude::*;
use vstd::arithmetic::div_mod::{lemma_fundamental_div_mod_converse_div,
    lemma_fundamental_div_mod_converse_mod};
use vstd::set_lib::{lemma_int_range, lemma_len_subset, set_int_range};

verus! {

/// Pixel `p` of a `w` by `h` mask is ink.
pub open spec fn is_ink(ink: Seq<u8>, w: int, h: int, p: int) -> bool {
    0 <= p < w * h && p < ink.len() && ink[p] != 0
}

/// Pixels `p` and `q` are distinct and touch by a side or a corner.
pub open spec fn touching(w: int, h: int, p: int, q: int) -> bool {
    &&& p != q
    &&& 0 <= p < w * h
    &&& 0 <= q < w * h
    &&& -1 <= p % w - q % w <= 1
    &&& -1 <= p / w - q / w <= 1
}

/// A chain of ink pixels, each touching the next.
pub open spec fn ink_path(ink: Seq<u8>, w: int, h: int, path: Seq<int>) -> bool {
    &&& path.len() >= 1
    &&& forall|i: int| 0 <= i < path.len() ==> is_ink(ink, w, h, #[trigger] path[i])
    &&& forall|i: int| 0 <= i < path.len() - 1 ==> touching(w, h, #[trigger] path[i], path[i + 1])
}

/// Ink pixels `p` and `q` are joined by a chain of touching ink pixels.
pub open spec fn connected(ink: Seq<u8>, w: int, h: int, p: int, q: int) -> bool {
    exists|path: Seq<int>| #[trigger] ink_path(ink, w, h, path) && path[0] == p && path.last() == q
}

/// The 8-connected ink component of `p`.
pub open spec fn component(ink: Seq<u8>, w: int, h: int, p: int) -> Set<int> {
    Set::new(|q: int| connected(ink, w, h, p, q))
}

/// Pixel `i` after despeckling with minimum component size `min_size`.
pub open spec fn despeckled(ink: Seq<u8>, w: int, h: int, min_size: int, i: int) -> u8 {
    if is_ink(ink, w, h, i) && component(ink, w, h, i).len() < min_size {
        0
    } else {
        ink[i]
    }
}

/// The set `s` of ink pixels is closed under touching.
pub open spec fn closed_set(ink: Seq<u8>, w: int, h: int, s: Set<int>) -> bool {
    forall|x: int, y: int|
        #![trigger s.contains(x), s.contains(y)]
        s.contains(x) && touching(w, h, x, y) && is_ink(ink, w, h, y) ==> s.contains(y)
}

proof fn lemma_touching_sym(w: int, h: int, p: int, q: int)
    requires
        touching(w, h, p, q),
    ensures
        touching(w, h, q, p),
{
}

proof fn lemma_connected_refl(ink: Seq<u8>, w: int, h: int, p: int)
    requires
        is_ink(ink, w, h, p),
    ensures
        connected(ink, w, h, p, p),
{
    let path = seq![p];
    assert(ink_path(ink, w, h, path));
}

proof fn lemma_connected_sym(ink: Seq<u8>, w: int, h: int, p: int, q: int)
    requires
        connected(ink, w, h, p, q),
    ensures
        connected(ink, w, h, q, p),
{
    let path = choose|path: Seq<int>| #[trigger] ink_path(ink, w, h, path) && path[0] == p && path.last() == q;
    let r = path.reverse();
    assert forall|i: int| 0 <= i < r.len() implies is_ink(ink, w, h, #[trigger] r[i]) by {
        assert(r[i] == path[path.len() - 1 - i]);
    }
    assert forall|i: int| 0 <= i < r.len() - 1 implies touching(w, h, #[trigger] r[i], r[i + 1]) by {
        let k = path.len() - 2 - i;
        assert(touching(w, h, path[k], path[k + 1]));
        assert(r[i] == path[k + 1] && r[i + 1] == path[k]);
    }
    assert(ink_path(ink, w, h, r));
}

proof fn lemma_connected_trans(ink: Seq<u8>, w: int, h: int, p: int, q: int, s: int)
    requires
        connected(ink, w, h, p, q),
        connected(ink, w, h, q, s),
    ensures
        connected(ink, w, h, p, s),
{
    let a = choose|path: Seq<int>| #[trigger] ink_path(ink, w, h, path) && path[0] == p && path.last() == q;
    let b = choose|path: Seq<int>| #[trigger] ink_path(ink, w, h, path) && path[0] == q && path.last() == s;
    let c = a + b.drop_first();
    assert forall|i: int| 0 <= i < c.len() implies is_ink(ink, w, h, #[trigger] c[i]) by {
        if i >= a.len() {
            assert(c[i] == b[i - a.len() + 1]);
        }
    }
    assert forall|i: int| 0 <= i < c.len() - 1 implies touching(w, h, #[trigger] c[i], c[i + 1]) by {
        if i < a.len() - 1 {
            assert(touching(w, h, a[i], a[i + 1]));
        } else if i == a.len() - 1 {
            assert(c[i] == q && c[i + 1] == b[1]);
            assert(touching(w, h, b[0], b[1]));
        } else {
            let k = i - a.len() + 1;
            assert(touching(w, h, b[k], b[k + 1]));
            assert(c[i] == b[k] && c[i + 1] == b[k + 1]);
        }
    }
    if b.len() == 1 {
        assert(c.last() == a.last());
    } else {
        assert(c.last() == b.last());
    }
    assert(ink_path(ink, w, h, c));
}

/// A set of ink pixels closed under touching holds the component of each of
/// its pixels.
proof fn lemma_closed_holds_component(ink: Seq<u8>, w: int, h: int, s: Set<int>, p: int, q: int)
    requires
        closed_set(ink, w, h, s),
        s.contains(p),
        connected(ink, w, h, p, q),
    ensures
        s.contains(q),
{
    let path = choose|path: Seq<int>| #[trigger] ink_path(ink, w, h, path) && path[0] == p && path.last() == q;
    lemma_path_in_closed(ink, w, h, s, path, path.len() - 1);
}

proof fn lemma_path_in_closed(ink: Seq<u8>, w: int, h: int, s: Set<int>, path: Seq<int>, i: int)
    requires
        closed_set(ink, w, h, s),
        ink_path(ink, w, h, path),
        s.contains(path[0]),
        0 <= i < path.len(),
    ensures
        s.contains(path[i]),
    decreases i,
{
    if i > 0 {
        lemma_path_in_closed(ink, w, h, s, path, i - 1);
        assert(touching(w, h, path[i - 1], path[i]));
        assert(is_ink(ink, w, h, path[i]));
    }
}

proof fn lemma_component_finite(ink: Seq<u8>, w: int, h: int, p: int)
    requires
        0 <= w * h,
    ensures
        component(ink, w, h, p).finite(),
        component(ink, w, h, p).subset_of(set_int_range(0, w * h)),
{
    assert forall|q: int| component(ink, w, h, p).contains(q) implies set_int_range(0, w * h).contains(q) by {
        let path = choose|path: Seq<int>| #[trigger] ink_path(ink, w, h, path) && path[0] == p && path.last() == q;
        assert(is_ink(ink, w, h, path[path.len() - 1]));
    }
    lemma_int_range(0, w * h);
    lemma_len_subset(component(ink, w, h, p), set_int_range(0, w * h));
}

/// The pixels marked in `v`.
pub open spec fn marked(v: Seq<bool>) -> Set<int> {
    Set::new(|i: int| 0 <= i < v.len() && v[i])
}

/// Every ink pixel of the component of `s` is in it, and it is closed.
proof fn lemma_component_closed(ink: Seq<u8>, w: int, h: int, s: int)
    ensures
        closed_set(ink, w, h, component(ink, w, h, s)),
{
    assert forall|x: int, y: int|
        #![trigger component(ink, w, h, s).contains(x), component(ink, w, h, s).contains(y)]
        component(ink, w, h, s).contains(x) && touching(w, h, x, y) && is_ink(ink, w, h, y)
            implies component(ink, w, h, s).contains(y) by {
        let path = choose|path: Seq<int>| #[trigger] ink_path(ink, w, h, path) && path[0] == s && path.last() == x;
        assert(is_ink(ink, w, h, path[path.len() - 1]));
        let step = seq![x, y];
        assert(ink_path(ink, w, h, step));
        assert(connected(ink, w, h, x, y));
        lemma_connected_trans(ink, w, h, s, x, y);
    }
}

/// Connected pixels have the same component.
proof fn lemma_component_eq(ink: Seq<u8>, w: int, h: int, s: int, p: int)
    requires
        connected(ink, w, h, s, p),
    ensures
        component(ink, w, h, s) == component(ink, w, h, p),
{
    assert forall|q: int| component(ink, w, h, s).contains(q) <==> component(ink, w, h, p).contains(q) by {
        lemma_connected_sym(ink, w, h, s, p);
        if connected(ink, w, h, s, q) {
            lemma_connected_trans(ink, w, h, p, s, q);
        }
        if connected(ink, w, h, p, q) {
            lemma_connected_trans(ink, w, h, s, p, q);
        }
    }
    assert(component(ink, w, h, s) =~= component(ink, w, h, p));
}

proof fn lemma_coords(w: int, nx: int, ny: int)
    requires
        0 < w,
        0 <= nx < w,
        0 <= ny,
    ensures
        (ny * w + nx) % w == nx,
        (ny * w + nx) / w == ny,
        0 <= ny * w + nx,
{
    lemma_fundamental_div_mod_converse_mod(ny * w + nx, w, ny, nx);
    lemma_fundamental_div_mod_converse_div(ny * w + nx, w, ny, nx);
    assert(0 <= ny * w) by (nonlinear_arith)
        requires
            0 <= ny,
            0 < w,
    ;
}

proof fn lemma_index(w: int, h: int, q: int)
    requires
        0 < w,
        0 <= q < w * h,
    ensures
        q == (q / w) * w + q % w,
        0 <= q % w < w,
        0 <= q / w < h,
{
    assert(q == (q / w) * w + q % w && 0 <= q % w < w) by (nonlinear_arith)
        requires
            0 < w,
    ;
    assert(0 <= q / w < h) by (nonlinear_arith)
        requires
            0 < w,
            0 <= q < w * h,
            q == (q / w) * w + q % w,
            0 <= q % w < w,
    ;
}

/// The offset `(ox, oy)` (each in `-1..=1`) was handled before position
/// `(dx, dy)` of the 3 by 3 scan (indices `0..3`, row by row).
pub open spec fn offset_done(ox: int, oy: int, dx: int, dy: int) -> bool {
    oy + 1 < dy || (oy + 1 == dy && ox + 1 < dx)
}

/// The coordinate `c + d - 1` if it lies in `0..lim`.
fn shift(c: usize, d: usize, lim: usize) -> (r: Option<usize>)
    requires
        c < lim,
        d < 3,
    ensures
        match r {
            Some(v) => v == c + d - 1 && v < lim,
            None => c + d - 1 < 0 || c + d - 1 >= lim,
        },
{
    if d == 0 {
        if c == 0 {
            None
        } else {
            Some(c - 1)
        }
    } else if d == 1 {
        Some(c)
    } else if c + 1 < lim {
        Some(c + 1)
    } else {
        None
    }
}

/// Marks and stacks the unmarked ink pixels that touch `p`.
fn visit_neighbors(
    ink: &[u8],
    w: usize,
    h: usize,
    p: usize,
    visited: &mut Vec<bool>,
    stack: &mut Vec<usize>,
    Ghost(ink0): Ghost<Seq<u8>>,
    Ghost(vis0): Ghost<Seq<bool>>,
)
    requires
        0 < w,
        w * h <= ink@.len(),
        ink0.len() == ink@.len(),
        p < w * h,
        old(visited)@.len() == w * h,
        vis0.len() == w * h,
        forall|i: int| 0 <= i < w * h && !vis0[i] ==> ink@[i] == ink0[i],
        forall|i: int| 0 <= i < w * h && vis0[i] ==> #[trigger] old(visited)@[i],
    ensures
        final(visited)@.len() == w * h,
        exists|added: Seq<usize>|
            {
                &&& final(stack)@ == old(stack)@ + added
                &&& added.no_duplicates()
                &&& forall|k: int|
                    0 <= k < added.len() ==> {
                        &&& (#[trigger] added[k]) < w * h
                        &&& !old(visited)@[added[k] as int]
                        &&& is_ink(ink0, w as int, h as int, added[k] as int)
                        &&& touching(w as int, h as int, p as int, added[k] as int)
                    }
                &&& forall|i: int|
                    0 <= i < w * h ==> #[trigger] final(visited)@[i] == (old(visited)@[i]
                        || added.contains(i as usize))
            },
        forall|q: int|
            touching(w as int, h as int, p as int, q) && is_ink(ink0, w as int, h as int, q)
                ==> #[trigger] final(visited)@[q],
{
    let ghost wi = w as int;
    let ghost hi = h as int;
    let ghost v_old = visited@;
    let ghost s_old = stack@;
    let x = p % w;
    let y = p / w;
    proof {
        lemma_index(wi, hi, p as int);
    }
    let ghost mut added: Seq<usize> = seq![];
    let mut dy: usize = 0;
    while dy < 3
        invariant
            0 < w,
            wi == w,
            hi == h,
            w * h <= ink@.len(),
            ink0.len() == ink@.len(),
            p < w * h,
            x == p % w,
            y == p / w,
            p == y * w + x,
            x < w,
            y < h,
            dy <= 3,
            visited@.len() == w * h,
            vis0.len() == w * h,
            forall|i: int| 0 <= i < w * h && !vis0[i] ==> ink@[i] == ink0[i],
            forall|i: int| 0 <= i < w * h && vis0[i] ==> #[trigger] v_old[i],
            v_old.len() == w * h,
            stack@ == s_old + added,
            added.no_duplicates(),
            forall|k: int|
                0 <= k < added.len() ==> {
                    &&& (#[trigger] added[k]) < w * h
                    &&& !v_old[added[k] as int]
                    &&& is_ink(ink0, wi, hi, added[k] as int)
                    &&& touching(wi, hi, p as int, added[k] as int)
                },
            forall|i: int| 0 <= i < w * h ==> #[trigger] visited@[i] == (v_old[i] || added.contains(i as usize)),
            forall|q: int|
                touching(wi, hi, p as int, q) && is_ink(ink0, wi, hi, q) && offset_done(
                    q % wi - x,
                    q / wi - y,
                    0,
                    dy as int,
                ) ==> #[trigger] visited@[q],
        decreases 3 - dy,
    {
        let mut dx: usize = 0;
        while dx < 3
            invariant
                0 < w,
                wi == w,
                hi == h,
                w * h <= ink@.len(),
                ink0.len() == ink@.len(),
                p < w * h,
                x == p % w,
                y == p / w,
                p == y * w + x,
                x < w,
                y < h,
                dy < 3,
                dx <= 3,
                visited@.len() == w * h,
                vis0.len() == w * h,
                forall|i: int| 0 <= i < w * h && !vis0[i] ==> ink@[i] == ink0[i],
                forall|i: int| 0 <= i < w * h && vis0[i] ==> #[trigger] v_old[i],
                v_old.len() == w * h,
                stack@ == s_old + added,
                added.no_duplicates(),
                forall|k: int|
                    0 <= k < added.len() ==> {
                        &&& (#[trigger] added[k]) < w * h
                        &&& !v_old[added[k] as int]
                        &&& is_ink(ink0, wi, hi, added[k] as int)
                        &&& touching(wi, hi, p as int, added[k] as int)
                    },
                forall|i: int|
                    0 <= i < w * h ==> #[trigger] visited@[i] == (v_old[i] || added.contains(i as usize)),
                forall|q: int|
                    touching(wi, hi, p as int, q) && is_ink(ink0, wi, hi, q) && offset_done(
                        q % wi - x,
                        q / wi - y,
                        dx as int,
                        dy as int,
                    ) ==> #[trigger] visited@[q],
            decreases 3 - dx,
        {
            let sx = shift(x, dx, w);
            let sy = shift(y, dy, h);
            if !(dx == 1 && dy == 1) && sx.is_some() && sy.is_some() {
                let nx = sx.unwrap();
                let ny = sy.unwrap();
                let len = ink.len();
                proof {
                    lemma_coords(wi, nx as int, ny as int);
                    assert(ny * w + nx < w * h && ny * w <= ny * w + nx) by (nonlinear_arith)
                        requires
                            nx < w,
                            ny < h,
                    ;
                }
                let q = ny * w + nx;
                if ink[q] != 0 && !visited[q] {
                    let ghost added0 = added;
                    let ghost visited0 = visited@;
                    proof {
                        assert(!vis0[q as int]);
                        assert(!added.contains(q));
                        added = added.push(q);
                        assert(added.drop_last() =~= added0);
                        assert forall|k: int| 0 <= k < added.len() - 1 implies added[k] != q by {
                            assert(added[k] == added.drop_last()[k]);
                            assert(added.drop_last().contains(added[k]));
                        }
                    }
                    visited.set(q, true);
                    stack.push(q);
                    proof {
                        assert forall|i: int| 0 <= i < w * h implies #[trigger] visited@[i] == (v_old[i]
                            || added.contains(i as usize)) by {
                            if i == q {
                                assert(added[added.len() - 1] == q);
                            } else {
                                assert(visited@[i] == visited0[i]);
                                assert(visited0[i] == (v_old[i] || added0.contains(i as usize)));
                                assert(added.contains(i as usize) <==> added.drop_last().contains(
                                    i as usize,
                                )) by {
                                    if added.contains(i as usize) {
                                        let k = choose|k: int| 0 <= k < added.len() && added[k] == i as usize;
                                        assert(added.drop_last()[k] == added[k]);
                                    }
                                    if added.drop_last().contains(i as usize) {
                                        let k = choose|k: int| 0 <= k < added.drop_last().len() && added.drop_last()[k] == i as usize;
                                        assert(added.drop_last()[k] == added[k]);
                                    }
                                }
                            }
                        }
                    }
                }
            }
            proof {
                assert forall|q: int|
                    touching(wi, hi, p as int, q) && is_ink(ink0, wi, hi, q) && offset_done(
                        q % wi - x,
                        q / wi - y,
                        dx + 1,
                        dy as int,
                    ) implies #[trigger] visited@[q] by {
                    lemma_index(wi, hi, q);
                    if !offset_done(q % wi - x, q / wi - y, dx as int, dy as int) {
                        assert(q / wi == y + dy - 1);
                        assert(q % wi == x + dx - 1);
                    }
                }
            }
            dx = dx + 1;
        }
        proof {
            assert forall|q: int|
                touching(wi, hi, p as int, q) && is_ink(ink0, wi, hi, q) && offset_done(
                    q % wi - x,
                    q / wi - y,
                    0,
                    dy + 1,
                ) implies #[trigger] visited@[q] by {
                assert(offset_done(q % wi - x, q / wi - y, 3, dy as int) || offset_done(
                    q % wi - x,
                    q / wi - y,
                    0,
                    dy as int,
                ));
            }
        }
        dy = dy + 1;
    }
    proof {
        assert forall|q: int|
            touching(wi, hi, p as int, q) && is_ink(ink0, wi, hi, q) implies #[trigger] visited@[q] by {
            assert(offset_done(q % wi - x, q / wi - y, 0, 3));
        }
    }
}

/// The pixel indices of `s` as integers.
pub open spec fn as_ints(s: Seq<usize>) -> Seq<int> {
    s.map_values(|u: usize| u as int)
}

proof fn lemma_distinct_bound(s: Seq<usize>, n: int)
    requires
        s.no_duplicates(),
        forall|k: int| 0 <= k < s.len() ==> (#[trigger] s[k]) < n,
        0 <= n,
    ensures
        s.len() <= n,
        as_ints(s).no_duplicates(),
        as_ints(s).len() == as_ints(s).to_set().len(),
{
    let t = as_ints(s);
    assert forall|i: int, j: int| 0 <= i < t.len() && 0 <= j < t.len() && i != j implies t[i] != t[j] by {
        assert(s[i] != s[j]);
    }
    t.unique_seq_to_set();
    assert forall|x: int| t.to_set().contains(x) implies set_int_range(0, n).contains(x) by {
        let k = choose|k: int| 0 <= k < t.len() && t[k] == x;
        assert(s[k] < n);
    }
    lemma_int_range(0, n);
    lemma_len_subset(t.to_set(), set_int_range(0, n));
}

proof fn lemma_flood_step(
    ink0: Seq<u8>,
    w: int,
    h: int,
    start: int,
    vis0: Seq<bool>,
    visited0: Seq<bool>,
    visited: Seq<bool>,
    comp0: Seq<usize>,
    stack0: Seq<usize>,
    rest: Seq<usize>,
    added: Seq<usize>,
    p: usize,
)
    requires
        0 < w,
        w * h <= usize::MAX,
        vis0.len() == w * h,
        visited0.len() == w * h,
        visited.len() == w * h,
        stack0 == rest.push(p),
        comp0.no_duplicates(),
        stack0.no_duplicates(),
        forall|x: usize| #[trigger] comp0.contains(x) ==> !stack0.contains(x),
        comp0.contains(start as usize) || stack0.contains(start as usize),
        0 <= start,
        forall|k: int|
            0 <= k < comp0.len() ==> {
                &&& (#[trigger] comp0[k]) < w * h
                &&& !vis0[comp0[k] as int]
                &&& connected(ink0, w, h, start, comp0[k] as int)
            },
        forall|k: int|
            0 <= k < stack0.len() ==> {
                &&& (#[trigger] stack0[k]) < w * h
                &&& !vis0[stack0[k] as int]
                &&& connected(ink0, w, h, start, stack0[k] as int)
            },
        forall|i: int|
            0 <= i < w * h ==> #[trigger] visited0[i] == (vis0[i] || comp0.contains(i as usize)
                || stack0.contains(i as usize)),
        forall|x: int, y: int|
            #![trigger comp0.contains(x as usize), visited0[y]]
            0 <= x < w * h && comp0.contains(x as usize) && touching(w, h, x, y) && is_ink(ink0, w, h, y)
                ==> visited0[y],
        added.no_duplicates(),
        forall|k: int|
            0 <= k < added.len() ==> {
                &&& (#[trigger] added[k]) < w * h
                &&& !visited0[added[k] as int]
                &&& is_ink(ink0, w, h, added[k] as int)
                &&& touching(w, h, p as int, added[k] as int)
            },
        forall|i: int| 0 <= i < w * h ==> #[trigger] visited[i] == (visited0[i] || added.contains(i as usize)),
        forall|q: int| touching(w, h, p as int, q) && is_ink(ink0, w, h, q) ==> #[trigger] visited[q],
    ensures
        ({
            let comp = comp0.push(p);
            let stack = rest + added;
            &&& comp.no_duplicates()
            &&& stack.no_duplicates()
            &&& forall|x: usize| #[trigger] comp.contains(x) ==> !stack.contains(x)
            &&& comp.contains(start as usize) || stack.contains(start as usize)
            &&& forall|k: int|
                0 <= k < comp.len() ==> {
                    &&& (#[trigger] comp[k]) < w * h
                    &&& !vis0[comp[k] as int]
                    &&& connected(ink0, w, h, start, comp[k] as int)
                }
            &&& forall|k: int|
                0 <= k < stack.len() ==> {
                    &&& (#[trigger] stack[k]) < w * h
                    &&& !vis0[stack[k] as int]
                    &&& connected(ink0, w, h, start, stack[k] as int)
                }
            &&& forall|i: int|
                0 <= i < w * h ==> #[trigger] visited[i] == (vis0[i] || comp.contains(i as usize)
                    || stack.contains(i as usize))
            &&& forall|x: int, y: int|
                #![trigger comp.contains(x as usize), visited[y]]
                0 <= x < w * h && comp.contains(x as usize) && touching(w, h, x, y) && is_ink(
                    ink0,
                    w,
                    h,
                    y,
                ) ==> visited[y]
        }),
{
    let comp = comp0.push(p);
    let stack = rest + added;
    assert(stack0[stack0.len() - 1] == p);
    assert forall|x: usize| #[trigger] rest.contains(x) implies stack0.contains(x) && x != p by {
        let k = choose|k: int| 0 <= k < rest.len() && rest[k] == x;
        assert(stack0[k] == x);
    }
    assert forall|x: usize| #[trigger] comp.contains(x) implies comp0.contains(x) || x == p by {
        let k = choose|k: int| 0 <= k < comp.len() && comp[k] == x;
        if k < comp0.len() {
            assert(comp0[k] == x);
        }
    }
    assert forall|x: usize| #[trigger] stack.contains(x) implies rest.contains(x) || added.contains(x) by {
        let k = choose|k: int| 0 <= k < stack.len() && stack[k] == x;
        if k < rest.len() {
            assert(rest[k] == x);
        } else {
            assert(added[k - rest.len()] == x);
        }
    }
    assert forall|x: usize| rest.contains(x) || added.contains(x) implies #[trigger] stack.contains(x) by {
        if rest.contains(x) {
            let k = choose|k: int| 0 <= k < rest.len() && rest[k] == x;
            assert(stack[k] == x);
        } else {
            let k = choose|k: int| 0 <= k < added.len() && added[k] == x;
            assert(stack[k + rest.len()] == x);
        }
    }
    assert forall|x: usize| comp0.contains(x) || x == p implies #[trigger] comp.contains(x) by {
        if x == p {
            assert(comp[comp0.len() as int] == p);
        } else {
            let k = choose|k: int| 0 <= k < comp0.len() && comp0[k] == x;
            assert(comp[k] == x);
        }
    }
    assert(stack0.contains(p));
    // facts about the elements of rest and added
    assert forall|x: usize| #[trigger] added.contains(x) implies !visited0[x as int] && x < w * h && !rest.contains(
        x,
    ) && !comp0.contains(x) && x != p by {
        let k = choose|k: int| 0 <= k < added.len() && added[k] == x;
        if rest.contains(x) {
            assert(stack0.contains(x));
            assert(visited0[x as int]);
        }
        if comp0.contains(x) {
            assert(visited0[x as int]);
        }
        if x == p {
            assert(visited0[p as int]);
        }
    }
    assert forall|i: int, j: int| 0 <= i < comp.len() && 0 <= j < comp.len() && i != j implies comp[i]
        != comp[j] by {
        if i < comp0.len() && j < comp0.len() {
        } else if i < comp0.len() {
            assert(comp0.contains(comp[i]));
        } else {
            assert(comp0.contains(comp[j]));
        }
    }
    assert forall|i: int, j: int| 0 <= i < stack.len() && 0 <= j < stack.len() && i != j implies stack[i]
        != stack[j] by {
        if i < rest.len() && j < rest.len() {
            assert(stack0[i] == rest[i] && stack0[j] == rest[j]);
        } else if i < rest.len() {
            assert(rest.contains(stack[i]));
            assert(added.contains(stack[j])) by {
                assert(added[j - rest.len()] == stack[j]);
            }
        } else if j < rest.len() {
            assert(rest.contains(stack[j]));
            assert(added.contains(stack[i])) by {
                assert(added[i - rest.len()] == stack[i]);
            }
        } else {
            assert(added[i - rest.len()] != added[j - rest.len()]);
        }
    }
    assert forall|k: int| 0 <= k < stack.len() implies {
        &&& (#[trigger] stack[k]) < w * h
        &&& !vis0[stack[k] as int]
        &&& connected(ink0, w, h, start, stack[k] as int)
    } by {
        if k < rest.len() {
            assert(stack0[k] == stack[k]);
        } else {
            let q = added[k - rest.len()];
            assert(stack[k] == q);
            assert(!visited0[q as int]);
            assert(connected(ink0, w, h, start, p as int));
            let step = seq![p as int, q as int];
            let path = choose|path: Seq<int>| #[trigger] ink_path(ink0, w, h, path) && path[0] == start && path.last() == p as int;
            assert(is_ink(ink0, w, h, path[path.len() - 1]));
            assert(ink_path(ink0, w, h, step));
            assert(connected(ink0, w, h, p as int, q as int));
            lemma_connected_trans(ink0, w, h, start, p as int, q as int);
        }
    }
    assert forall|k: int| 0 <= k < comp.len() implies {
        &&& (#[trigger] comp[k]) < w * h
        &&& !vis0[comp[k] as int]
        &&& connected(ink0, w, h, start, comp[k] as int)
    } by {
        if k < comp0.len() {
            assert(comp0[k] == comp[k]);
        } else {
            assert(stack0[stack0.len() - 1] == comp[k]);
        }
    }
    assert forall|x: int, y: int|
        #![trigger comp.contains(x as usize), visited[y]]
        0 <= x < w * h && comp.contains(x as usize) && touching(w, h, x, y) && is_ink(ink0, w, h, y)
            implies visited[y] by {
        if x as usize == p {
            assert(x == p as int);
        } else {
            assert(comp0.contains(x as usize));
            assert(visited0[y]);
        }
    }
}

/// Collects the component of `start` by a depth-first flood fill, marking it.
fn flood(
    ink: &[u8],
    w: usize,
    h: usize,
    start: usize,
    visited: &mut Vec<bool>,
    Ghost(ink0): Ghost<Seq<u8>>,
) -> (comp: Vec<usize>)
    requires
        0 < w,
        w * h <= ink@.len(),
        ink0.len() == ink@.len(),
        start < w * h,
        old(visited)@.len() == w * h,
        forall|i: int| 0 <= i < w * h && !old(visited)@[i] ==> ink@[i] == ink0[i],
        is_ink(ink0, w as int, h as int, start as int),
        !old(visited)@[start as int],
        closed_set(ink0, w as int, h as int, marked(old(visited)@)),
    ensures
        final(visited)@.len() == w * h,
        comp@.len() == component(ink0, w as int, h as int, start as int).len(),
        forall|i: int|
            0 <= i < w * h ==> #[trigger] final(visited)@[i] == (old(visited)@[i] || component(
                ink0,
                w as int,
                h as int,
                start as int,
            ).contains(i)),
        forall|k: int|
            0 <= k < comp@.len() ==> component(ink0, w as int, h as int, start as int).contains(
                #[trigger] comp@[k] as int,
            ) && comp@[k] < w * h,
        forall|i: int|
            component(ink0, w as int, h as int, start as int).contains(i) ==> 0 <= i < w * h
                && comp@.contains(i as usize),
{
    let ghost wi = w as int;
    let ghost hi = h as int;
    let ghost vis0 = visited@;
    let ghost n = w * h;
    let len = ink.len();
    assert(n <= usize::MAX);
    let mut stack: Vec<usize> = Vec::new();
    let mut comp: Vec<usize> = Vec::new();
    stack.push(start);
    visited.set(start, true);
    proof {
        lemma_connected_refl(ink0, wi, hi, start as int);
        assert(stack@[0] == start);
        assert forall|i: int| 0 <= i < n implies #[trigger] visited@[i] == (vis0[i] || comp@.contains(
            i as usize,
        ) || stack@.contains(i as usize)) by {
            if i == start {
            } else {
                assert(!stack@.contains(i as usize));
            }
        }
    }
    loop
        invariant
            0 < w,
            wi == w,
            hi == h,
            n == w * h,
            n <= usize::MAX,
            w * h <= ink@.len(),
            ink0.len() == ink@.len(),
            start < n,
            vis0.len() == n,
            visited@.len() == n,
            forall|i: int| 0 <= i < n && !vis0[i] ==> ink@[i] == ink0[i],
            !vis0[start as int],
            closed_set(ink0, wi, hi, marked(vis0)),
            comp@.no_duplicates(),
            stack@.no_duplicates(),
            comp@.len() <= n,
            forall|x: usize| #[trigger] comp@.contains(x) ==> !stack@.contains(x),
            comp@.contains(start) || stack@.contains(start),
            forall|k: int|
                0 <= k < comp@.len() ==> {
                    &&& (#[trigger] comp@[k]) < n
                    &&& !vis0[comp@[k] as int]
                    &&& connected(ink0, wi, hi, start as int, comp@[k] as int)
                },
            forall|k: int|
                0 <= k < stack@.len() ==> {
                    &&& (#[trigger] stack@[k]) < n
                    &&& !vis0[stack@[k] as int]
                    &&& connected(ink0, wi, hi, start as int, stack@[k] as int)
                },
            forall|i: int|
                0 <= i < n ==> #[trigger] visited@[i] == (vis0[i] || comp@.contains(i as usize)
                    || stack@.contains(i as usize)),
            forall|x: int, y: int|
                #![trigger comp@.contains(x as usize), visited@[y]]
                0 <= x < n && comp@.contains(x as usize) && touching(wi, hi, x, y) && is_ink(
                    ink0,
                    wi,
                    hi,
                    y,
                ) ==> visited@[y],
        ensures
            stack@.len() == 0,
            visited@.len() == n,
            comp@.no_duplicates(),
            comp@.contains(start),
            forall|k: int|
                0 <= k < comp@.len() ==> {
                    &&& (#[trigger] comp@[k]) < n
                    &&& !vis0[comp@[k] as int]
                    &&& connected(ink0, wi, hi, start as int, comp@[k] as int)
                },
            forall|i: int|
                0 <= i < n ==> #[trigger] visited@[i] == (vis0[i] || comp@.contains(i as usize)),
            forall|x: int, y: int|
                #![trigger comp@.contains(x as usize), visited@[y]]
                0 <= x < n && comp@.contains(x as usize) && touching(wi, hi, x, y) && is_ink(
                    ink0,
                    wi,
                    hi,
                    y,
                ) ==> visited@[y],
        decreases n - comp@.len(),
    {
        let ghost stack0 = stack@;
        let ghost comp0 = comp@;
        let ghost visited0 = visited@;
        match stack.pop() {
            None => {
                break;
            },
            Some(p) => {
                let ghost rest = stack@;
                proof {
                    assert(stack0 == rest.push(p));
                    assert(stack0[stack0.len() - 1] == p);
                    assert(!comp0.contains(p));
                    assert forall|x: usize| #[trigger] rest.contains(x) implies stack0.contains(x) && x != p by {
                        let k = choose|k: int| 0 <= k < rest.len() && rest[k] == x;
                        assert(stack0[k] == x);
                    }
                }
                comp.push(p);
                proof {
                    assert forall|k: int| 0 <= k < comp@.len() - 1 implies comp@[k] != p by {
                        assert(comp0.contains(comp@[k]));
                    }
                    assert(comp@.no_duplicates());
                    lemma_distinct_bound(comp@, n as int);
                }
                visit_neighbors(ink, w, h, p, visited, &mut stack, Ghost(ink0), Ghost(vis0));
                proof {
                    let added = choose|added: Seq<usize>|
                        {
                            &&& stack@ == rest + added
                            &&& added.no_duplicates()
                            &&& forall|k: int|
                                0 <= k < added.len() ==> {
                                    &&& (#[trigger] added[k]) < w * h
                                    &&& !visited0[added[k] as int]
                                    &&& is_ink(ink0, w as int, h as int, added[k] as int)
                                    &&& touching(w as int, h as int, p as int, added[k] as int)
                                }
                            &&& forall|i: int|
                                0 <= i < w * h ==> #[trigger] visited@[i] == (visited0[i]
                                    || added.contains(i as usize))
                        };
                    lemma_flood_step(ink0, wi, hi, start as int, vis0, visited0, visited@, comp0, stack0, rest, added, p);
                }
            },
        }
    }
    proof {
        let cs = as_ints(comp@);
        let comp_set = component(ink0, wi, hi, start as int);
        lemma_distinct_bound(comp@, n as int);
        assert forall|x: int| cs.to_set().contains(x) implies comp_set.contains(x) by {
            let k = choose|k: int| 0 <= k < cs.len() && cs[k] == x;
            assert(connected(ink0, wi, hi, start as int, comp@[k] as int));
        }
        assert forall|x: int, y: int|
            #![trigger cs.to_set().contains(x), cs.to_set().contains(y)]
            cs.to_set().contains(x) && touching(wi, hi, x, y) && is_ink(ink0, wi, hi, y)
                implies cs.to_set().contains(y) by {
            let k = choose|k: int| 0 <= k < cs.len() && cs[k] == x;
            assert(comp@.contains(x as usize)) by {
                assert(comp@[k] == x as usize);
            }
            assert(visited@[y]);
            if vis0[y] {
                let path = choose|path: Seq<int>| #[trigger] ink_path(ink0, wi, hi, path) && path[0] == start as int && path.last() == x;
                assert(is_ink(ink0, wi, hi, path[path.len() - 1]));
                assert(marked(vis0).contains(y));
                lemma_touching_sym(wi, hi, x, y);
                assert(marked(vis0).contains(x));
            }
            assert(comp@.contains(y as usize));
            let j = choose|j: int| 0 <= j < comp@.len() && comp@[j] == y as usize;
            assert(cs[j] == y);
        }
        assert(cs.to_set().contains(start as int)) by {
            let k = choose|k: int| 0 <= k < comp@.len() && comp@[k] == start;
            assert(cs[k] == start as int);
        }
        assert forall|x: int| comp_set.contains(x) implies cs.to_set().contains(x) by {
            lemma_closed_holds_component(ink0, wi, hi, cs.to_set(), start as int, x);
        }
        assert(cs.to_set() =~= comp_set);
        assert forall|i: int| 0 <= i < n implies #[trigger] visited@[i] == (vis0[i] || comp_set.contains(i)) by {
            if comp@.contains(i as usize) {
                let k = choose|k: int| 0 <= k < comp@.len() && comp@[k] == i as usize;
                assert(cs[k] == i);
            }
            if comp_set.contains(i) {
                let k = choose|k: int| 0 <= k < cs.len() && cs[k] == i;
                assert(comp@[k] == i as usize);
            }
        }
        assert forall|i: int| comp_set.contains(i) implies 0 <= i < n && comp@.contains(i as usize) by {
            let k = choose|k: int| 0 <= k < cs.len() && cs[k] == i;
            assert(comp@[k] == i as usize);
        }
    }
    comp
}

/// Removes the 8-connected ink components smaller than `min_size` pixels.
pub fn despeckle(ink: &mut [u8], w: usize, h: usize, min_size: usize)
    requires
        w * h <= old(ink)@.len(),
    ensures
        final(ink)@.len() == old(ink)@.len(),
        forall|i: int|
            0 <= i < final(ink)@.len() ==> #[trigger] final(ink)@[i] == despeckled(
                old(ink)@,
                w as int,
                h as int,
                min_size as int,
                i,
            ),
{
    let ghost ink0 = ink@;
    let ghost wi = w as int;
    let ghost hi = h as int;
    let len = ink.len();
    let n = w * h;
    let mut visited: Vec<bool> = Vec::new();
    while visited.len() < n
        invariant
            visited@.len() <= n,
            forall|i: int| 0 <= i < visited@.len() ==> !(#[trigger] visited@[i]),
        decreases n - visited@.len(),
    {
        visited.push(false);
    }
    proof {
        assert forall|x: int, y: int|
            #![trigger marked(visited@).contains(x), marked(visited@).contains(y)]
            marked(visited@).contains(x) && touching(wi, hi, x, y) && is_ink(ink0, wi, hi, y)
                implies marked(visited@).contains(y) by {}
    }
    let mut start: usize = 0;
    while start < n
        invariant
            n == w * h,
            n <= ink@.len(),
            ink@.len() == ink0.len(),
            wi == w,
            hi == h,
            start <= n,
            visited@.len() == n,
            closed_set(ink0, wi, hi, marked(visited@)),
            forall|i: int| 0 <= i < n && #[trigger] visited@[i] ==> is_ink(ink0, wi, hi, i),
            forall|i: int| 0 <= i < start && is_ink(ink0, wi, hi, i) ==> #[trigger] visited@[i],
            forall|i: int|
                0 <= i < ink@.len() ==> #[trigger] ink@[i] == if i < n && visited@[i] {
                    despeckled(ink0, wi, hi, min_size as int, i)
                } else {
                    ink0[i]
                },
        decreases n - start,
    {
        if ink[start] != 0 && !visited[start] {
            let ghost vis_before = visited@;
            let ghost c = component(ink0, wi, hi, start as int);
            let comp = flood(ink, w, h, start, &mut visited, Ghost(ink0));
            proof {
                lemma_component_closed(ink0, wi, hi, start as int);
                assert(marked(visited@) =~= marked(vis_before).union(c)) by {
                    assert forall|i: int| marked(visited@).contains(i) implies marked(vis_before).union(c).contains(i) by {}
                    assert forall|i: int| marked(vis_before).union(c).contains(i) implies marked(visited@).contains(i) by {}
                }
                assert forall|x: int, y: int|
                    #![trigger marked(visited@).contains(x), marked(visited@).contains(y)]
                    marked(visited@).contains(x) && touching(wi, hi, x, y) && is_ink(ink0, wi, hi, y)
                        implies marked(visited@).contains(y) by {
                    if marked(vis_before).contains(x) {
                        assert(marked(vis_before).contains(y));
                    } else {
                        assert(c.contains(x));
                        assert(c.contains(y));
                    }
                }
                assert forall|i: int| 0 <= i < n && #[trigger] visited@[i] implies is_ink(ink0, wi, hi, i) by {
                    if !vis_before[i] {
                        assert(c.contains(i));
                        let path = choose|path: Seq<int>| #[trigger] ink_path(ink0, wi, hi, path) && path[0] == start as int && path.last() == i;
                        assert(is_ink(ink0, wi, hi, path[path.len() - 1]));
                    }
                }
                lemma_connected_refl(ink0, wi, hi, start as int);
                assert(c.contains(start as int));
            }
            let ghost ink_before = ink@;
            if comp.len() < min_size {
                let mut k: usize = 0;
                while k < comp.len()
                    invariant
                        k <= comp@.len(),
                        ink@.len() == ink_before.len(),
                        forall|j: int| 0 <= j < comp@.len() ==> (#[trigger] comp@[j]) < n,
                        n <= ink@.len(),
                        forall|i: int|
                            0 <= i < ink@.len() ==> #[trigger] ink@[i] == if exists|j: int|
                                0 <= j < k && comp@[j] == i {
                                0u8
                            } else {
                                ink_before[i]
                            },
                    decreases comp@.len() - k,
                {
                    let p = comp[k];
                    ink[p] = 0;
                    proof {
                        assert forall|i: int| 0 <= i < ink@.len() implies #[trigger] ink@[i] == if exists|j: int|
                            0 <= j < k + 1 && comp@[j] == i {
                            0u8
                        } else {
                            ink_before[i]
                        } by {
                            if i == p {
                                assert(comp@[k as int] == i);
                            } else if exists|j: int| 0 <= j < k + 1 && comp@[j] == i {
                                let j = choose|j: int| 0 <= j < k + 1 && comp@[j] == i;
                                assert(j < k);
                            }
                        }
                    }
                    k = k + 1;
                }
            }
            proof {
                assert forall|i: int| 0 <= i < ink@.len() implies #[trigger] ink@[i] == if i < n
                    && visited@[i] {
                    despeckled(ink0, wi, hi, min_size as int, i)
                } else {
                    ink0[i]
                } by {
                    if i < n && c.contains(i) {
                        lemma_component_eq(ink0, wi, hi, start as int, i);
                        lemma_component_finite(ink0, wi, hi, i);
                        assert(comp@.contains(i as usize));
                        let j = choose|j: int| 0 <= j < comp@.len() && comp@[j] == i as usize;
                        if vis_before[i] {
                            lemma_connected_sym(ink0, wi, hi, start as int, i);
                            assert(marked(vis_before).contains(i));
                            lemma_closed_holds_component(ink0, wi, hi, marked(vis_before), i, start as int);
                        }
                        assert(!vis_before[i]);
                        let path = choose|path: Seq<int>| #[trigger] ink_path(ink0, wi, hi, path) && path[0] == start as int && path.last() == i;
                        assert(is_ink(ink0, wi, hi, path[path.len() - 1]));
                        if comp@.len() < min_size {
                            assert(exists|j: int| 0 <= j < comp@.len() && comp@[j] == i);
                        }
                    } else {
                        if comp@.len() < min_size {
                            if exists|j: int| 0 <= j < comp@.len() && comp@[j] == i {
                                let j = choose|j: int| 0 <= j < comp@.len() && comp@[j] == i;
                                assert(c.contains(comp@[j] as int));
                            }
                        }
                    }
                }
            }
        }
        start = start + 1;
    }
    proof {
        assert forall|i: int| 0 <= i < ink@.len() implies #[trigger] ink@[i] == despeckled(
            ink0,
            wi,
            hi,
            min_size as int,
            i,
        ) by {
            if !(i < n && visited@[i]) {
                assert(!is_ink(ink0, wi, hi, i));
            }
        }
    }
}

// ---------------------------------------------------------------------------
// Despeckling twice changes nothing

proof fn lemma_kept_component_same(
    a: Seq<u8>,
    b: Seq<u8>,
    w: int,
    h: int,
    min_size: int,
    i: int,
)
    requires
        0 <= w * h <= a.len(),
        b.len() == a.len(),
        forall|k: int| 0 <= k < a.len() ==> #[trigger] b[k] == despeckled(a, w, h, min_size, k),
        is_ink(b, w, h, i),
    ensures
        component(b, w, h, i) == component(a, w, h, i),
        component(a, w, h, i).len() >= min_size,
{
    assert(b[i] == despeckled(a, w, h, min_size, i));
    assert(is_ink(a, w, h, i));
    assert forall|q: int| component(b, w, h, i).contains(q) implies component(a, w, h, i).contains(q) by {
        let path = choose|path: Seq<int>| #[trigger] ink_path(b, w, h, path) && path[0] == i && path.last() == q;
        assert forall|k: int| 0 <= k < path.len() implies is_ink(a, w, h, #[trigger] path[k]) by {
            assert(is_ink(b, w, h, path[k]));
            assert(b[path[k]] == despeckled(a, w, h, min_size, path[k]));
        }
        assert(ink_path(a, w, h, path));
    }
    assert forall|q: int| component(a, w, h, i).contains(q) implies component(b, w, h, i).contains(q) by {
        let path = choose|path: Seq<int>| #[trigger] ink_path(a, w, h, path) && path[0] == i && path.last() == q;
        assert forall|k: int| 0 <= k < path.len() implies is_ink(b, w, h, #[trigger] path[k]) by {
            let x = path[k];
            assert(is_ink(a, w, h, x));
            let pre = path.take(k + 1);
            assert(ink_path(a, w, h, pre)) by {
                assert forall|t: int| 0 <= t < pre.len() implies is_ink(a, w, h, #[trigger] pre[t]) by {
                    assert(pre[t] == path[t]);
                }
                assert forall|t: int| 0 <= t < pre.len() - 1 implies touching(w, h, #[trigger] pre[t], pre[t + 1]) by {
                    assert(pre[t] == path[t] && pre[t + 1] == path[t + 1]);
                }
            }
            assert(pre[0] == i && pre.last() == x);
            assert(connected(a, w, h, i, x));
            lemma_component_eq(a, w, h, i, x);
            assert(b[x] == despeckled(a, w, h, min_size, x));
        }
        assert(ink_path(b, w, h, path));
    }
    assert(component(b, w, h, i) =~= component(a, w, h, i));
}

/// Despeckling is idempotent: what despeckling leaves has no component
/// smaller than `min_size`, so a second pass keeps every pixel.
pub proof fn lemma_despeckle_idempotent(a: Seq<u8>, b: Seq<u8>, w: int, h: int, min_size: int)
    requires
        0 <= w * h <= a.len(),
        b.len() == a.len(),
        forall|k: int| 0 <= k < a.len() ==> #[trigger] b[k] == despeckled(a, w, h, min_size, k),
    ensures
        forall|k: int| 0 <= k < b.len() ==> #[trigger] despeckled(b, w, h, min_size, k) == b[k],
{
    assert forall|k: int| 0 <= k < b.len() implies #[trigger] despeckled(b, w, h, min_size, k) == b[k] by {
        if is_ink(b, w, h, k) {
            lemma_kept_component_same(a, b, w, h, min_size, k);
        }
    }
}


// ---------------------------------------------------------------------------
// Despeckling in pixel coordinates

/// The index of pixel `(x, y)` in a mask `w` pixels wide.
pub open spec fn at(w: int, q: (int, int)) -> int {
    q.1 * w + q.0
}

proof fn lemma_at_in_range(w: int, h: int, q: (int, int))
    requires
        0 < w,
        0 <= q.0 < w,
        0 <= q.1 < h,
    ensures
        0 <= at(w, q) < w * h,
        at(w, q) % w == q.0,
        at(w, q) / w == q.1,
{
    lemma_coords(w, q.0, q.1);
    assert(q.1 * w + q.0 < w * h) by (nonlinear_arith)
        requires
            0 <= q.0 < w,
            0 <= q.1 < h,
    ;
}

/// A chain of ink pixels in which each pixel lies within one step (in any of
/// the eight directions, diagonals included) of the next, and no pixel comes
/// twice, is kept whole when it has at least `min_size` pixels: pixels that
/// meet only at a corner belong to one component.
pub proof fn lemma_despeckle_keeps_chains(
    a: Seq<u8>,
    w: int,
    h: int,
    min_size: int,
    c: Seq<(int, int)>,
)
    requires
        0 < w,
        0 <= h,
        w * h <= a.len(),
        c.len() >= 1,
        c.len() >= min_size,
        c.no_duplicates(),
        forall|i: int|
            0 <= i < c.len() ==> 0 <= (#[trigger] c[i]).0 < w && 0 <= c[i].1 < h && a[c[i].1 * w
                + c[i].0] != 0,
        forall|i: int|
            0 <= i < c.len() - 1 ==> -1 <= (#[trigger] c[i + 1]).0 - c[i].0 <= 1 && -1 <= c[i + 1].1
                - c[i].1 <= 1,
    ensures
        forall|i: int|
            0 <= i < c.len() ==> despeckled(a, w, h, min_size, (#[trigger] c[i]).1 * w + c[i].0) == a[c[i].1
                * w + c[i].0],
{
    let path = c.map_values(|q: (int, int)| at(w, q));
    assert forall|i: int| 0 <= i < path.len() implies is_ink(a, w, h, #[trigger] path[i]) && path[i]
        % w == c[i].0 && path[i] / w == c[i].1 by {
        lemma_at_in_range(w, h, c[i]);
    }
    assert forall|i: int| 0 <= i < path.len() - 1 implies touching(w, h, #[trigger] path[i], path[i + 1]) by {
        lemma_at_in_range(w, h, c[i]);
        lemma_at_in_range(w, h, c[i + 1]);
        assert(c[i] != c[i + 1]);
    }
    assert(ink_path(a, w, h, path));
    assert forall|i: int| 0 <= i < path.len() implies connected(a, w, h, path[0], #[trigger] path[i]) by {
        let pre = path.take(i + 1);
        assert(ink_path(a, w, h, pre));
        assert(pre[0] == path[0] && pre.last() == path[i]);
    }
    assert(path.no_duplicates()) by {
        assert forall|i: int, j: int| 0 <= i < path.len() && 0 <= j < path.len() && i != j implies path[i]
            != path[j] by {
            lemma_at_in_range(w, h, c[i]);
            lemma_at_in_range(w, h, c[j]);
        }
    }
    path.unique_seq_to_set();
    let comp = component(a, w, h, path[0]);
    lemma_component_finite(a, w, h, path[0]);
    assert(path.to_set().subset_of(comp));
    lemma_len_subset(path.to_set(), comp);
    assert forall|i: int| 0 <= i < c.len() implies despeckled(a, w, h, min_size, (#[trigger] c[i]).1 * w
        + c[i].0) == a[c[i].1 * w + c[i].0] by {
        assert(path[i] == c[i].1 * w + c[i].0);
        lemma_component_eq(a, w, h, path[0], path[i]);
    }
}

/// An ink pixel with no ink among its eight neighbours (diagonals included)
/// is a component of one pixel, so it is removed once `min_size` is 2 or more.
pub proof fn lemma_despeckle_removes_lone_pixels(a: Seq<u8>, w: int, h: int, min_size: int, x: int, y: int)
    requires
        0 < w,
        0 <= h,
        w * h <= a.len(),
        min_size >= 2,
        0 <= x < w,
        0 <= y < h,
        a[y * w + x] != 0,
        forall|qx: int, qy: int|
            0 <= qx < w && 0 <= qy < h && -1 <= qx - x <= 1 && -1 <= qy - y <= 1 && (qx, qy) != (x, y)
                ==> #[trigger] a[qy * w + qx] == 0,
    ensures
        despeckled(a, w, h, min_size, y * w + x) == 0,
{
    let p = y * w + x;
    lemma_at_in_range(w, h, (x, y));
    assert(at(w, (x, y)) == p);
    let comp = component(a, w, h, p);
    assert forall|q: int| comp.contains(q) implies q == p by {
        let path = choose|path: Seq<int>| #[trigger] ink_path(a, w, h, path) && path[0] == p && path.last() == q;
        if path.len() > 1 {
            let n = path[1];
            assert(touching(w, h, path[0], path[1]));
            assert(is_ink(a, w, h, path[1]));
            lemma_index(w, h, n);
            let qx = n % w;
            let qy = n / w;
            assert(n == qy * w + qx);
            assert((qx, qy) != (x, y));
            assert(a[qy * w + qx] == 0);
        }
    }
    lemma_component_finite(a, w, h, p);
    assert(comp.subset_of(set![p]));
    lemma_len_subset(comp, set![p]);
    assert(set![p].len() == 1);
}

} // verus!
