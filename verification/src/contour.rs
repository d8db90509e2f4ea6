//! Pixel-edge boundary tracing.
//!
//! The boundary is traced along the lattice *between* pixels. Every ink pixel
//! contributes a unit directed edge on each side that faces paper, oriented so
//! that the ink lies on the right of travel (y grows downwards). The edges are
//! linked head to tail into loops, outer boundaries and holes alike; holes come
//! out with the opposite winding.

use vstd::prelude::*;
use vstd::arithmetic::div_mod::{lemma_fundamental_div_mod_converse_div,
    lemma_fundamental_div_mod_converse_mod};

verus! {

/// A lattice point or a lattice step.
pub type V = (i32, i32);

// ---------------------------------------------------------------------------
// The model

/// Pixel `(x, y)` is ink.
pub open spec fn fg(ink: Seq<u8>, w: int, h: int, x: int, y: int) -> bool {
    0 <= x < w && 0 <= y < h && ink[y * w + x] != 0
}

/// The unit edge from `a` to `b` has ink on its right and paper on its left.
pub open spec fn is_bedge(ink: Seq<u8>, w: int, h: int, a: V, b: V) -> bool {
    let ax = a.0 as int;
    let ay = a.1 as int;
    let dx = b.0 - a.0;
    let dy = b.1 - a.1;
    if dx == 1 && dy == 0 {
        fg(ink, w, h, ax, ay) && !fg(ink, w, h, ax, ay - 1)
    } else if dx == 0 && dy == 1 {
        fg(ink, w, h, ax - 1, ay) && !fg(ink, w, h, ax, ay)
    } else if dx == -1 && dy == 0 {
        fg(ink, w, h, ax - 1, ay - 1) && !fg(ink, w, h, ax - 1, ay)
    } else if dx == 0 && dy == -1 {
        fg(ink, w, h, ax, ay - 1) && !fg(ink, w, h, ax - 1, ay - 1)
    } else {
        false
    }
}

/// The pixel on the right of the unit step `d` taken from `a`.
pub open spec fn right_pixel(a: V, d: V) -> (int, int) {
    if d == (1i32, 0i32) {
        (a.0 as int, a.1 as int)
    } else if d == (0i32, 1i32) {
        (a.0 - 1, a.1 as int)
    } else if d == (-1i32, 0i32) {
        (a.0 - 1, a.1 - 1)
    } else {
        (a.0 as int, a.1 - 1)
    }
}

/// Pixel `q` comes before position `pos` in row-major scan order.
pub open spec fn scanned_before(q: (int, int), pos: (int, int)) -> bool {
    q.1 < pos.1 || (q.1 == pos.1 && q.0 < pos.0)
}

pub open spec fn step_to(v: V, d: V) -> V {
    ((v.0 + d.0) as i32, (v.1 + d.1) as i32)
}

/// `d` is one of the four unit steps.
pub open spec fn is_unit(d: V) -> bool {
    d == (1i32, 0i32) || d == (0i32, 1i32) || d == (-1i32, 0i32) || d == (0i32, -1i32)
}

/// Lattice point `v` is `0..=w` by `0..=h`.
pub open spec fn in_lattice(w: int, h: int, v: V) -> bool {
    0 <= v.0 <= w && 0 <= v.1 <= h
}

/// The edge from `v` in direction `d` as a list of one target, if it is a
/// boundary edge whose ink pixel was scanned before `pos` and not in `used`.
pub open spec fn cand(ink: Seq<u8>, w: int, h: int, v: V, d: V, pos: (int, int), used: Set<
    (V, V),
>) -> Seq<V> {
    if is_bedge(ink, w, h, v, step_to(v, d)) && scanned_before(right_pixel(v, d), pos)
        && !used.contains((v, step_to(v, d))) {
        seq![step_to(v, d)]
    } else {
        seq![]
    }
}

/// The out-edges of `v` in the order in which a row-major scan of the pixels
/// finds them (west, north, south, east), restricted to pixels scanned before
/// `pos` and to edges not in `used`.
pub open spec fn outs(ink: Seq<u8>, w: int, h: int, v: V, pos: (int, int), used: Set<(V, V)>) -> Seq<
    V,
> {
    cand(ink, w, h, v, (-1i32, 0i32), pos, used) + cand(ink, w, h, v, (0i32, -1i32), pos, used)
        + cand(ink, w, h, v, (0i32, 1i32), pos, used) + cand(ink, w, h, v, (1i32, 0i32), pos, used)
}

/// The boundary edges out of `v` that are not in `used`, in scan order.
pub open spec fn avail(ink: Seq<u8>, w: int, h: int, v: V, used: Set<(V, V)>) -> Seq<V> {
    outs(ink, w, h, v, (0, h), used)
}

/// The lattice point with index `i` (row-major, `w + 1` points a row).
pub open spec fn vtx(w: int, i: int) -> V {
    ((i % (w + 1)) as i32, (i / (w + 1)) as i32)
}

// ---------------------------------------------------------------------------
// Direction helpers

/// The direction `d` turned a quarter to the right (y grows downwards).
pub fn cw(d: V) -> (r: V)
    requires
        d.1 > i32::MIN,
    ensures
        r.0 == -d.1,
        r.1 == d.0,
{
    (-d.1, d.0)
}

/// The direction `d` turned a quarter to the left (y grows downwards).
pub fn ccw(d: V) -> (r: V)
    requires
        d.0 > i32::MIN,
    ensures
        r.0 == d.1,
        r.1 == -d.0,
{
    (d.1, -d.0)
}

/// The direction `d` reversed.
pub fn rev(d: V) -> (r: V)
    requires
        d.0 > i32::MIN,
        d.1 > i32::MIN,
    ensures
        r.0 == -d.0,
        r.1 == -d.1,
{
    (-d.0, -d.1)
}

// ---------------------------------------------------------------------------
// Indexing lemmas

proof fn lemma_vid(w: int, h: int, v: V)
    requires
        0 <= w,
        0 <= h,
        in_lattice(w, h, v),
    ensures
        0 <= v.1 * (w + 1) + v.0 < (w + 1) * (h + 1),
        vtx(w, v.1 * (w + 1) + v.0) == v,
{
    let i = v.1 * (w + 1) + v.0;
    lemma_fundamental_div_mod_converse_div(i, w + 1, v.1 as int, v.0 as int);
    lemma_fundamental_div_mod_converse_mod(i, w + 1, v.1 as int, v.0 as int);
    assert(0 <= v.1 * (w + 1)) by (nonlinear_arith)
        requires
            0 <= v.1,
            0 <= w,
    ;
    assert(v.1 * (w + 1) + v.0 < (w + 1) * (h + 1)) by (nonlinear_arith)
        requires
            0 <= v.0 <= w,
            0 <= v.1 <= h,
    ;
}

proof fn lemma_vtx_in_lattice(w: int, h: int, i: int)
    requires
        0 <= w,
        0 <= h,
        0 <= i < (w + 1) * (h + 1),
        w < i32::MAX,
        h < i32::MAX,
    ensures
        in_lattice(w, h, vtx(w, i)),
        vtx(w, i).1 * (w + 1) + vtx(w, i).0 == i,
{
    let q = i / (w + 1);
    let r = i % (w + 1);
    assert(i == q * (w + 1) + r && 0 <= r < w + 1) by (nonlinear_arith)
        requires
            q == i / (w + 1),
            r == i % (w + 1),
            w + 1 > 0,
    ;
    assert(0 <= q <= h) by (nonlinear_arith)
        requires
            i == q * (w + 1) + r,
            0 <= r < w + 1,
            0 <= i < (w + 1) * (h + 1),
    ;
}

/// Pixel `(x, y)` is ink; checks the bounds first.
fn fg_at(ink: &[u8], w: usize, h: usize, x: i32, y: i32) -> (r: bool)
    requires
        w * h <= ink@.len(),
    ensures
        r == fg(ink@, w as int, h as int, x as int, y as int),
{
    if x >= 0 && y >= 0 && (x as usize) < w && (y as usize) < h {
        let xu = x as usize;
        let yu = y as usize;
        let len = ink.len();
        assert(yu * w + xu < len) by (nonlinear_arith)
            requires
                xu < w,
                yu < h,
                w * h <= len,
        ;
        ink[yu * w + xu] != 0
    } else {
        false
    }
}

// ---------------------------------------------------------------------------
// Building the edge lists

/// A boundary edge has its ink pixel on its right.
proof fn lemma_bedge_right_fg(ink: Seq<u8>, w: int, h: int, v: V, d: V)
    requires
        in_lattice(w, h, v),
        w < i32::MAX,
        h < i32::MAX,
        is_unit(d),
        is_bedge(ink, w, h, v, step_to(v, d)),
    ensures
        fg(ink, w, h, right_pixel(v, d).0, right_pixel(v, d).1),
{
}

proof fn lemma_outs_start(ink: Seq<u8>, w: int, h: int, v: V)
    requires
        in_lattice(w, h, v),
        w < i32::MAX,
        h < i32::MAX,
    ensures
        outs(ink, w, h, v, (0, 0), Set::empty()) =~= Seq::<V>::empty(),
{
    if is_bedge(ink, w, h, v, step_to(v, (1i32, 0i32))) {
        lemma_bedge_right_fg(ink, w, h, v, (1i32, 0i32));
    }
    if is_bedge(ink, w, h, v, step_to(v, (0i32, 1i32))) {
        lemma_bedge_right_fg(ink, w, h, v, (0i32, 1i32));
    }
    if is_bedge(ink, w, h, v, step_to(v, (-1i32, 0i32))) {
        lemma_bedge_right_fg(ink, w, h, v, (-1i32, 0i32));
    }
    if is_bedge(ink, w, h, v, step_to(v, (0i32, -1i32))) {
        lemma_bedge_right_fg(ink, w, h, v, (0i32, -1i32));
    }
}

proof fn lemma_cand_row(ink: Seq<u8>, w: int, h: int, v: V, d: V, y: int, used: Set<(V, V)>)
    requires
        is_unit(d),
        in_lattice(w, h, v),
        w < i32::MAX,
        h < i32::MAX,
    ensures
        cand(ink, w, h, v, d, (w, y), used) == cand(ink, w, h, v, d, (0, y + 1), used),
{
    if is_bedge(ink, w, h, v, step_to(v, d)) {
        lemma_bedge_right_fg(ink, w, h, v, d);
    }
}

/// Finishing a row is the same as standing at the start of the next one.
proof fn lemma_outs_row(ink: Seq<u8>, w: int, h: int, v: V, y: int, used: Set<(V, V)>)
    requires
        in_lattice(w, h, v),
        w < i32::MAX,
        h < i32::MAX,
    ensures
        outs(ink, w, h, v, (w, y), used) == outs(ink, w, h, v, (0, y + 1), used),
{
    lemma_cand_row(ink, w, h, v, (1i32, 0i32), y, used);
    lemma_cand_row(ink, w, h, v, (0i32, 1i32), y, used);
    lemma_cand_row(ink, w, h, v, (-1i32, 0i32), y, used);
    lemma_cand_row(ink, w, h, v, (0i32, -1i32), y, used);
}

/// What scanning pixel `(x, y)` adds to the out-edge list of `v`.
pub open spec fn pixel_adds(ink: Seq<u8>, w: int, h: int, x: int, y: int, v: V) -> Seq<V> {
    if v == (x as i32, y as i32) && is_bedge(ink, w, h, v, step_to(v, (1i32, 0i32))) {
        seq![step_to(v, (1i32, 0i32))]
    } else if v == ((x + 1) as i32, y as i32) && is_bedge(ink, w, h, v, step_to(v, (0i32, 1i32))) {
        seq![step_to(v, (0i32, 1i32))]
    } else if v == ((x + 1) as i32, (y + 1) as i32) && is_bedge(
        ink,
        w,
        h,
        v,
        step_to(v, (-1i32, 0i32)),
    ) {
        seq![step_to(v, (-1i32, 0i32))]
    } else if v == (x as i32, (y + 1) as i32) && is_bedge(ink, w, h, v, step_to(v, (0i32, -1i32))) {
        seq![step_to(v, (0i32, -1i32))]
    } else {
        seq![]
    }
}

proof fn lemma_outs_pixel(ink: Seq<u8>, w: int, h: int, x: int, y: int, v: V)
    requires
        in_lattice(w, h, v),
        0 <= x < w,
        0 <= y < h,
        w < i32::MAX,
        h < i32::MAX,
    ensures
        outs(ink, w, h, v, (x + 1, y), Set::empty()) =~= outs(ink, w, h, v, (x, y), Set::empty())
            + pixel_adds(ink, w, h, x, y, v),
{
    let e: Set<(V, V)> = Set::empty();
    if is_bedge(ink, w, h, v, step_to(v, (1i32, 0i32))) {
        lemma_bedge_right_fg(ink, w, h, v, (1i32, 0i32));
    }
    if is_bedge(ink, w, h, v, step_to(v, (0i32, 1i32))) {
        lemma_bedge_right_fg(ink, w, h, v, (0i32, 1i32));
    }
    if is_bedge(ink, w, h, v, step_to(v, (-1i32, 0i32))) {
        lemma_bedge_right_fg(ink, w, h, v, (-1i32, 0i32));
    }
    if is_bedge(ink, w, h, v, step_to(v, (0i32, -1i32))) {
        lemma_bedge_right_fg(ink, w, h, v, (0i32, -1i32));
    }
}

/// Appends the edge `a -> b` to the list of `a`.
fn push_edge(adj: &mut Vec<Vec<V>>, w: usize, h: usize, a: V, b: V)
    requires
        w < i32::MAX,
        h < i32::MAX,
        old(adj)@.len() == (w + 1) * (h + 1),
        (w + 1) * (h + 1) <= usize::MAX,
        in_lattice(w as int, h as int, a),
    ensures
        final(adj)@.len() == old(adj)@.len(),
        forall|i: int|
            0 <= i < old(adj)@.len() ==> (#[trigger] final(adj)@[i])@ == if vtx(w as int, i) == a {
                old(adj)@[i]@.push(b)
            } else {
                old(adj)@[i]@
            },
{
    proof {
        lemma_vid(w as int, h as int, a);
    }
    let i = a.1 as usize * (w + 1) + a.0 as usize;
    adj[i].push(b);
    proof {
        assert forall|j: int| 0 <= j < old(adj)@.len() implies (#[trigger] final(adj)@[j])@ == if vtx(
            w as int,
            j,
        ) == a {
            old(adj)@[j]@.push(b)
        } else {
            old(adj)@[j]@
        } by {
            lemma_vtx_in_lattice(w as int, h as int, j);
        }
    }
}

/// The out-edge list of every lattice point, in scan order.
fn build_edges(ink: &[u8], w: usize, h: usize) -> (adj: Vec<Vec<V>>)
    requires
        w < i32::MAX,
        h < i32::MAX,
        w * h <= ink@.len(),
        (w + 1) * (h + 1) <= usize::MAX,
    ensures
        adj@.len() == (w + 1) * (h + 1),
        forall|i: int|
            0 <= i < adj@.len() ==> (#[trigger] adj@[i])@ == avail(
                ink@,
                w as int,
                h as int,
                vtx(w as int, i),
                Set::empty(),
            ),
{
    let ghost wi = w as int;
    let ghost hi = h as int;
    let ghost e: Set<(V, V)> = Set::empty();
    let n = (w + 1) * (h + 1);
    let mut adj: Vec<Vec<V>> = Vec::new();
    while adj.len() < n
        invariant
            adj@.len() <= n,
            n == (w + 1) * (h + 1),
            wi == w,
            hi == h,
            e == Set::<(V, V)>::empty(),
            w < i32::MAX,
            h < i32::MAX,
            forall|i: int|
                0 <= i < adj@.len() ==> (#[trigger] adj@[i])@ == outs(
                    ink@,
                    wi,
                    hi,
                    vtx(wi, i),
                    (0, 0),
                    e,
                ),
        decreases n - adj@.len(),
    {
        proof {
            lemma_vtx_in_lattice(wi, hi, adj@.len() as int);
            lemma_outs_start(ink@, wi, hi, vtx(wi, adj@.len() as int));
        }
        adj.push(Vec::new());
    }
    let mut y: usize = 0;
    while y < h
        invariant
            0 <= y <= h,
            adj@.len() == n,
            n == (w + 1) * (h + 1),
            n <= usize::MAX,
            wi == w,
            hi == h,
            e == Set::<(V, V)>::empty(),
            w < i32::MAX,
            h < i32::MAX,
            w * h <= ink@.len(),
            forall|i: int|
                0 <= i < n ==> (#[trigger] adj@[i])@ == outs(
                    ink@,
                    wi,
                    hi,
                    vtx(wi, i),
                    (0, y as int),
                    e,
                ),
        decreases h - y,
    {
        let mut x: usize = 0;
        while x < w
            invariant
                0 <= y < h,
                0 <= x <= w,
                adj@.len() == n,
                n == (w + 1) * (h + 1),
                n <= usize::MAX,
                wi == w,
                hi == h,
                e == Set::<(V, V)>::empty(),
                w < i32::MAX,
                h < i32::MAX,
                w * h <= ink@.len(),
                forall|i: int|
                    0 <= i < n ==> (#[trigger] adj@[i])@ == outs(
                        ink@,
                        wi,
                        hi,
                        vtx(wi, i),
                        (x as int, y as int),
                        e,
                    ),
            decreases w - x,
        {
            let xi = x as i32;
            let yi = y as i32;
            let ghost before = adj@;
            let c = fg_at(ink, w, h, xi, yi);
            let top = c && !fg_at(ink, w, h, xi, yi - 1);
            let right = c && !fg_at(ink, w, h, xi + 1, yi);
            let bottom = c && !fg_at(ink, w, h, xi, yi + 1);
            let left = c && !fg_at(ink, w, h, xi - 1, yi);
            let ghost v0: V = (xi, yi);
            let ghost v1: V = ((xi + 1) as i32, yi);
            let ghost v2: V = ((xi + 1) as i32, (yi + 1) as i32);
            let ghost v3: V = (xi, (yi + 1) as i32);
            if top {
                push_edge(&mut adj, w, h, (xi, yi), (xi + 1, yi));
            }
            if right {
                push_edge(&mut adj, w, h, (xi + 1, yi), (xi + 1, yi + 1));
            }
            if bottom {
                push_edge(&mut adj, w, h, (xi + 1, yi + 1), (xi, yi + 1));
            }
            if left {
                push_edge(&mut adj, w, h, (xi, yi + 1), (xi, yi));
            }
            proof {
                assert forall|i: int| 0 <= i < n implies (#[trigger] adj@[i])@ == outs(
                    ink@,
                    wi,
                    hi,
                    vtx(wi, i),
                    (x + 1, y as int),
                    e,
                ) by {
                    let v = vtx(wi, i);
                    lemma_vtx_in_lattice(wi, hi, i);
                    lemma_outs_pixel(ink@, wi, hi, x as int, y as int, v);
                    assert(before[i]@ == outs(ink@, wi, hi, v, (x as int, y as int), e));
                    assert(top == is_bedge(ink@, wi, hi, v0, step_to(v0, (1i32, 0i32))));
                    assert(right == is_bedge(ink@, wi, hi, v1, step_to(v1, (0i32, 1i32))));
                    assert(bottom == is_bedge(ink@, wi, hi, v2, step_to(v2, (-1i32, 0i32))));
                    assert(left == is_bedge(ink@, wi, hi, v3, step_to(v3, (0i32, -1i32))));
                    assert(adj@[i]@ =~= before[i]@ + pixel_adds(ink@, wi, hi, x as int, y as int, v));
                    assert(adj@[i]@ == outs(ink@, wi, hi, v, (x as int + 1, y as int), e));
                }
            }
            x = x + 1;
        }
        proof {
            assert forall|i: int| 0 <= i < n implies (#[trigger] adj@[i])@ == outs(
                ink@,
                wi,
                hi,
                vtx(wi, i),
                (0, y + 1),
                e,
            ) by {
                lemma_vtx_in_lattice(wi, hi, i);
                lemma_outs_row(ink@, wi, hi, vtx(wi, i), y as int, e);
            }
        }
        y = y + 1;
    }
    adj
}

// ---------------------------------------------------------------------------
// Walking the edges

/// The edges along a path.
pub open spec fn path_edges(p: Seq<V>) -> Set<(V, V)> {
    Set::new(|e: (V, V)| exists|j: int| #![trigger p[j]] 0 <= j < p.len() - 1 && e == (p[j], p[j + 1]))
}

/// The edges of the first `k` walks.
pub open spec fn edges_before(r: Seq<Seq<V>>, k: int) -> Set<(V, V)>
    decreases k,
{
    if k <= 0 {
        Set::empty()
    } else {
        edges_before(r, k - 1).union(path_edges(r[k - 1]))
    }
}

/// The step from `a` to `b`.
pub open spec fn diff(a: V, b: V) -> V {
    ((b.0 - a.0) as i32, (b.1 - a.1) as i32)
}

/// The turn preferences at a vertex reached in direction `din`: sharpest
/// right turn first, then straight on, then left, then back.
pub open spec fn pref_dir(din: V, k: int) -> V {
    if k == 0 {
        ((-din.1) as i32, din.0)
    } else if k == 1 {
        din
    } else if k == 2 {
        (din.1, (-din.0) as i32)
    } else {
        ((-din.0) as i32, (-din.1) as i32)
    }
}

/// The boundary edge `v -> t` is not in `used`.
pub open spec fn open_edge(ink: Seq<u8>, w: int, h: int, used: Set<(V, V)>, v: V, t: V) -> bool {
    is_bedge(ink, w, h, v, t) && !used.contains((v, t))
}

pub open spec fn pref_open(ink: Seq<u8>, w: int, h: int, used: Set<(V, V)>, v: V, din: V, k: int) -> bool {
    open_edge(ink, w, h, used, v, step_to(v, pref_dir(din, k)))
}

/// The first of the four preferences that leads along an open edge (4 if none).
pub open spec fn first_pref(ink: Seq<u8>, w: int, h: int, used: Set<(V, V)>, v: V, din: V) -> int {
    if pref_open(ink, w, h, used, v, din, 0) {
        0
    } else if pref_open(ink, w, h, used, v, din, 1) {
        1
    } else if pref_open(ink, w, h, used, v, din, 2) {
        2
    } else if pref_open(ink, w, h, used, v, din, 3) {
        3
    } else {
        4
    }
}

/// Step `j` of `p` (from `p[j]` to `p[j + 1]`) follows the turn rule, given
/// the edges `used` before the walk.
pub open spec fn step_ok(ink: Seq<u8>, w: int, h: int, used: Set<(V, V)>, p: Seq<V>, j: int) -> bool {
    step_rule(ink, w, h, used, p.take(j + 1), p[j + 1])
}

/// A walk that has gone along `pre` (not yet back at its start) continues to
/// `next`: the first open edge by turn preference, given the edges `used`
/// before the walk and those of `pre`.
#[verifier::opaque]
pub open spec fn step_rule(ink: Seq<u8>, w: int, h: int, used: Set<(V, V)>, pre: Seq<V>, next: V) -> bool {
    let u = used.union(path_edges(pre));
    let cur = pre.last();
    let din = diff(pre[pre.len() - 2], cur);
    &&& cur != pre[0]
    &&& first_pref(ink, w, h, u, cur, din) < 4
    &&& next == step_to(cur, pref_dir(din, first_pref(ink, w, h, u, cur, din)))
}

/// `p` is the walk that starts at `p[0]` when the edges in `used` are taken:
/// its first edge is the last open edge out of `p[0]` in scan order; each later
/// step takes the first open edge by turn preference; it stops on coming back
/// to `p[0]`, or where no open edge leaves.
#[verifier::opaque]
pub open spec fn walk_ok(ink: Seq<u8>, w: int, h: int, used: Set<(V, V)>, p: Seq<V>) -> bool {
    &&& p.len() >= 2
    &&& avail(ink, w, h, p[0], used).len() > 0
    &&& p[1] == avail(ink, w, h, p[0], used).last()
    &&& forall|j: int| 1 <= j < p.len() - 1 ==> #[trigger] step_ok(ink, w, h, used, p, j)
    &&& p.last() == p[0] || first_pref(
        ink,
        w,
        h,
        used.union(path_edges(p)),
        p.last(),
        diff(p[p.len() - 2], p.last()),
    ) == 4
}

/// `u` comes before `v` when points are sorted as `(x, y)` pairs.
pub open spec fn lex_less(u: V, v: V) -> bool {
    u.0 < v.0 || (u.0 == v.0 && u.1 < v.1)
}

/// `s` is the first lattice point, in `(x, y)` order, with an open edge.
#[verifier::opaque]
pub open spec fn start_ok(ink: Seq<u8>, w: int, h: int, used: Set<(V, V)>, s: V) -> bool {
    &&& in_lattice(w, h, s)
    &&& avail(ink, w, h, s, used).len() > 0
    &&& forall|v: V|
        in_lattice(w, h, v) && lex_less(v, s) ==> #[trigger] avail(ink, w, h, v, used).len() == 0
}

/// Each walk of `r` starts and proceeds by the rules, given the walks before it.
pub open spec fn walks_ok(ink: Seq<u8>, w: int, h: int, r: Seq<Seq<V>>) -> bool {
    forall|k: int|
        #![trigger r[k]]
        0 <= k < r.len() ==> start_ok(ink, w, h, edges_before(r, k), r[k][0]) && walk_ok(
            ink,
            w,
            h,
            edges_before(r, k),
            r[k],
        )
}

/// `r` is the sequence of walks the tracer makes: each starts at the first
/// point with an open edge and follows the walk rule, and together they use
/// every boundary edge.
pub open spec fn is_trace(ink: Seq<u8>, w: int, h: int, r: Seq<Seq<V>>) -> bool {
    &&& walks_ok(ink, w, h, r)
    &&& forall|v: V|
        in_lattice(w, h, v) ==> #[trigger] avail(ink, w, h, v, edges_before(r, r.len() as int)).len()
            == 0
}

proof fn lemma_cand_full(ink: Seq<u8>, w: int, h: int, v: V, d: V, used: Set<(V, V)>)
    requires
        in_lattice(w, h, v),
        is_unit(d),
        w < i32::MAX,
        h < i32::MAX,
    ensures
        cand(ink, w, h, v, d, (0, h), used) == if open_edge(ink, w, h, used, v, step_to(v, d)) {
            seq![step_to(v, d)]
        } else {
            Seq::<V>::empty()
        },
{
    if is_bedge(ink, w, h, v, step_to(v, d)) {
        lemma_bedge_right_fg(ink, w, h, v, d);
    }
}

/// The open edges out of `v`: at most two, and then opposite ones.
proof fn lemma_avail_shape(ink: Seq<u8>, w: int, h: int, v: V, used: Set<(V, V)>)
    requires
        in_lattice(w, h, v),
        w < i32::MAX,
        h < i32::MAX,
    ensures
        ({
            let ow = open_edge(ink, w, h, used, v, step_to(v, (-1i32, 0i32)));
            let on = open_edge(ink, w, h, used, v, step_to(v, (0i32, -1i32)));
            let os = open_edge(ink, w, h, used, v, step_to(v, (0i32, 1i32)));
            let oe = open_edge(ink, w, h, used, v, step_to(v, (1i32, 0i32)));
            let l = avail(ink, w, h, v, used);
            &&& !(oe && os) && !(os && ow) && !(ow && on) && !(on && oe)
            &&& l == (if ow { seq![step_to(v, (-1i32, 0i32))] } else { Seq::<V>::empty() }) + (if on {
                seq![step_to(v, (0i32, -1i32))]
            } else {
                Seq::<V>::empty()
            }) + (if os { seq![step_to(v, (0i32, 1i32))] } else { Seq::<V>::empty() }) + (if oe {
                seq![step_to(v, (1i32, 0i32))]
            } else {
                Seq::<V>::empty()
            })
        }),
{
    lemma_cand_full(ink, w, h, v, (-1i32, 0i32), used);
    lemma_cand_full(ink, w, h, v, (0i32, -1i32), used);
    lemma_cand_full(ink, w, h, v, (0i32, 1i32), used);
    lemma_cand_full(ink, w, h, v, (1i32, 0i32), used);
}

/// Taking the open edge at position `pos` of the list of `v` (by swapping the
/// last entry in) leaves the list of the remaining open edges.
proof fn lemma_avail_remove(ink: Seq<u8>, w: int, h: int, v: V, used: Set<(V, V)>, pos: int)
    requires
        in_lattice(w, h, v),
        w < i32::MAX,
        h < i32::MAX,
        0 <= pos < avail(ink, w, h, v, used).len(),
    ensures
        ({
            let l = avail(ink, w, h, v, used);
            &&& l.update(pos, l.last()).drop_last() =~= avail(
                ink,
                w,
                h,
                v,
                used.insert((v, l[pos])),
            )
            &&& open_edge(ink, w, h, used, v, l[pos])
            &&& l.len() <= 2
        }),
{
    let t = avail(ink, w, h, v, used)[pos];
    lemma_avail_shape(ink, w, h, v, used);
    lemma_avail_shape(ink, w, h, v, used.insert((v, t)));
}

/// Edges out of other points do not change the list of `v`.
proof fn lemma_avail_other(ink: Seq<u8>, w: int, h: int, v: V, used: Set<(V, V)>, more: Set<(V, V)>)
    requires
        in_lattice(w, h, v),
        w < i32::MAX,
        h < i32::MAX,
        forall|e: (V, V)| #[trigger] more.contains(e) ==> e.0 != v,
    ensures
        avail(ink, w, h, v, used.union(more)) == avail(ink, w, h, v, used),
{
    lemma_avail_shape(ink, w, h, v, used);
    lemma_avail_shape(ink, w, h, v, used.union(more));
    assert(!more.contains((v, step_to(v, (-1i32, 0i32)))));
    assert(!more.contains((v, step_to(v, (0i32, -1i32)))));
    assert(!more.contains((v, step_to(v, (0i32, 1i32)))));
    assert(!more.contains((v, step_to(v, (1i32, 0i32)))));
}

/// Once all edges out of `v` are taken, more taken edges change nothing.
proof fn lemma_avail_mono(ink: Seq<u8>, w: int, h: int, v: V, used: Set<(V, V)>, more: Set<(V, V)>)
    requires
        in_lattice(w, h, v),
        w < i32::MAX,
        h < i32::MAX,
        avail(ink, w, h, v, used).len() == 0,
        used.subset_of(more),
    ensures
        avail(ink, w, h, v, more).len() == 0,
{
    lemma_avail_shape(ink, w, h, v, used);
    lemma_avail_shape(ink, w, h, v, more);
}

pub open spec fn opt1(b: bool, x: V) -> Seq<V> {
    if b {
        seq![x]
    } else {
        Seq::<V>::empty()
    }
}

proof fn lemma_four_contains(b0: bool, x0: V, b1: bool, x1: V, b2: bool, x2: V, b3: bool, x3: V)
    requires
        x0 != x1 && x0 != x2 && x0 != x3 && x1 != x2 && x1 != x3 && x2 != x3,
    ensures
        ({
            let l = opt1(b0, x0) + opt1(b1, x1) + opt1(b2, x2) + opt1(b3, x3);
            &&& l.contains(x0) == b0
            &&& l.contains(x1) == b1
            &&& l.contains(x2) == b2
            &&& l.contains(x3) == b3
        }),
{
    let l = opt1(b0, x0) + opt1(b1, x1) + opt1(b2, x2) + opt1(b3, x3);
    assert forall|j: int| 0 <= j < l.len() implies (l[j] == x0 && b0) || (l[j] == x1 && b1) || (l[j]
        == x2 && b2) || (l[j] == x3 && b3) by {}
    if b0 {
        assert(l[0] == x0);
    }
    if b1 {
        assert(l[opt1(b0, x0).len() as int] == x1);
    }
    if b2 {
        assert(l[(opt1(b0, x0).len() + opt1(b1, x1).len()) as int] == x2);
    }
    if b3 {
        assert(l[(opt1(b0, x0).len() + opt1(b1, x1).len() + opt1(b2, x2).len()) as int] == x3);
    }
}

/// A unit step from `v` leads to an entry of the list of `v` exactly when its
/// edge is open; and if no preference is open, the list is empty.
proof fn lemma_avail_member(ink: Seq<u8>, w: int, h: int, v: V, used: Set<(V, V)>, din: V)
    requires
        in_lattice(w, h, v),
        w < i32::MAX,
        h < i32::MAX,
        is_unit(din),
    ensures
        forall|k: int|
            0 <= k < 4 ==> (avail(ink, w, h, v, used).contains(step_to(v, #[trigger] pref_dir(din, k)))
                <==> pref_open(ink, w, h, used, v, din, k)),
        forall|k: int| 0 <= k < 4 ==> is_unit(#[trigger] pref_dir(din, k)),
        first_pref(ink, w, h, used, v, din) == 4 ==> avail(ink, w, h, v, used).len() == 0,
{
    lemma_avail_shape(ink, w, h, v, used);
    let xw = step_to(v, (-1i32, 0i32));
    let xn = step_to(v, (0i32, -1i32));
    let xs = step_to(v, (0i32, 1i32));
    let xe = step_to(v, (1i32, 0i32));
    let ow = open_edge(ink, w, h, used, v, xw);
    let on = open_edge(ink, w, h, used, v, xn);
    let os = open_edge(ink, w, h, used, v, xs);
    let oe = open_edge(ink, w, h, used, v, xe);
    assert(avail(ink, w, h, v, used) == opt1(ow, xw) + opt1(on, xn) + opt1(os, xs) + opt1(oe, xe));
    lemma_four_contains(ow, xw, on, xn, os, xs, oe, xe);
}

/// The edge lists of all lattice points hold exactly the open edges.
pub open spec fn lists_match(ink: Seq<u8>, w: int, h: int, adj: Seq<Vec<V>>, used: Set<(V, V)>) -> bool {
    &&& adj.len() == (w + 1) * (h + 1)
    &&& forall|i: int|
        0 <= i < adj.len() ==> (#[trigger] adj[i])@ == avail(ink, w, h, vtx(w, i), used)
}

/// The `k`-th turn preference for a walk that came in along `din`.
fn pref_step(din: V, k: usize) -> (d: V)
    requires
        is_unit(din),
        k < 4,
    ensures
        d == pref_dir(din, k as int),
{
    if k == 0 {
        cw(din)
    } else if k == 1 {
        din
    } else if k == 2 {
        ccw(din)
    } else {
        rev(din)
    }
}

/// The first position of `t` in `l`.
fn find_in(l: &Vec<V>, t: V) -> (r: Option<usize>)
    ensures
        match r {
            Some(p) => p < l@.len() && l@[p as int] == t,
            None => !l@.contains(t),
        },
{
    let mut j: usize = 0;
    while j < l.len()
        invariant
            j <= l@.len(),
            forall|q: int| 0 <= q < j ==> l@[q] != t,
        decreases l@.len() - j,
    {
        if l[j].0 == t.0 && l[j].1 == t.1 {
            return Some(j);
        }
        j = j + 1;
    }
    None
}

proof fn lemma_lists_take(
    ink: Seq<u8>,
    w: int,
    h: int,
    old_adj: Seq<Vec<V>>,
    new_adj: Seq<Vec<V>>,
    used: Set<(V, V)>,
    cur: V,
    t: V,
)
    requires
        w < i32::MAX,
        h < i32::MAX,
        0 <= w,
        0 <= h,
        in_lattice(w, h, cur),
        lists_match(ink, w, h, old_adj, used),
        new_adj.len() == old_adj.len(),
        forall|i: int|
            0 <= i < old_adj.len() && vtx(w, i) != cur ==> (#[trigger] new_adj[i])@ == old_adj[i]@,
        forall|i: int|
            0 <= i < old_adj.len() && vtx(w, i) == cur ==> (#[trigger] new_adj[i])@ == avail(
                ink,
                w,
                h,
                cur,
                used.insert((cur, t)),
            ),
    ensures
        lists_match(ink, w, h, new_adj, used.insert((cur, t))),
{
    let more = Set::<(V, V)>::empty().insert((cur, t));
    assert(used.insert((cur, t)) =~= used.union(more));
    assert forall|i: int| 0 <= i < new_adj.len() implies (#[trigger] new_adj[i])@ == avail(
        ink,
        w,
        h,
        vtx(w, i),
        used.insert((cur, t)),
    ) by {
        lemma_vtx_in_lattice(w, h, i);
        if vtx(w, i) != cur {
            lemma_avail_other(ink, w, h, vtx(w, i), used, more);
        }
    }
}

/// Takes the next edge of a walk that reached `cur` along `din`: the first
/// open edge by turn preference, or nothing when no edge leaves `cur`.
fn choose_next(
    adj: &mut Vec<Vec<V>>,
    Ghost(ink): Ghost<Seq<u8>>,
    w: usize,
    h: usize,
    cur: V,
    din: V,
    Ghost(used): Ghost<Set<(V, V)>>,
) -> (r: Option<V>)
    requires
        w < i32::MAX,
        h < i32::MAX,
        (w + 1) * (h + 1) <= usize::MAX,
        in_lattice(w as int, h as int, cur),
        is_unit(din),
        lists_match(ink, w as int, h as int, old(adj)@, used),
    ensures
        match r {
            Some(t) => {
                &&& first_pref(ink, w as int, h as int, used, cur, din) < 4
                &&& t == step_to(
                    cur,
                    pref_dir(din, first_pref(ink, w as int, h as int, used, cur, din)),
                )
                &&& lists_match(ink, w as int, h as int, final(adj)@, used.insert((cur, t)))
            },
            None => {
                &&& first_pref(ink, w as int, h as int, used, cur, din) == 4
                &&& lists_match(ink, w as int, h as int, final(adj)@, used)
            },
        },
{
    let ghost wi = w as int;
    let ghost hi = h as int;
    proof {
        lemma_vid(wi, hi, cur);
        lemma_avail_member(ink, wi, hi, cur, used, din);
    }
    let ci = cur.1 as usize * (w + 1) + cur.0 as usize;
    assert(ci == cur.1 * (w + 1) + cur.0);
    assert(adj@[ci as int]@ == avail(ink, wi, hi, cur, used));
    let mut k: usize = 0;
    while k < 4
        invariant
            k <= 4,
            adj@ == old(adj)@,
            lists_match(ink, wi, hi, adj@, used),
            ci < adj@.len(),
            ci == cur.1 * (w + 1) + cur.0,
            vtx(wi, ci as int) == cur,
            adj@[ci as int]@ == avail(ink, wi, hi, cur, used),
            in_lattice(wi, hi, cur),
            is_unit(din),
            forall|q: int| 0 <= q < k ==> !pref_open(ink, wi, hi, used, cur, din, q),
            forall|q: int|
                0 <= q < 4 ==> (avail(ink, wi, hi, cur, used).contains(
                    step_to(cur, #[trigger] pref_dir(din, q)),
                ) <==> pref_open(ink, wi, hi, used, cur, din, q)),
            forall|q: int| 0 <= q < 4 ==> is_unit(#[trigger] pref_dir(din, q)),
            w < i32::MAX,
            h < i32::MAX,
            wi == w,
            hi == h,
        decreases 4 - k,
    {
        let d = pref_step(din, k);
        assert(is_unit(pref_dir(din, k as int)));
        let target: V = (cur.0 + d.0, cur.1 + d.1);
        assert(target == step_to(cur, pref_dir(din, k as int)));
        match find_in(&adj[ci], target) {
            Some(pos) => {
                let ghost before = adj@;
                proof {
                    lemma_avail_remove(ink, wi, hi, cur, used, pos as int);
                }
                adj[ci].swap_remove(pos);
                proof {
                    assert(first_pref(ink, wi, hi, used, cur, din) == k);
                    assert forall|i: int|
                        0 <= i < before.len() && vtx(wi, i) == cur implies (#[trigger] adj@[i])@
                        == avail(ink, wi, hi, cur, used.insert((cur, target))) by {
                        lemma_vtx_in_lattice(wi, hi, i);
                        lemma_vid(wi, hi, cur);
                        assert(i == ci);
                        let l = avail(ink, wi, hi, cur, used);
                        assert(l[pos as int] == target);
                        assert(adj@[i]@ == l.update(pos as int, l.last()).drop_last());
                    }
                    assert forall|i: int|
                        0 <= i < before.len() && vtx(wi, i) != cur implies (#[trigger] adj@[i])@
                        == before[i]@ by {}
                    lemma_lists_take(ink, wi, hi, before, adj@, used, cur, target);
                }
                return Some(target);
            },
            None => {},
        }
        k = k + 1;
    }
    assert(first_pref(ink, wi, hi, used, cur, din) == 4);
    let ghost before = adj@;
    let last = adj[ci].pop();
    assert forall|i: int| 0 <= i < adj@.len() implies (#[trigger] adj@[i])@ == avail(
        ink,
        wi,
        hi,
        vtx(wi, i),
        used,
    ) by {
        assert(before[i]@ == avail(ink, wi, hi, vtx(wi, i), used));
    }
    last
}

// ---------------------------------------------------------------------------
// Collapsing a walk to its corners

/// Point `i` of the closed polygon `q` is a corner: the step into it differs
/// from the step out of it.
pub open spec fn is_corner(q: Seq<V>, i: int) -> bool {
    let m = q.len() as int;
    diff(q[(i + m - 1) % m], q[i]) != diff(q[i], q[(i + 1) % m])
}

/// The corners among the first `i` points of `q`, in order.
pub open spec fn corners_upto(q: Seq<V>, i: int) -> Seq<V>
    decreases i,
{
    if i <= 0 {
        Seq::empty()
    } else {
        corners_upto(q, i - 1) + if is_corner(q, i - 1) {
            seq![q[i - 1]]
        } else {
            Seq::<V>::empty()
        }
    }
}

/// A walk reduced to its corners: the closing point (a repeat of the first)
/// is dropped and points in the middle of straight runs are removed. Walks
/// of fewer than four points are kept as they are.
pub open spec fn collapse_spec(p: Seq<V>) -> Seq<V> {
    if p.len() < 4 {
        p
    } else {
        let q = if p[0] == p.last() {
            p.drop_last()
        } else {
            p
        };
        corners_upto(q, q.len() as int)
    }
}

/// Removes the collinear interior points of a closed integer path.
fn collapse(path: &Vec<V>) -> (out: Vec<V>)
    requires
        forall|i: int| 0 <= i < path@.len() ==> 0 <= (#[trigger] path@[i]).0 && 0 <= path@[i].1,
    ensures
        out@ == collapse_spec(path@),
{
    let n = path.len();
    let mut out: Vec<V> = Vec::new();
    if n < 4 {
        let mut i: usize = 0;
        while i < n
            invariant
                n == path@.len(),
                i <= n,
                out@ == path@.take(i as int),
            decreases n - i,
        {
            out.push(path[i]);
            assert(path@.take(i as int + 1) =~= path@.take(i as int).push(path@[i as int]));
            i = i + 1;
        }
        assert(path@.take(n as int) =~= path@);
        return out;
    }
    let m = if path[0].0 == path[n - 1].0 && path[0].1 == path[n - 1].1 {
        n - 1
    } else {
        n
    };
    let ghost q = path@.take(m as int);
    assert(q =~= if path@[0] == path@.last() {
        path@.drop_last()
    } else {
        path@
    });
    let mut i: usize = 0;
    while i < m
        invariant
            n == path@.len(),
            3 <= m <= n,
            q == path@.take(m as int),
            i <= m,
            out@ == corners_upto(q, i as int),
            forall|k: int| 0 <= k < path@.len() ==> 0 <= (#[trigger] path@[k]).0 && 0 <= path@[k].1,
        decreases m - i,
    {
        let pi = if i == 0 {
            m - 1
        } else {
            i - 1
        };
        proof {
            if i == 0 {
                lemma_fundamental_div_mod_converse_mod(i + m - 1, m as int, 0, pi as int);
            } else {
                lemma_fundamental_div_mod_converse_mod(i + m - 1, m as int, 1, pi as int);
            }
        }
        assert(pi == (i + m - 1) % (m as int));
        let prev = path[pi];
        let cur = path[i];
        let next = path[(i + 1) % m];
        let d0: V = (cur.0 - prev.0, cur.1 - prev.1);
        let d1: V = (next.0 - cur.0, next.1 - cur.1);
        if d0.0 != d1.0 || d0.1 != d1.1 {
            out.push(cur);
        }
        assert(out@ =~= corners_upto(q, i + 1));
        i = i + 1;
    }
    out
}

// ---------------------------------------------------------------------------
// One walk

/// The number of edges still in the lists.
pub open spec fn sum_lens(a: Seq<Vec<V>>) -> nat
    decreases a.len(),
{
    if a.len() == 0 {
        0
    } else {
        sum_lens(a.drop_last()) + a.last()@.len()
    }
}

proof fn lemma_sum_lens_le(a: Seq<Vec<V>>, b: Seq<Vec<V>>, k: int)
    requires
        a.len() == b.len(),
        forall|i: int| 0 <= i < a.len() ==> (#[trigger] b[i])@.len() <= a[i]@.len(),
    ensures
        sum_lens(b) <= sum_lens(a),
        0 <= k < a.len() && b[k]@.len() < a[k]@.len() ==> sum_lens(b) < sum_lens(a),
    decreases a.len(),
{
    if a.len() > 0 {
        let a2 = a.drop_last();
        let b2 = b.drop_last();
        assert forall|i: int| 0 <= i < a2.len() implies (#[trigger] b2[i])@.len() <= a2[i]@.len() by {
            assert(b2[i] == b[i] && a2[i] == a[i]);
        }
        lemma_sum_lens_le(a2, b2, k);
        if 0 <= k < a.len() - 1 {
            assert(b2[k] == b[k] && a2[k] == a[k]);
        }
    }
}

/// A boundary edge starting in the lattice ends in it.
proof fn lemma_bedge_in_lattice(ink: Seq<u8>, w: int, h: int, a: V, b: V)
    requires
        in_lattice(w, h, a),
        is_bedge(ink, w, h, a, b),
        w < i32::MAX,
        h < i32::MAX,
    ensures
        in_lattice(w, h, b),
        is_unit(diff(a, b)),
{
}

/// Taking an open edge out of `cur` shortens the lists by one.
proof fn lemma_measure_drop(
    ink: Seq<u8>,
    w: int,
    h: int,
    a: Seq<Vec<V>>,
    b: Seq<Vec<V>>,
    used: Set<(V, V)>,
    cur: V,
    t: V,
)
    requires
        0 <= w < i32::MAX,
        0 <= h < i32::MAX,
        in_lattice(w, h, cur),
        open_edge(ink, w, h, used, cur, t),
        lists_match(ink, w, h, a, used),
        lists_match(ink, w, h, b, used.insert((cur, t))),
    ensures
        sum_lens(b) < sum_lens(a),
{
    let more = Set::<(V, V)>::empty().insert((cur, t));
    assert(used.insert((cur, t)) =~= used.union(more));
    lemma_bedge_in_lattice(ink, w, h, cur, t);
    lemma_avail_shape(ink, w, h, cur, used);
    lemma_avail_shape(ink, w, h, cur, used.insert((cur, t)));
    assert forall|i: int| 0 <= i < a.len() implies (#[trigger] b[i])@.len() <= a[i]@.len() by {
        lemma_vtx_in_lattice(w, h, i);
        if vtx(w, i) != cur {
            lemma_avail_other(ink, w, h, vtx(w, i), used, more);
        }
    }
    lemma_vid(w, h, cur);
    let k = cur.1 * (w + 1) + cur.0;
    lemma_sum_lens_le(a, b, k);
}

#[verifier::spinoff_prover]
proof fn lemma_path_edges_push(p: Seq<V>, t: V)
    requires
        p.len() >= 1,
    ensures
        path_edges(p.push(t)) =~= path_edges(p).insert((p.last(), t)),
{
    let q = p.push(t);
    assert forall|e: (V, V)| path_edges(q).contains(e) implies path_edges(p).insert((p.last(), t)).contains(
        e,
    ) by {
        let j = choose|j: int| #![trigger q[j]] 0 <= j < q.len() - 1 && e == (q[j], q[j + 1]);
        if j < p.len() - 1 {
            assert(p[j] == q[j] && p[j + 1] == q[j + 1]);
        }
    }
    assert forall|e: (V, V)| path_edges(p).insert((p.last(), t)).contains(e) implies path_edges(q).contains(
        e,
    ) by {
        if e == (p.last(), t) {
            assert(q[p.len() - 1] == p.last());
        } else {
            let j = choose|j: int| #![trigger p[j]] 0 <= j < p.len() - 1 && e == (p[j], p[j + 1]);
            assert(q[j] == p[j] && q[j + 1] == p[j + 1]);
        }
    }
}

proof fn lemma_walk_extend(ink: Seq<u8>, w: int, h: int, u0: Set<(V, V)>, p: Seq<V>, next: V)
    requires
        p.len() >= 2,
        p.last() != p[0],
        forall|j: int| 1 <= j < p.len() - 1 ==> #[trigger] step_ok(ink, w, h, u0, p, j),
        step_rule(ink, w, h, u0, p, next),
    ensures
        forall|j: int| 1 <= j < p.len() ==> #[trigger] step_ok(ink, w, h, u0, p.push(next), j),
{
    let q = p.push(next);
    assert forall|j: int| 1 <= j < p.len() implies #[trigger] step_ok(ink, w, h, u0, q, j) by {
        if j < p.len() - 1 {
            assert(step_ok(ink, w, h, u0, p, j));
            assert(q.take(j + 1) =~= p.take(j + 1));
            assert(q[j + 1] == p[j + 1]);
        } else {
            assert(q.take(j + 1) =~= p);
        }
    }
}

/// Follows the walk that starts with the edge `s0 -> first_end`, taking its
/// edges out of the lists.
fn walk_from(
    adj: &mut Vec<Vec<V>>,
    Ghost(ink): Ghost<Seq<u8>>,
    w: usize,
    h: usize,
    s0: V,
    first_end: V,
    Ghost(u0): Ghost<Set<(V, V)>>,
) -> (path: Vec<V>)
    requires
        w < i32::MAX,
        h < i32::MAX,
        (w + 1) * (h + 1) <= usize::MAX,
        in_lattice(w as int, h as int, s0),
        avail(ink, w as int, h as int, s0, u0).len() > 0,
        first_end == avail(ink, w as int, h as int, s0, u0).last(),
        lists_match(ink, w as int, h as int, old(adj)@, u0.insert((s0, first_end))),
    ensures
        walk_ok(ink, w as int, h as int, u0, path@),
        path@[0] == s0,
        lists_match(ink, w as int, h as int, final(adj)@, u0.union(path_edges(path@))),
        forall|k: int| 0 <= k < path@.len() ==> in_lattice(w as int, h as int, #[trigger] path@[k]),
        sum_lens(final(adj)@) <= sum_lens(old(adj)@),
{
    let ghost wi = w as int;
    let ghost hi = h as int;
    proof {
        let l = avail(ink, wi, hi, s0, u0);
        lemma_avail_remove(ink, wi, hi, s0, u0, l.len() - 1);
        lemma_bedge_in_lattice(ink, wi, hi, s0, first_end);
    }
    let mut path: Vec<V> = Vec::new();
    path.push(s0);
    path.push(first_end);
    let mut din: V = (first_end.0 - s0.0, first_end.1 - s0.1);
    let mut cur = first_end;
    let ghost mut used = u0.insert((s0, first_end));
    proof {
        lemma_path_edges_push(seq![s0], first_end);
        assert(seq![s0].push(first_end) =~= path@);
        assert forall|e: (V, V)| !path_edges(seq![s0]).contains(e) by {}
        assert(path_edges(seq![s0]) =~= Set::<(V, V)>::empty());
        assert(used =~= u0.union(path_edges(path@)));
        lemma_sum_lens_le(old(adj)@, adj@, 0);
    }
    while cur.0 != s0.0 || cur.1 != s0.1
        invariant
            w < i32::MAX,
            h < i32::MAX,
            wi == w,
            hi == h,
            (w + 1) * (h + 1) <= usize::MAX,
            in_lattice(wi, hi, s0),
            path@.len() >= 2,
            path@[0] == s0,
            cur == path@.last(),
            din == diff(path@[path@.len() - 2], cur),
            is_unit(din),
            in_lattice(wi, hi, cur),
            forall|k: int| 0 <= k < path@.len() ==> in_lattice(wi, hi, #[trigger] path@[k]),
            used == u0.union(path_edges(path@)),
            lists_match(ink, wi, hi, adj@, used),
            avail(ink, wi, hi, s0, u0).len() > 0,
            path@[1] == avail(ink, wi, hi, s0, u0).last(),
            forall|j: int| 1 <= j < path@.len() - 1 ==> #[trigger] step_ok(ink, wi, hi, u0, path@, j),
            sum_lens(adj@) <= sum_lens(old(adj)@),
        ensures
            path@.last() == s0 || first_pref(
                ink,
                wi,
                hi,
                u0.union(path_edges(path@)),
                path@.last(),
                diff(path@[path@.len() - 2], path@.last()),
            ) == 4,
        decreases sum_lens(adj@),
    {
        let ghost before = adj@;
        let ghost p = path@;
        match choose_next(adj, Ghost(ink), w, h, cur, din, Ghost(used)) {
            Some(next) => {
                proof {
                    let k = first_pref(ink, wi, hi, used, cur, din);
                    lemma_avail_member(ink, wi, hi, cur, used, din);
                    assert(pref_open(ink, wi, hi, used, cur, din, k));
                    lemma_bedge_in_lattice(ink, wi, hi, cur, next);
                    lemma_measure_drop(ink, wi, hi, before, adj@, used, cur, next);
                    lemma_path_edges_push(p, next);
                    reveal(step_rule);
                    assert(step_rule(ink, wi, hi, u0, p, next));
                }
                din = (next.0 - cur.0, next.1 - cur.1);
                cur = next;
                path.push(cur);
                proof {
                    used = used.insert((p.last(), next));
                    assert(used =~= u0.union(path_edges(path@)));
                    lemma_walk_extend(ink, wi, hi, u0, p, next);
                }
            },
            None => {
                proof {
                    assert forall|i: int| 0 <= i < before.len() implies (#[trigger] adj@[i])@.len()
                        <= before[i]@.len() by {}
                    lemma_sum_lens_le(before, adj@, 0);
                }
                break;
            },
        }
    }
    proof {
        reveal(walk_ok);
    }
    path
}

// ---------------------------------------------------------------------------
// All walks

proof fn lemma_edges_before_prefix(r: Seq<Seq<V>>, p: Seq<V>, k: int)
    requires
        0 <= k <= r.len(),
    ensures
        edges_before(r.push(p), k) == edges_before(r, k),
    decreases k,
{
    if k > 0 {
        lemma_edges_before_prefix(r, p, k - 1);
        assert(r.push(p)[k - 1] == r[k - 1]);
    }
}

proof fn lemma_edges_before_push(r: Seq<Seq<V>>, p: Seq<V>)
    ensures
        edges_before(r.push(p), r.len() + 1 as int) == edges_before(r, r.len() as int).union(
            path_edges(p),
        ),
{
    lemma_edges_before_prefix(r, p, r.len() as int);
    assert(r.push(p)[r.len() as int] == p);
}

proof fn lemma_walks_push(ink: Seq<u8>, w: int, h: int, r: Seq<Seq<V>>, p: Seq<V>)
    requires
        walks_ok(ink, w, h, r),
        start_ok(ink, w, h, edges_before(r, r.len() as int), p[0]),
        walk_ok(ink, w, h, edges_before(r, r.len() as int), p),
    ensures
        walks_ok(ink, w, h, r.push(p)),
{
    let q = r.push(p);
    assert forall|k: int| 0 <= k < q.len() implies start_ok(ink, w, h, edges_before(q, k), #[trigger] q[k][0])
        && walk_ok(ink, w, h, edges_before(q, k), q[k]) by {
        lemma_edges_before_prefix(r, p, k);
        if k < r.len() {
            assert(q[k] == r[k]);
        } else {
            assert(q[k] == p);
        }
    }
}

/// Traces every walk that starts at `s0`, the first point (in `(x, y)`
/// order) that may still have open edges.
fn trace_from(
    adj: &mut Vec<Vec<V>>,
    loops: &mut Vec<Vec<V>>,
    Ghost(inkv): Ghost<Seq<u8>>,
    w: usize,
    h: usize,
    s0: V,
    Ghost(r0): Ghost<Seq<Seq<V>>>,
) -> (r: Ghost<Seq<Seq<V>>>)
    requires
        w < i32::MAX,
        h < i32::MAX,
        (w + 1) * (h + 1) <= usize::MAX,
        in_lattice(w as int, h as int, s0),
        lists_match(inkv, w as int, h as int, old(adj)@, edges_before(r0, r0.len() as int)),
        walks_ok(inkv, w as int, h as int, r0),
        old(loops)@.len() == r0.len(),
        forall|k: int| 0 <= k < r0.len() ==> (#[trigger] old(loops)@[k])@ == collapse_spec(r0[k]),
        forall|v: V|
            in_lattice(w as int, h as int, v) && lex_less(v, s0) ==> #[trigger] avail(
                inkv,
                w as int,
                h as int,
                v,
                edges_before(r0, r0.len() as int),
            ).len() == 0,
    ensures
        lists_match(inkv, w as int, h as int, final(adj)@, edges_before(r@, r@.len() as int)),
        walks_ok(inkv, w as int, h as int, r@),
        final(loops)@.len() == r@.len(),
        forall|k: int| 0 <= k < r@.len() ==> (#[trigger] final(loops)@[k])@ == collapse_spec(r@[k]),
        forall|v: V|
            in_lattice(w as int, h as int, v) && (lex_less(v, s0) || v == s0) ==> #[trigger] avail(
                inkv,
                w as int,
                h as int,
                v,
                edges_before(r@, r@.len() as int),
            ).len() == 0,
{
    let ghost wi = w as int;
    let ghost hi = h as int;
    let ghost mut r = r0;
    proof {
        lemma_vid(wi, hi, s0);
    }
    let si = s0.1 as usize * (w + 1) + s0.0 as usize;
    assert(si == s0.1 * (w + 1) + s0.0);
    loop
        invariant
            w < i32::MAX,
            h < i32::MAX,
            wi == w,
            hi == h,
            (w + 1) * (h + 1) <= usize::MAX,
            in_lattice(wi, hi, s0),
            si == s0.1 * (w + 1) + s0.0,
            si < (w + 1) * (h + 1),
            vtx(wi, si as int) == s0,
            lists_match(inkv, wi, hi, adj@, edges_before(r, r.len() as int)),
            walks_ok(inkv, wi, hi, r),
            loops@.len() == r.len(),
            forall|k: int| 0 <= k < r.len() ==> (#[trigger] loops@[k])@ == collapse_spec(r[k]),
            forall|v: V|
                in_lattice(wi, hi, v) && lex_less(v, s0) ==> #[trigger] avail(
                    inkv,
                    wi,
                    hi,
                    v,
                    edges_before(r, r.len() as int),
                ).len() == 0,
        ensures
            lists_match(inkv, wi, hi, adj@, edges_before(r, r.len() as int)),
            walks_ok(inkv, wi, hi, r),
            loops@.len() == r.len(),
            forall|k: int| 0 <= k < r.len() ==> (#[trigger] loops@[k])@ == collapse_spec(r[k]),
            forall|v: V|
                in_lattice(wi, hi, v) && (lex_less(v, s0) || v == s0) ==> #[trigger] avail(
                    inkv,
                    wi,
                    hi,
                    v,
                    edges_before(r, r.len() as int),
                ).len() == 0,
        decreases sum_lens(adj@),
    {
        let ghost u = edges_before(r, r.len() as int);
        let ghost before = adj@;
        let popped = adj[si].pop();
        match popped {
            None => {
                proof {
                    assert(before[si as int]@ == avail(inkv, wi, hi, s0, u));
                    assert forall|i: int| 0 <= i < adj@.len() implies (#[trigger] adj@[i])@ == avail(
                        inkv,
                        wi,
                        hi,
                        vtx(wi, i),
                        u,
                    ) by {
                        assert(before[i]@ == avail(inkv, wi, hi, vtx(wi, i), u));
                    }
                }
                break;
            },
            Some(first_end) => {
                let ghost l = avail(inkv, wi, hi, s0, u);
                proof {
                    assert(before[si as int]@ == l);
                    lemma_avail_remove(inkv, wi, hi, s0, u, l.len() - 1);
                    assert(l.update(l.len() - 1, l.last()) =~= l);
                    assert forall|i: int|
                        0 <= i < before.len() && vtx(wi, i) == s0 implies (#[trigger] adj@[i])@
                        == avail(inkv, wi, hi, s0, u.insert((s0, first_end))) by {
                        lemma_vtx_in_lattice(wi, hi, i);
                    }
                    assert forall|i: int|
                        0 <= i < before.len() && vtx(wi, i) != s0 implies (#[trigger] adj@[i])@
                        == before[i]@ by {
                        lemma_vtx_in_lattice(wi, hi, i);
                    }
                    lemma_lists_take(inkv, wi, hi, before, adj@, u, s0, first_end);
                    lemma_measure_drop(inkv, wi, hi, before, adj@, u, s0, first_end);
                }
                let path = walk_from(adj, Ghost(inkv), w, h, s0, first_end, Ghost(u));
                let c = collapse(&path);
                loops.push(c);
                proof {
                    let rr = r;
                    reveal(start_ok);
                    assert(start_ok(inkv, wi, hi, u, s0));
                    lemma_walks_push(inkv, wi, hi, rr, path@);
                    r = rr.push(path@);
                    lemma_edges_before_push(rr, path@);
                    let u2 = edges_before(r, r.len() as int);
                    assert(u2 == u.union(path_edges(path@)));
                    assert forall|k: int| 0 <= k < r.len() implies (#[trigger] loops@[k])@
                        == collapse_spec(r[k]) by {
                        if k < rr.len() {
                            assert(r[k] == rr[k]);
                        }
                    }
                    assert forall|v: V|
                        in_lattice(wi, hi, v) && lex_less(v, s0) implies #[trigger] avail(
                        inkv,
                        wi,
                        hi,
                        v,
                        u2,
                    ).len() == 0 by {
                        lemma_avail_mono(inkv, wi, hi, v, u, u2);
                    }
                }
            },
        }
    }
    Ghost(r)
}

/// Trace all boundary loops of the ink mask (`ink[y * w + x] != 0` is ink).
/// Each loop is returned as its corner points (straight runs collapsed).
pub fn trace_loops(ink: &[u8], w: usize, h: usize) -> (loops: Vec<Vec<V>>)
    requires
        w < i32::MAX,
        h < i32::MAX,
        w * h <= ink@.len(),
        (w + 1) * (h + 1) <= usize::MAX,
    ensures
        exists|r: Seq<Seq<V>>|
            #[trigger] is_trace(ink@, w as int, h as int, r) && loops@.len() == r.len() && forall|
                k: int,
            |
                0 <= k < r.len() ==> (#[trigger] loops@[k])@ == collapse_spec(r[k]),
{
    let ghost wi = w as int;
    let ghost hi = h as int;
    let ghost inkv = ink@;
    let mut adj = build_edges(ink, w, h);
    let mut loops: Vec<Vec<V>> = Vec::new();
    let ghost mut r: Seq<Seq<V>> = seq![];
    proof {
        assert(edges_before(r, 0) =~= Set::<(V, V)>::empty());
    }
    let mut x: usize = 0;
    while x <= w
        invariant
            w < i32::MAX,
            h < i32::MAX,
            wi == w,
            hi == h,
            inkv == ink@,
            (w + 1) * (h + 1) <= usize::MAX,
            x <= w + 1,
            lists_match(inkv, wi, hi, adj@, edges_before(r, r.len() as int)),
            walks_ok(inkv, wi, hi, r),
            loops@.len() == r.len(),
            forall|k: int| 0 <= k < r.len() ==> (#[trigger] loops@[k])@ == collapse_spec(r[k]),
            forall|v: V|
                in_lattice(wi, hi, v) && v.0 < x ==> #[trigger] avail(
                    inkv,
                    wi,
                    hi,
                    v,
                    edges_before(r, r.len() as int),
                ).len() == 0,
        decreases w + 1 - x,
    {
        let mut y: usize = 0;
        while y <= h
            invariant
                w < i32::MAX,
                h < i32::MAX,
                wi == w,
                hi == h,
                inkv == ink@,
                (w + 1) * (h + 1) <= usize::MAX,
                x <= w,
                y <= h + 1,
                lists_match(inkv, wi, hi, adj@, edges_before(r, r.len() as int)),
                walks_ok(inkv, wi, hi, r),
                loops@.len() == r.len(),
                forall|k: int| 0 <= k < r.len() ==> (#[trigger] loops@[k])@ == collapse_spec(r[k]),
                forall|v: V|
                    in_lattice(wi, hi, v) && lex_less(v, (x as i32, y as i32)) ==> #[trigger] avail(
                        inkv,
                        wi,
                        hi,
                        v,
                        edges_before(r, r.len() as int),
                    ).len() == 0,
            decreases h + 1 - y,
        {
            let s0: V = (x as i32, y as i32);
            let ghost r0 = r;
            let Ghost(r1) = trace_from(&mut adj, &mut loops, Ghost(inkv), w, h, s0, Ghost(r0));
            proof {
                r = r1;
            }
            proof {
                let u = edges_before(r, r.len() as int);
                assert forall|v: V|
                    in_lattice(wi, hi, v) && lex_less(v, (x as i32, (y + 1) as i32)) implies #[trigger] avail(
                    inkv,
                    wi,
                    hi,
                    v,
                    u,
                ).len() == 0 by {
                    if !lex_less(v, s0) {
                        assert(v == s0);
                    }
                }
            }
            y = y + 1;
        }
        proof {
            let u = edges_before(r, r.len() as int);
            assert forall|v: V| in_lattice(wi, hi, v) && v.0 < x + 1 implies #[trigger] avail(
                inkv,
                wi,
                hi,
                v,
                u,
            ).len() == 0 by {
                assert(lex_less(v, (x as i32, (h + 1) as i32)));
            }
        }
        x = x + 1;
    }
    assert(is_trace(inkv, wi, hi, r));
    loops
}

// ---------------------------------------------------------------------------
// Every walk closes

/// 1 when the boundary edge `a -> b` is not in `used`, else 0.
pub open spec fn open_count(ink: Seq<u8>, w: int, h: int, used: Set<(V, V)>, a: V, b: V) -> int {
    if open_edge(ink, w, h, used, a, b) {
        1
    } else {
        0
    }
}

/// The number of open boundary edges leaving `v`.
#[verifier::opaque]
pub open spec fn out_count(ink: Seq<u8>, w: int, h: int, used: Set<(V, V)>, v: V) -> int {
    open_count(ink, w, h, used, v, step_to(v, (1i32, 0i32))) + open_count(
        ink,
        w,
        h,
        used,
        v,
        step_to(v, (0i32, 1i32)),
    ) + open_count(ink, w, h, used, v, step_to(v, (-1i32, 0i32))) + open_count(
        ink,
        w,
        h,
        used,
        v,
        step_to(v, (0i32, -1i32)),
    )
}

/// The number of open boundary edges entering `v`.
#[verifier::opaque]
pub open spec fn in_count(ink: Seq<u8>, w: int, h: int, used: Set<(V, V)>, v: V) -> int {
    open_count(ink, w, h, used, step_to(v, (-1i32, 0i32)), v) + open_count(
        ink,
        w,
        h,
        used,
        step_to(v, (0i32, -1i32)),
        v,
    ) + open_count(ink, w, h, used, step_to(v, (1i32, 0i32)), v) + open_count(
        ink,
        w,
        h,
        used,
        step_to(v, (0i32, 1i32)),
        v,
    )
}

/// As many open edges enter each lattice point as leave it, except that
/// `dst` has one more leaving and `src` one more entering (none when they
/// are the same point): the state after a walk from `src` to `dst`.
pub open spec fn balanced_but(ink: Seq<u8>, w: int, h: int, used: Set<(V, V)>, src: V, dst: V) -> bool {
    forall|v: V|
        in_lattice(w, h, v) ==> #[trigger] out_count(ink, w, h, used, v) - in_count(ink, w, h, used, v)
            == (if v == dst && v != src {
            1int
        } else {
            0int
        }) - (if v == src && v != dst {
            1int
        } else {
            0int
        })
}

proof fn lemma_balanced_start(ink: Seq<u8>, w: int, h: int, v: V)
    requires
        in_lattice(w, h, v),
        0 <= w < i32::MAX,
        0 <= h < i32::MAX,
    ensures
        out_count(ink, w, h, Set::empty(), v) == in_count(ink, w, h, Set::empty(), v),
{
    reveal(out_count);
    reveal(in_count);
}

/// Taking the open edge `a -> b` lowers the out count of `a` and the in
/// count of `b` by one and changes no other count.
proof fn lemma_take_counts(ink: Seq<u8>, w: int, h: int, used: Set<(V, V)>, a: V, b: V, v: V)
    requires
        in_lattice(w, h, a),
        in_lattice(w, h, v),
        open_edge(ink, w, h, used, a, b),
        0 <= w < i32::MAX,
        0 <= h < i32::MAX,
    ensures
        out_count(ink, w, h, used.insert((a, b)), v) == out_count(ink, w, h, used, v) - if v == a {
            1int
        } else {
            0int
        },
        in_count(ink, w, h, used.insert((a, b)), v) == in_count(ink, w, h, used, v) - if v == b {
            1int
        } else {
            0int
        },
{
    reveal(out_count);
    reveal(in_count);
    lemma_bedge_in_lattice(ink, w, h, a, b);
}

proof fn lemma_counts_nonneg(ink: Seq<u8>, w: int, h: int, used: Set<(V, V)>, v: V)
    ensures
        out_count(ink, w, h, used, v) >= 0,
        in_count(ink, w, h, used, v) >= 0,
{
    reveal(out_count);
    reveal(in_count);
}

#[verifier::spinoff_prover]
#[verifier::rlimit(40)]
proof fn lemma_balance_step(ink: Seq<u8>, w: int, h: int, used: Set<(V, V)>, src: V, a: V, b: V)
    requires
        0 <= w < i32::MAX,
        0 <= h < i32::MAX,
        in_lattice(w, h, a),
        open_edge(ink, w, h, used, a, b),
        balanced_but(ink, w, h, used, src, a),
    ensures
        balanced_but(ink, w, h, used.insert((a, b)), src, b),
{
    assert forall|v: V| in_lattice(w, h, v) implies #[trigger] out_count(
        ink,
        w,
        h,
        used.insert((a, b)),
        v,
    ) - in_count(ink, w, h, used.insert((a, b)), v) == (if v == b && v != src {
        1int
    } else {
        0int
    }) - (if v == src && v != b {
        1int
    } else {
        0int
    }) by {
        lemma_take_counts(ink, w, h, used, a, b, v);
        let o = out_count(ink, w, h, used, v);
        let i = in_count(ink, w, h, used, v);
        assert(o - i == (if v == a && v != src {
            1int
        } else {
            0int
        }) - (if v == src && v != a {
            1int
        } else {
            0int
        }));
        lemma_bedge_in_lattice(ink, w, h, a, b);
        assert(a != b);
    }
}

proof fn lemma_walk_first_open(ink: Seq<u8>, w: int, h: int, u0: Set<(V, V)>, p: Seq<V>)
    requires
        0 <= w < i32::MAX,
        0 <= h < i32::MAX,
        walk_ok(ink, w, h, u0, p),
        in_lattice(w, h, p[0]),
    ensures
        p.len() >= 2,
        open_edge(ink, w, h, u0, p[0], p[1]),
{
    reveal(walk_ok);
    let l = avail(ink, w, h, p[0], u0);
    lemma_avail_remove(ink, w, h, p[0], u0, l.len() - 1);
}

#[verifier::spinoff_prover]
#[verifier::rlimit(40)]
proof fn lemma_walk_step_open(ink: Seq<u8>, w: int, h: int, u0: Set<(V, V)>, p: Seq<V>, j: int)
    requires
        0 <= w < i32::MAX,
        0 <= h < i32::MAX,
        walk_ok(ink, w, h, u0, p),
        1 <= j < p.len() - 1,
    ensures
        open_edge(ink, w, h, u0.union(path_edges(p.take(j + 1))), p[j], p[j + 1]),
        p[j] != p[0],
{
    reveal(walk_ok);
    assert(step_ok(ink, w, h, u0, p, j));
    reveal(step_rule);
    let pre = p.take(j + 1);
    assert(pre.last() == p[j] && pre[pre.len() - 2] == p[j - 1] && pre[0] == p[0]);
    let u = u0.union(path_edges(pre));
    let d = diff(p[j - 1], p[j]);
    assert(pref_open(ink, w, h, u, p[j], d, first_pref(ink, w, h, u, p[j], d)));
}

proof fn lemma_walk_end(ink: Seq<u8>, w: int, h: int, u0: Set<(V, V)>, p: Seq<V>)
    requires
        walk_ok(ink, w, h, u0, p),
        p.last() != p[0],
    ensures
        first_pref(ink, w, h, u0.union(path_edges(p)), p.last(), diff(p[p.len() - 2], p.last()))
            == 4,
{
    reveal(walk_ok);
}

/// The counts once the edges of the walk prefix `p` are taken.
#[verifier::spinoff_prover]
#[verifier::rlimit(40)]
proof fn lemma_walk_counts(ink: Seq<u8>, w: int, h: int, u0: Set<(V, V)>, p: Seq<V>, i: int)
    requires
        0 <= w < i32::MAX,
        0 <= h < i32::MAX,
        walk_ok(ink, w, h, u0, p),
        in_lattice(w, h, p[0]),
        balanced_but(ink, w, h, u0, p[0], p[0]),
        2 <= i <= p.len(),
    ensures
        balanced_but(ink, w, h, u0.union(path_edges(p.take(i))), p[0], p[i - 1]),
        in_lattice(w, h, p[i - 1]),
        i >= 2 ==> is_unit(diff(p[i - 2], p[i - 1])),
    decreases i,
{
    let u_prev = u0.union(path_edges(p.take(i - 1)));
    lemma_walk_first_open(ink, w, h, u0, p);
    if i == 2 {
        assert(path_edges(p.take(1)) =~= Set::<(V, V)>::empty()) by {
            assert forall|e: (V, V)| !path_edges(p.take(1)).contains(e) by {}
        }
        assert(u_prev =~= u0);
    } else {
        lemma_walk_counts(ink, w, h, u0, p, i - 1);
        lemma_walk_step_open(ink, w, h, u0, p, i - 2);
        assert(p.take(i - 1) =~= p.take(i - 2 + 1));
    }
    let a = p[i - 2];
    let b = p[i - 1];
    assert(open_edge(ink, w, h, u_prev, a, b));
    lemma_bedge_in_lattice(ink, w, h, a, b);
    lemma_path_edges_push(p.take(i - 1), b);
    assert(p.take(i - 1).push(b) =~= p.take(i));
    assert(p.take(i - 1).last() == a);
    assert(u0.union(path_edges(p.take(i))) =~= u_prev.insert((a, b)));
    lemma_balance_step(ink, w, h, u_prev, p[0], a, b);
}

proof fn lemma_open_counts(ink: Seq<u8>, w: int, h: int, used: Set<(V, V)>, v: V, din: V)
    requires
        in_lattice(w, h, v),
        is_unit(din),
        0 <= w < i32::MAX,
        0 <= h < i32::MAX,
        first_pref(ink, w, h, used, v, din) == 4,
    ensures
        out_count(ink, w, h, used, v) == 0,
{
    reveal(out_count);
    lemma_avail_member(ink, w, h, v, used, din);
}

/// A walk that follows the rules from a balanced state closes (ends where it
/// started) and leaves the state balanced.
#[verifier::spinoff_prover]
#[verifier::rlimit(40)]
proof fn lemma_walk_closes(ink: Seq<u8>, w: int, h: int, u0: Set<(V, V)>, p: Seq<V>)
    requires
        0 <= w < i32::MAX,
        0 <= h < i32::MAX,
        walk_ok(ink, w, h, u0, p),
        in_lattice(w, h, p[0]),
        balanced_but(ink, w, h, u0, p[0], p[0]),
    ensures
        p.len() >= 2,
        p.last() == p[0],
        balanced_but(ink, w, h, u0.union(path_edges(p)), p[0], p[0]),
{
    lemma_walk_first_open(ink, w, h, u0, p);
    lemma_walk_counts(ink, w, h, u0, p, p.len() as int);
    assert(p.take(p.len() as int) =~= p);
    if p.last() != p[0] {
        let u = u0.union(path_edges(p));
        let last = p.last();
        lemma_walk_end(ink, w, h, u0, p);
        lemma_open_counts(ink, w, h, u, last, diff(p[p.len() - 2], last));
        assert(out_count(ink, w, h, u, last) - in_count(ink, w, h, u, last) == 1);
        lemma_counts_nonneg(ink, w, h, u, last);
    }
}

/// Every loop the tracer walks is closed: each walk ends at the point where
/// it started. (Around every lattice point as many boundary edges enter as
/// leave, so a walk can only get stuck where it began.)
pub proof fn lemma_trace_walks_closed(ink: Seq<u8>, w: int, h: int, r: Seq<Seq<V>>)
    requires
        0 <= w < i32::MAX,
        0 <= h < i32::MAX,
        is_trace(ink, w, h, r),
    ensures
        forall|k: int| 0 <= k < r.len() ==> (#[trigger] r[k]).len() >= 2 && r[k].last() == r[k][0],
{
    lemma_trace_prefix_closed(ink, w, h, r, r.len() as int);
}

proof fn lemma_start_in_lattice(ink: Seq<u8>, w: int, h: int, u: Set<(V, V)>, s: V)
    requires
        start_ok(ink, w, h, u, s),
    ensures
        in_lattice(w, h, s),
{
    reveal(start_ok);
}

#[verifier::spinoff_prover]
#[verifier::rlimit(40)]
proof fn lemma_trace_prefix_closed(ink: Seq<u8>, w: int, h: int, r: Seq<Seq<V>>, n: int)
    requires
        0 <= w < i32::MAX,
        0 <= h < i32::MAX,
        walks_ok(ink, w, h, r),
        0 <= n <= r.len(),
    ensures
        forall|k: int| 0 <= k < n ==> (#[trigger] r[k]).len() >= 2 && r[k].last() == r[k][0],
        forall|v: V|
            in_lattice(w, h, v) ==> #[trigger] out_count(ink, w, h, edges_before(r, n), v) == in_count(
                ink,
                w,
                h,
                edges_before(r, n),
                v,
            ),
    decreases n,
{
    if n == 0 {
        assert forall|v: V| in_lattice(w, h, v) implies #[trigger] out_count(
            ink,
            w,
            h,
            edges_before(r, 0),
            v,
        ) == in_count(ink, w, h, edges_before(r, 0), v) by {
            assert(edges_before(r, 0) =~= Set::<(V, V)>::empty());
            lemma_balanced_start(ink, w, h, v);
        }
    } else {
        lemma_trace_prefix_closed(ink, w, h, r, n - 1);
        let k = n - 1;
        let u = edges_before(r, k);
        assert(start_ok(ink, w, h, u, r[k][0]) && walk_ok(ink, w, h, u, r[k]));
        lemma_start_in_lattice(ink, w, h, u, r[k][0]);
        assert(balanced_but(ink, w, h, u, r[k][0], r[k][0]));
        lemma_walk_closes(ink, w, h, u, r[k]);
        assert(edges_before(r, n) == u.union(path_edges(r[k])));
    }
}

// ---------------------------------------------------------------------------
// The walks use each boundary edge exactly once

/// The edge taken at step `j` of walk `k`.
pub open spec fn walk_edge(r: Seq<Seq<V>>, k: int, j: int) -> (V, V) {
    (r[k][j], r[k][j + 1])
}

/// The edge from step `j` of walk `p` is open when it is taken.
proof fn lemma_walk_edge_open(ink: Seq<u8>, w: int, h: int, u0: Set<(V, V)>, p: Seq<V>, j: int)
    requires
        0 <= w < i32::MAX,
        0 <= h < i32::MAX,
        walk_ok(ink, w, h, u0, p),
        in_lattice(w, h, p[0]),
        0 <= j < p.len() - 1,
    ensures
        open_edge(ink, w, h, u0.union(path_edges(p.take(j + 1))), p[j], p[j + 1]),
{
    if j == 0 {
        lemma_walk_first_open(ink, w, h, u0, p);
        assert(path_edges(p.take(1)) =~= Set::<(V, V)>::empty()) by {
            assert forall|e: (V, V)| !path_edges(p.take(1)).contains(e) by {}
        }
        assert(u0.union(path_edges(p.take(1))) =~= u0);
    } else {
        lemma_walk_step_open(ink, w, h, u0, p, j);
    }
}

proof fn lemma_path_edges_prefix(p: Seq<V>, i: int, j: int)
    requires
        0 <= j < i <= p.len(),
    ensures
        j + 1 < i ==> path_edges(p.take(i)).contains((p[j], p[j + 1])),
{
    if j + 1 < i {
        let q = p.take(i);
        assert(q[j] == p[j] && q[j + 1] == p[j + 1]);
    }
}

proof fn lemma_edges_before_mono(r: Seq<Seq<V>>, k1: int, k2: int)
    requires
        0 <= k1 < k2 <= r.len(),
    ensures
        path_edges(r[k1]).subset_of(edges_before(r, k2)),
    decreases k2,
{
    if k2 > k1 + 1 {
        lemma_edges_before_mono(r, k1, k2 - 1);
    }
}

/// The walks of a trace never take the same edge twice.
pub proof fn lemma_trace_edges_distinct(
    ink: Seq<u8>,
    w: int,
    h: int,
    r: Seq<Seq<V>>,
    k1: int,
    j1: int,
    k2: int,
    j2: int,
)
    requires
        0 <= w < i32::MAX,
        0 <= h < i32::MAX,
        is_trace(ink, w, h, r),
        0 <= k1 < r.len(),
        0 <= k2 < r.len(),
        0 <= j1 < r[k1].len() - 1,
        0 <= j2 < r[k2].len() - 1,
        k1 != k2 || j1 != j2,
    ensures
        walk_edge(r, k1, j1) != walk_edge(r, k2, j2),
{
    if k1 < k2 || (k1 == k2 && j1 < j2) {
        lemma_edges_distinct_ordered(ink, w, h, r, k1, j1, k2, j2);
    } else {
        lemma_edges_distinct_ordered(ink, w, h, r, k2, j2, k1, j1);
    }
}

proof fn lemma_edges_distinct_ordered(
    ink: Seq<u8>,
    w: int,
    h: int,
    r: Seq<Seq<V>>,
    k1: int,
    j1: int,
    k2: int,
    j2: int,
)
    requires
        0 <= w < i32::MAX,
        0 <= h < i32::MAX,
        is_trace(ink, w, h, r),
        0 <= k1 < r.len(),
        0 <= k2 < r.len(),
        0 <= j1 < r[k1].len() - 1,
        0 <= j2 < r[k2].len() - 1,
        k1 < k2 || (k1 == k2 && j1 < j2),
    ensures
        walk_edge(r, k1, j1) != walk_edge(r, k2, j2),
{
    let u = edges_before(r, k2);
    assert(start_ok(ink, w, h, u, r[k2][0]) && walk_ok(ink, w, h, u, r[k2]));
    lemma_start_in_lattice(ink, w, h, u, r[k2][0]);
    lemma_walk_edge_open(ink, w, h, u, r[k2], j2);
    let e1 = walk_edge(r, k1, j1);
    if k1 < k2 {
        lemma_edges_before_mono(r, k1, k2);
        assert(path_edges(r[k1]).contains(e1));
    } else {
        lemma_path_edges_prefix(r[k2], j2 + 1, j1);
    }
}

/// The walks of a trace take exactly the boundary edges: an edge is taken by
/// some walk if and only if it has ink on its right and paper on its left.
pub proof fn lemma_trace_edges_are_boundary(ink: Seq<u8>, w: int, h: int, r: Seq<Seq<V>>, a: V, b: V)
    requires
        0 <= w < i32::MAX,
        0 <= h < i32::MAX,
        is_trace(ink, w, h, r),
    ensures
        edges_before(r, r.len() as int).contains((a, b)) <==> is_bedge(ink, w, h, a, b),
{
    let all = edges_before(r, r.len() as int);
    if all.contains((a, b)) {
        lemma_taken_edges_boundary(ink, w, h, r, r.len() as int, a, b);
    }
    if is_bedge(ink, w, h, a, b) {
        assert(in_lattice(w, h, a));
        let d = diff(a, b);
        assert(is_unit(d));
        assert(b == step_to(a, d));
        assert(avail(ink, w, h, a, all).len() == 0);
        lemma_avail_shape(ink, w, h, a, all);
    }
}

proof fn lemma_taken_edges_boundary(ink: Seq<u8>, w: int, h: int, r: Seq<Seq<V>>, n: int, a: V, b: V)
    requires
        0 <= w < i32::MAX,
        0 <= h < i32::MAX,
        walks_ok(ink, w, h, r),
        0 <= n <= r.len(),
        edges_before(r, n).contains((a, b)),
    ensures
        is_bedge(ink, w, h, a, b),
    decreases n,
{
    if n > 0 {
        if edges_before(r, n - 1).contains((a, b)) {
            lemma_taken_edges_boundary(ink, w, h, r, n - 1, a, b);
        } else {
            let k = n - 1;
            let p = r[k];
            let u = edges_before(r, k);
            assert(start_ok(ink, w, h, u, p[0]) && walk_ok(ink, w, h, u, p));
            lemma_start_in_lattice(ink, w, h, u, p[0]);
            assert(path_edges(p).contains((a, b)));
            let j = choose|j: int| #![trigger p[j]] 0 <= j < p.len() - 1 && (a, b) == (p[j], p[j + 1]);
            lemma_walk_edge_open(ink, w, h, u, p, j);
        }
    }
}

// ---------------------------------------------------------------------------
// The rules determine the trace

proof fn lemma_start_unique(ink: Seq<u8>, w: int, h: int, u: Set<(V, V)>, s1: V, s2: V)
    requires
        start_ok(ink, w, h, u, s1),
        start_ok(ink, w, h, u, s2),
    ensures
        s1 == s2,
{
    reveal(start_ok);
    if s1 != s2 {
        if lex_less(s1, s2) {
            assert(avail(ink, w, h, s1, u).len() == 0);
        } else {
            assert(lex_less(s2, s1));
            assert(avail(ink, w, h, s2, u).len() == 0);
        }
    }
}

proof fn lemma_walk_prefix_unique(
    ink: Seq<u8>,
    w: int,
    h: int,
    u: Set<(V, V)>,
    p1: Seq<V>,
    p2: Seq<V>,
    i: int,
)
    requires
        walk_ok(ink, w, h, u, p1),
        walk_ok(ink, w, h, u, p2),
        p1[0] == p2[0],
        0 <= i < p1.len(),
        i < p2.len(),
    ensures
        p1.take(i + 1) == p2.take(i + 1),
    decreases i,
{
    reveal(walk_ok);
    if i == 0 {
        assert(p1.take(1) =~= p2.take(1));
    } else if i == 1 {
        assert(p1.take(2) =~= p2.take(2));
    } else {
        lemma_walk_prefix_unique(ink, w, h, u, p1, p2, i - 1);
        assert(step_ok(ink, w, h, u, p1, i - 1));
        assert(step_ok(ink, w, h, u, p2, i - 1));
        reveal(step_rule);
        let pre = p1.take(i);
        assert(pre == p2.take(i));
        assert(p1[i] == p2[i]);
        assert(p1.take(i + 1) =~= pre.push(p1[i]));
        assert(p2.take(i + 1) =~= pre.push(p2[i]));
    }
}

proof fn lemma_walk_first_len(ink: Seq<u8>, w: int, h: int, u: Set<(V, V)>, p: Seq<V>)
    requires
        walk_ok(ink, w, h, u, p),
    ensures
        p.len() >= 2,
{
    reveal(walk_ok);
}

/// Two walks from the same point under the same taken edges are the same.
proof fn lemma_walk_unique(ink: Seq<u8>, w: int, h: int, u: Set<(V, V)>, p1: Seq<V>, p2: Seq<V>)
    requires
        walk_ok(ink, w, h, u, p1),
        walk_ok(ink, w, h, u, p2),
        p1[0] == p2[0],
    ensures
        p1 == p2,
{
    lemma_walk_stops(ink, w, h, u, p1, p2);
    lemma_walk_stops(ink, w, h, u, p2, p1);
    lemma_walk_first_len(ink, w, h, u, p1);
    lemma_walk_prefix_unique(ink, w, h, u, p1, p2, p1.len() - 1);
    assert(p1.take(p1.len() as int) =~= p1);
    assert(p2.take(p2.len() as int) =~= p2);
}

/// A walk cannot be a proper prefix of another walk under the same rules.
proof fn lemma_walk_stops(ink: Seq<u8>, w: int, h: int, u: Set<(V, V)>, p1: Seq<V>, p2: Seq<V>)
    requires
        walk_ok(ink, w, h, u, p1),
        walk_ok(ink, w, h, u, p2),
        p1[0] == p2[0],
    ensures
        p1.len() >= p2.len(),
{
    reveal(walk_ok);
    if p1.len() >= p2.len() {
        return;
    }
    let l = p1.len() - 1;
    lemma_walk_prefix_unique(ink, w, h, u, p1, p2, l);
    assert(p1.take(l + 1) =~= p1);
    reveal(walk_ok);
    assert(l >= 1);
    assert(step_ok(ink, w, h, u, p2, l));
    reveal(step_rule);
    assert(p2.take(l + 1) == p1);
    assert(p1.last() == p1[l]);
    assert(p1[p1.len() - 2] == p1.take(l + 1)[l - 1]);
}

proof fn lemma_edges_before_same(r1: Seq<Seq<V>>, r2: Seq<Seq<V>>, k: int)
    requires
        0 <= k <= r1.len(),
        k <= r2.len(),
        forall|i: int| 0 <= i < k ==> r1[i] == r2[i],
    ensures
        edges_before(r1, k) == edges_before(r2, k),
    decreases k,
{
    if k > 0 {
        lemma_edges_before_same(r1, r2, k - 1);
        assert(r1[k - 1] == r2[k - 1]);
    }
}

proof fn lemma_trace_prefix_same(ink: Seq<u8>, w: int, h: int, r1: Seq<Seq<V>>, r2: Seq<Seq<V>>, k: int)
    requires
        walks_ok(ink, w, h, r1),
        walks_ok(ink, w, h, r2),
        0 <= k <= r1.len(),
        k <= r2.len(),
    ensures
        forall|i: int| 0 <= i < k ==> r1[i] == r2[i],
    decreases k,
{
    if k > 0 {
        lemma_trace_prefix_same(ink, w, h, r1, r2, k - 1);
        let i = k - 1;
        lemma_edges_before_same(r1, r2, i);
        let u = edges_before(r1, i);
        assert(start_ok(ink, w, h, u, r1[i][0]) && walk_ok(ink, w, h, u, r1[i]));
        assert(start_ok(ink, w, h, edges_before(r2, i), r2[i][0]) && walk_ok(
            ink,
            w,
            h,
            edges_before(r2, i),
            r2[i],
        ));
        lemma_start_unique(ink, w, h, u, r1[i][0], r2[i][0]);
        lemma_walk_unique(ink, w, h, u, r1[i], r2[i]);
    }
}

/// The walk rules pin the trace down: two traces of the same mask are equal.
pub proof fn lemma_trace_unique(ink: Seq<u8>, w: int, h: int, r1: Seq<Seq<V>>, r2: Seq<Seq<V>>)
    requires
        is_trace(ink, w, h, r1),
        is_trace(ink, w, h, r2),
    ensures
        r1 == r2,
{
    lemma_trace_not_longer(ink, w, h, r1, r2);
    lemma_trace_not_longer(ink, w, h, r2, r1);
    lemma_trace_prefix_same(ink, w, h, r1, r2, r1.len() as int);
    assert(r1 =~= r2);
}

proof fn lemma_trace_not_longer(ink: Seq<u8>, w: int, h: int, r1: Seq<Seq<V>>, r2: Seq<Seq<V>>)
    requires
        is_trace(ink, w, h, r1),
        is_trace(ink, w, h, r2),
    ensures
        r1.len() >= r2.len(),
{
    if r1.len() >= r2.len() {
        return;
    }
    let n = r1.len() as int;
    lemma_trace_prefix_same(ink, w, h, r1, r2, n);
    lemma_edges_before_same(r1, r2, n);
    let u = edges_before(r2, n);
    assert(start_ok(ink, w, h, u, r2[n][0]) && walk_ok(ink, w, h, u, r2[n]));
    reveal(start_ok);
    assert(avail(ink, w, h, r2[n][0], edges_before(r1, n)).len() == 0);
}


// ---------------------------------------------------------------------------
// The turn order at every vertex

/// At every vertex of a traced walk, reached by the step `(dx, dy)`, the walk
/// turns as sharply right as it can: it takes the clockwise quarter turn
/// `(-dy, dx)` whenever that edge is a boundary edge not yet taken, otherwise
/// goes straight on, otherwise takes the counter-clockwise quarter turn
/// `(dy, -dx)`, and otherwise goes back. (So two ink pixels that meet only at
/// a corner are walked around separately.)
pub proof fn lemma_trace_turn_order(ink: Seq<u8>, w: int, h: int, r: Seq<Seq<V>>, k: int, j: int)
    requires
        0 <= w < i32::MAX,
        0 <= h < i32::MAX,
        is_trace(ink, w, h, r),
        0 <= k < r.len(),
        1 <= j < r[k].len() - 1,
    ensures
        ({
            let p = r[k];
            let v = p[j];
            let dx = p[j].0 - p[j - 1].0;
            let dy = p[j].1 - p[j - 1].1;
            let taken = edges_before(r, k).union(path_edges(p.take(j + 1)));
            let right: V = ((v.0 - dy) as i32, (v.1 + dx) as i32);
            let ahead: V = ((v.0 + dx) as i32, (v.1 + dy) as i32);
            let left: V = ((v.0 + dy) as i32, (v.1 - dx) as i32);
            let open_r = is_bedge(ink, w, h, v, right) && !taken.contains((v, right));
            let open_a = is_bedge(ink, w, h, v, ahead) && !taken.contains((v, ahead));
            let open_l = is_bedge(ink, w, h, v, left) && !taken.contains((v, left));
            &&& open_r ==> p[j + 1] == right
            &&& !open_r && open_a ==> p[j + 1] == ahead
            &&& !open_r && !open_a && open_l ==> p[j + 1] == left
            &&& p[j + 1] == right || p[j + 1] == ahead || p[j + 1] == left || p[j + 1] == p[j - 1]
        }),
{
    let p = r[k];
    let u0 = edges_before(r, k);
    assert(start_ok(ink, w, h, u0, r[k][0]) && walk_ok(ink, w, h, u0, r[k]));
    lemma_start_in_lattice(ink, w, h, u0, p[0]);
    lemma_walk_edge_open(ink, w, h, u0, p, j - 1);
    lemma_walk_edge_open(ink, w, h, u0, p, j);
    lemma_walk_step_pref(ink, w, h, u0, p, j);
    let u = u0.union(path_edges(p.take(j + 1)));
    assert(is_bedge(ink, w, h, p[j - 1], p[j]));
    assert(is_bedge(ink, w, h, p[j], p[j + 1]));
    lemma_turn_coords(ink, w, h, u, p[j - 1], p[j], p[j + 1]);
}

/// Step `j` of a walk goes by the first open turn preference.
proof fn lemma_walk_step_pref(ink: Seq<u8>, w: int, h: int, u0: Set<(V, V)>, p: Seq<V>, j: int)
    requires
        walk_ok(ink, w, h, u0, p),
        1 <= j < p.len() - 1,
    ensures
        ({
            let u = u0.union(path_edges(p.take(j + 1)));
            let din = diff(p[j - 1], p[j]);
            &&& first_pref(ink, w, h, u, p[j], din) < 4
            &&& p[j + 1] == step_to(p[j], pref_dir(din, first_pref(ink, w, h, u, p[j], din)))
        }),
{
    reveal(walk_ok);
    assert(step_ok(ink, w, h, u0, p, j));
    reveal(step_rule);
    let pre = p.take(j + 1);
    assert(pre.last() == p[j]);
    assert(pre[pre.len() - 2] == p[j - 1]);
}

/// The turn preferences in coordinates, at a vertex `v` reached from `a`
/// along a boundary edge.
proof fn lemma_turn_coords(ink: Seq<u8>, w: int, h: int, u: Set<(V, V)>, a: V, v: V, next: V)
    requires
        0 <= w < i32::MAX,
        0 <= h < i32::MAX,
        is_bedge(ink, w, h, a, v),
        is_bedge(ink, w, h, v, next),
        first_pref(ink, w, h, u, v, diff(a, v)) < 4,
        next == step_to(v, pref_dir(diff(a, v), first_pref(ink, w, h, u, v, diff(a, v)))),
    ensures
        ({
            let dx = v.0 - a.0;
            let dy = v.1 - a.1;
            let right: V = ((v.0 - dy) as i32, (v.1 + dx) as i32);
            let ahead: V = ((v.0 + dx) as i32, (v.1 + dy) as i32);
            let left: V = ((v.0 + dy) as i32, (v.1 - dx) as i32);
            let open_r = is_bedge(ink, w, h, v, right) && !u.contains((v, right));
            let open_a = is_bedge(ink, w, h, v, ahead) && !u.contains((v, ahead));
            let open_l = is_bedge(ink, w, h, v, left) && !u.contains((v, left));
            &&& open_r ==> next == right
            &&& !open_r && open_a ==> next == ahead
            &&& !open_r && !open_a && open_l ==> next == left
            &&& next == right || next == ahead || next == left || next == a
        }),
{
    let din = diff(a, v);
    let dx = v.0 - a.0;
    let dy = v.1 - a.1;
    assert(din.0 == dx && din.1 == dy);
    assert(0 <= v.0 <= w + 1 && 0 <= v.1 <= h + 1);
    assert(step_to(v, pref_dir(din, 0)) == ((v.0 - dy) as i32, (v.1 + dx) as i32));
    assert(step_to(v, pref_dir(din, 1)) == ((v.0 + dx) as i32, (v.1 + dy) as i32));
    assert(step_to(v, pref_dir(din, 2)) == ((v.0 + dy) as i32, (v.1 - dx) as i32));
    assert(step_to(v, pref_dir(din, 3)) == a);
}


// ---------------------------------------------------------------------------
// Where each walk starts

/// Each walk starts at the first lattice point, in `(x, y)` order, that still
/// has a boundary edge not taken by the earlier walks, and leaves it east if
/// it can, otherwise south, otherwise north, otherwise west.
pub proof fn lemma_trace_start(ink: Seq<u8>, w: int, h: int, r: Seq<Seq<V>>, k: int)
    requires
        0 <= w < i32::MAX,
        0 <= h < i32::MAX,
        is_trace(ink, w, h, r),
        0 <= k < r.len(),
    ensures
        ({
            let s = r[k][0];
            let u = edges_before(r, k);
            let east: V = ((s.0 + 1) as i32, s.1);
            let south: V = (s.0, (s.1 + 1) as i32);
            let north: V = (s.0, (s.1 - 1) as i32);
            let west: V = ((s.0 - 1) as i32, s.1);
            let open_e = is_bedge(ink, w, h, s, east) && !u.contains((s, east));
            let open_s = is_bedge(ink, w, h, s, south) && !u.contains((s, south));
            let open_n = is_bedge(ink, w, h, s, north) && !u.contains((s, north));
            &&& 0 <= s.0 <= w && 0 <= s.1 <= h
            &&& is_bedge(ink, w, h, s, r[k][1]) && !u.contains((s, r[k][1]))
            &&& r[k][1] == (if open_e {
                east
            } else if open_s {
                south
            } else if open_n {
                north
            } else {
                west
            })
            &&& forall|v: V, t: V|
                0 <= v.0 <= w && 0 <= v.1 <= h && (v.0 < s.0 || (v.0 == s.0 && v.1 < s.1))
                    && #[trigger] is_bedge(ink, w, h, v, t) ==> u.contains((v, t))
        }),
{
    let s = r[k][0];
    let u = edges_before(r, k);
    assert(start_ok(ink, w, h, u, r[k][0]) && walk_ok(ink, w, h, u, r[k]));
    lemma_start_in_lattice(ink, w, h, u, s);
    lemma_walk_first_open(ink, w, h, u, r[k]);
    lemma_walk_first_last(ink, w, h, u, r[k]);
    lemma_avail_shape(ink, w, h, s, u);
    lemma_start_before(ink, w, h, u, s);
}

proof fn lemma_walk_first_last(ink: Seq<u8>, w: int, h: int, u: Set<(V, V)>, p: Seq<V>)
    requires
        walk_ok(ink, w, h, u, p),
    ensures
        p[1] == avail(ink, w, h, p[0], u).last(),
        avail(ink, w, h, p[0], u).len() > 0,
{
    reveal(walk_ok);
}

proof fn lemma_start_before(ink: Seq<u8>, w: int, h: int, u: Set<(V, V)>, s: V)
    requires
        0 <= w < i32::MAX,
        0 <= h < i32::MAX,
        start_ok(ink, w, h, u, s),
    ensures
        forall|v: V, t: V|
            0 <= v.0 <= w && 0 <= v.1 <= h && (v.0 < s.0 || (v.0 == s.0 && v.1 < s.1))
                && #[trigger] is_bedge(ink, w, h, v, t) ==> u.contains((v, t)),
{
    reveal(start_ok);
    assert forall|v: V, t: V|
        0 <= v.0 <= w && 0 <= v.1 <= h && (v.0 < s.0 || (v.0 == s.0 && v.1 < s.1))
            && #[trigger] is_bedge(ink, w, h, v, t) implies u.contains((v, t)) by {
        assert(in_lattice(w, h, v) && lex_less(v, s));
        assert(avail(ink, w, h, v, u).len() == 0);
        lemma_avail_shape(ink, w, h, v, u);
        assert(t == step_to(v, (-1i32, 0i32)) || t == step_to(v, (0i32, -1i32)) || t == step_to(
            v,
            (0i32, 1i32),
        ) || t == step_to(v, (1i32, 0i32)));
    }
}


// ---------------------------------------------------------------------------
// What collapsing keeps

/// The positions of the corners among the first `i` points of `q`.
pub open spec fn corner_positions(q: Seq<V>, i: int) -> Seq<int>
    decreases i,
{
    if i <= 0 {
        Seq::empty()
    } else {
        corner_positions(q, i - 1) + if is_corner(q, i - 1) {
            seq![i - 1]
        } else {
            Seq::<int>::empty()
        }
    }
}

proof fn lemma_corner_positions(q: Seq<V>, i: int)
    requires
        0 <= i <= q.len(),
    ensures
        ({
            let c = corners_upto(q, i);
            let ix = corner_positions(q, i);
            &&& ix.len() == c.len()
            &&& forall|t: int| 0 <= t < ix.len() ==> 0 <= #[trigger] ix[t] < i && c[t] == q[ix[t]]
            &&& forall|t1: int, t2: int| 0 <= t1 < t2 < ix.len() ==> ix[t1] < ix[t2]
            &&& forall|j: int| 0 <= j < i ==> (is_corner(q, j) <==> ix.contains(j))
        }),
    decreases i,
{
    if i > 0 {
        lemma_corner_positions(q, i - 1);
        let ix0 = corner_positions(q, i - 1);
        let ix = corner_positions(q, i);
        assert forall|j: int| 0 <= j < i implies (is_corner(q, j) <==> ix.contains(j)) by {
            if j < i - 1 {
                if ix0.contains(j) {
                    let t = choose|t: int| 0 <= t < ix0.len() && ix0[t] == j;
                    assert(ix[t] == j);
                }
                if ix.contains(j) {
                    let t = choose|t: int| 0 <= t < ix.len() && ix[t] == j;
                    if t < ix0.len() {
                        assert(ix0[t] == j);
                    }
                }
            } else {
                if is_corner(q, j) {
                    assert(ix[ix.len() - 1] == j);
                }
                if ix.contains(j) {
                    let t = choose|t: int| 0 <= t < ix.len() && ix[t] == j;
                    if t < ix0.len() {
                        assert(ix0[t] == j);
                    }
                }
            }
        }
    }
}

/// Collapsing a closed walk keeps exactly its corners, in walk order: the
/// points where the step into the point differs from the step out of it
/// (the walk read as a closed polygon, so the first point's step in is the
/// last step). Straight runs lose their inner points and nothing else goes.
pub proof fn lemma_collapse_keeps_corners(p: Seq<V>)
    requires
        p.len() >= 4,
        p[0] == p.last(),
        forall|i: int| 0 <= i < p.len() ==> 0 <= (#[trigger] p[i]).0 && 0 <= p[i].1,
    ensures
        ({
            let q = p.drop_last();
            let m = q.len() as int;
            let out = collapse_spec(p);
            exists|ix: Seq<int>|
                {
                    &&& ix.len() == out.len()
                    &&& forall|t: int| 0 <= t < ix.len() ==> 0 <= #[trigger] ix[t] < m && out[t] == q[ix[t]]
                    &&& forall|t1: int, t2: int| 0 <= t1 < t2 < ix.len() ==> ix[t1] < ix[t2]
                    &&& forall|j: int|
                        0 <= j < m ==> (ix.contains(j) <==> (#[trigger] q[j].0 - q[(j + m - 1) % m].0
                            != q[(j + 1) % m].0 - q[j].0 || q[j].1 - q[(j + m - 1) % m].1 != q[(j
                            + 1) % m].1 - q[j].1))
                }
        }),
{
    let q = p.drop_last();
    let m = q.len() as int;
    lemma_corner_positions(q, m);
    let ix = corner_positions(q, m);
    assert forall|j: int|
        0 <= j < m implies (ix.contains(j) <==> (#[trigger] q[j].0 - q[(j + m - 1) % m].0 != q[(j + 1)
            % m].0 - q[j].0 || q[j].1 - q[(j + m - 1) % m].1 != q[(j + 1) % m].1 - q[j].1)) by {
        let a = q[(j + m - 1) % m];
        let b = q[(j + 1) % m];
        assert(0 <= (j + m - 1) % m < m && 0 <= (j + 1) % m < m);
        assert(q[j] == p[j] && a == p[(j + m - 1) % m] && b == p[(j + 1) % m]);
        assert(is_corner(q, j) == (diff(a, q[j]) != diff(q[j], b)));
    }
}

} // verus!
