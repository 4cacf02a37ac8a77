use vstd::prelude::*;
use vstd::seq_lib::seq_to_set_is_finite;
use vstd::arithmetic::div_mod::{lemma_fundamental_div_mod, lemma_fundamental_div_mod_converse};
use crate::edges::ImageError;

verus! {

/// Contours of at most this many points are dropped as noise.
pub const MIN_CONTOUR: usize = 10;

/// A contour stops growing once it holds this many points.
pub const MAX_CONTOUR: usize = 5000;

/// Squared Euclidean distance between two pixel positions.
pub open spec fn dist_sq(p: (u32, u32), q: (u32, u32)) -> int {
    (p.0 - q.0) * (p.0 - q.0) + (p.1 - q.1) * (p.1 - q.1)
}

/// Step between the points that clustering considers: one when the list fits the
/// budget, else `ceil(n / max_points)`.
pub open spec fn sample_stride(n: int, max_points: int) -> int {
    if n > max_points {
        (n + max_points - 1) / max_points
    } else {
        1
    }
}

/// Number of indices `0, stride, 2 * stride, ...` below `n`: `ceil(n / stride)`.
pub open spec fn sample_count(n: int, stride: int) -> int {
    (n + stride - 1) / stride
}

/// The `i`-th point of a flat list `[x0, y0, x1, y1, ...]`.
pub open spec fn flat_point(s: Seq<u32>, i: int) -> (u32, u32) {
    (s[2 * i], s[2 * i + 1])
}

/// Squared distance between two pixel positions.
fn distance_sq(p: (u32, u32), q: (u32, u32)) -> (r: u128)
    ensures
        r == dist_sq(p, q),
{
    let dx = p.0 as i128 - q.0 as i128;
    let dy = p.1 as i128 - q.1 as i128;
    assert(0 <= dx * dx <= 0xffff_ffff * 0xffff_ffff) by (nonlinear_arith)
        requires -0xffff_ffff <= dx <= 0xffff_ffff;
    assert(0 <= dy * dy <= 0xffff_ffff * 0xffff_ffff) by (nonlinear_arith)
        requires -0xffff_ffff <= dy <= 0xffff_ffff;
    (dx * dx + dy * dy) as u128
}

/// With `(j - 1) * s < n <= j * s`, `ceil(n / s)` is `j`.
proof fn lemma_ceil_div(n: int, s: int, j: int)
    requires
        s >= 1,
        j >= 0,
        n >= 0,
        (j - 1) * s < n <= j * s,
    ensures
        (n + s - 1) / s == j,
{
    assert((j - 1) * s == j * s - s) by (nonlinear_arith);
    lemma_fundamental_div_mod_converse(n + s - 1, s, j, n + s - 1 - j * s);
}

/// The sampled count stays within the budget.
pub proof fn lemma_sample_within_budget(n: int, max_points: int)
    requires
        max_points >= 1,
        n > max_points,
    ensures
        sample_stride(n, max_points) >= 1,
        sample_count(n, sample_stride(n, max_points)) <= max_points,
{
    let m = max_points;
    let s = (n + m - 1) / m;
    lemma_fundamental_div_mod(n + m - 1, m);
    assert(m * s + (n + m - 1) % m == n + m - 1);
    assert(s * m >= n) by (nonlinear_arith)
        requires m * s + (n + m - 1) % m == n + m - 1, (n + m - 1) % m < m;
    assert(s >= 1) by (nonlinear_arith)
        requires s * m >= n, n > m, m >= 1;
    lemma_fundamental_div_mod(n + s - 1, s);
    let c = (n + s - 1) / s;
    assert(s * c + (n + s - 1) % s == n + s - 1);
    assert(c <= m) by (nonlinear_arith)
        requires s * c + (n + s - 1) % s == n + s - 1, (n + s - 1) % s >= 0, s * m >= n, s >= 1;
}

/// The points that clustering considers: every `stride`-th point of the flat list,
/// starting with the first, where the stride is `ceil(n / max_points)` for a list
/// of `n > max_points` points and one otherwise.
pub fn sample_points(points: &Vec<u32>, max_points: usize) -> (r: Vec<(u32, u32)>)
    requires
        max_points >= 1,
    ensures
        r@.len() == sample_count(
            points@.len() as int / 2,
            sample_stride(points@.len() as int / 2, max_points as int),
        ),
        r@.len() <= max_points || points@.len() / 2 <= max_points,
        forall|t: int|
            0 <= t < r@.len() ==> #[trigger] r@[t] == flat_point(
                points@,
                t * sample_stride(points@.len() as int / 2, max_points as int),
            ),
{
    let len = points.len();
    let n = len / 2;
    let stride: usize = if n > max_points {
        proof {
            lemma_sample_within_budget(n as int, max_points as int);
        }
        n / max_points + if n % max_points == 0 {
            0
        } else {
            1
        }
    } else {
        1
    };
    proof {
        let m = max_points as int;
        if n > max_points {
            lemma_fundamental_div_mod(n as int, m);
            let q = n / max_points;
            let rem = n % max_points;
            assert(q * m == m * q) by (nonlinear_arith);
            assert((q + 1) * m == m * q + m) by (nonlinear_arith);
            if rem == 0 {
                lemma_fundamental_div_mod_converse(n + m - 1, m, q as int, m - 1);
            } else {
                lemma_fundamental_div_mod_converse(n + m - 1, m, q + 1, rem - 1);
            }
            lemma_sample_within_budget(n as int, m);
            assert(stride <= n) by (nonlinear_arith)
                requires stride == (n + m - 1) / m, m >= 1, n > m;
        }
    }
    let ghost st = stride as int;
    assert(st == sample_stride(n as int, max_points as int));
    let mut r: Vec<(u32, u32)> = Vec::new();
    let mut i: usize = 0;
    while i < n
        invariant
            n == points@.len() / 2,
            len == points@.len(),
            i <= 2 * n,
            st == stride,
            1 <= stride <= n || n == 0,
            stride >= 1,
            i == r@.len() * st,
            (r@.len() - 1) * st < n || r@.len() == 0,
            forall|t: int| 0 <= t < r@.len() ==> #[trigger] r@[t] == flat_point(points@, t * st),
        decreases 2 * n - i,
    {
        assert(2 * i + 1 < len);
        assert(i + stride <= 2 * n);
        r.push((points[2 * i], points[2 * i + 1]));
        assert((r@.len() - 1) * st == i);
        i = i + stride;
        assert(i == r@.len() * st) by (nonlinear_arith)
            requires i == (r@.len() - 1) * st + st;
    }
    proof {
        if n > 0 {
            lemma_ceil_div(n as int, st, r@.len() as int);
        } else {
            assert(r@.len() == 0) by (nonlinear_arith)
                requires i == r@.len() * st, i <= n, n == 0, st >= 1;
        }
        if n > max_points {
            lemma_sample_within_budget(n as int, max_points as int);
        }
    }
    r
}

/// Number of unset flags among the first `k`.
pub open spec fn count_unset(v: Seq<bool>, k: int) -> int
    decreases k,
{
    if k <= 0 {
        0
    } else {
        count_unset(v, k - 1) + if v[k - 1] {
            0int
        } else {
            1int
        }
    }
}

proof fn lemma_count_unset_bounds(v: Seq<bool>, k: int)
    requires
        0 <= k,
    ensures
        0 <= count_unset(v, k) <= k,
    decreases k,
{
    if k > 0 {
        lemma_count_unset_bounds(v, k - 1);
    }
}

proof fn lemma_count_unset_frame(v: Seq<bool>, u: Seq<bool>, k: int)
    requires
        0 <= k <= v.len(),
        k <= u.len(),
        forall|j: int| 0 <= j < k ==> v[j] == u[j],
    ensures
        count_unset(v, k) == count_unset(u, k),
    decreases k,
{
    if k > 0 {
        lemma_count_unset_frame(v, u, k - 1);
    }
}

/// Setting an unset flag lowers the count by one.
proof fn lemma_count_unset_mark(v: Seq<bool>, i: int, k: int)
    requires
        0 <= i < k <= v.len(),
        !v[i],
    ensures
        count_unset(v.update(i, true), k) == count_unset(v, k) - 1,
    decreases k,
{
    if k - 1 == i {
        lemma_count_unset_frame(v.update(i, true), v, k - 1);
    } else {
        lemma_count_unset_mark(v, i, k - 1);
    }
}

proof fn lemma_dist_sym(p: (u32, u32), q: (u32, u32))
    ensures
        dist_sq(p, q) == dist_sq(q, p),
{
    assert((p.0 - q.0) * (p.0 - q.0) == (q.0 - p.0) * (q.0 - p.0)) by (nonlinear_arith);
    assert((p.1 - q.1) * (p.1 - q.1) == (q.1 - p.1) * (q.1 - p.1)) by (nonlinear_arith);
}

/// Point `i` has another point, by index, within the radius.
pub open spec fn has_neighbour(pts: Seq<(u32, u32)>, i: int, r: int) -> bool {
    exists|j: int| 0 <= j < pts.len() && j != i && #[trigger] dist_sq(pts[j], pts[i]) <= r
}

/// One neighbour scan of the search: from index `i` on, every unvisited point
/// within the radius of `here` is marked and pushed, in index order.
pub open spec fn scan(
    pts: Seq<(u32, u32)>,
    r: int,
    here: (u32, u32),
    visited: Seq<bool>,
    stack: Seq<usize>,
    i: int,
) -> (Seq<bool>, Seq<usize>)
    decreases pts.len() - i,
{
    if i < 0 || i >= pts.len() {
        (visited, stack)
    } else if !visited[i] && dist_sq(here, pts[i]) <= r {
        scan(pts, r, here, visited.update(i, true), stack.push(i as usize), i + 1)
    } else {
        scan(pts, r, here, visited, stack, i + 1)
    }
}

/// The depth-first search, for at most `fuel` pops: while the stack is not empty
/// and the contour holds fewer than `max_len` indices, pop the top index, append
/// it, and scan its neighbours. Returns the flags, the contour's indices and what
/// is left on the stack.
pub open spec fn dfs(
    pts: Seq<(u32, u32)>,
    r: int,
    max_len: int,
    visited: Seq<bool>,
    stack: Seq<usize>,
    contour: Seq<int>,
    fuel: nat,
) -> (Seq<bool>, Seq<int>, Seq<usize>)
    decreases fuel,
{
    if fuel == 0 || stack.len() == 0 || contour.len() >= max_len {
        (visited, contour, stack)
    } else {
        let p = stack.last() as int;
        let next = scan(pts, r, pts[p], visited, stack.drop_last(), 0);
        dfs(pts, r, max_len, next.0, next.1, contour.push(p), (fuel - 1) as nat)
    }
}

/// Clears the flags of the indices left on the stack.
pub open spec fn unmark(visited: Seq<bool>, stack: Seq<usize>) -> Seq<bool>
    decreases stack.len(),
{
    if stack.len() == 0 {
        visited
    } else {
        unmark(visited.update(stack.last() as int, false), stack.drop_last())
    }
}

/// The search seeded at `start`: the seed is marked and pushed first. Each pop
/// marks a new point or empties the stack, so `2 * n + 1` pops always suffice.
/// When the contour reaches `max_len`, the points still on the stack are left
/// unvisited, free to seed a later contour.
pub open spec fn contour_from(
    pts: Seq<(u32, u32)>,
    r: int,
    max_len: int,
    visited: Seq<bool>,
    start: int,
) -> (Seq<bool>, Seq<int>) {
    let run = dfs(
        pts,
        r,
        max_len,
        visited.update(start, true),
        seq![start as usize],
        seq![],
        (2 * pts.len() + 1) as nat,
    );
    (unmark(run.0, run.2), run.1)
}

/// The contours, as index lists, found by seeding a search at each unvisited
/// index from `start` on, in order, keeping those longer than `min_len`.
pub open spec fn grouping_from(
    pts: Seq<(u32, u32)>,
    r: int,
    min_len: int,
    max_len: int,
    visited: Seq<bool>,
    start: int,
) -> Seq<Seq<int>>
    decreases pts.len() - start,
{
    if start < 0 || start >= pts.len() {
        seq![]
    } else if visited[start] {
        grouping_from(pts, r, min_len, max_len, visited, start + 1)
    } else {
        let found = contour_from(pts, r, max_len, visited, start);
        let rest = grouping_from(pts, r, min_len, max_len, found.0, start + 1);
        if found.1.len() > min_len {
            seq![found.1] + rest
        } else {
            rest
        }
    }
}

/// The points at the given indices.
pub open spec fn as_points(pts: Seq<(u32, u32)>, idx: Seq<int>) -> Seq<(u32, u32)> {
    Seq::new(idx.len(), |k: int| pts[idx[k]])
}

/// The contours, as lists of indices into the sample, that clustering finds:
/// a search seeded at each index not yet visited, in order.
pub open spec fn grouping(
    points: Seq<u32>,
    max_distance_sq: u64,
    max_points: int,
    min_len: int,
    max_len: int,
) -> Seq<Seq<int>> {
    let pts = sampled(points, max_points);
    grouping_from(
        pts,
        max_distance_sq as int,
        min_len,
        max_len,
        Seq::new(pts.len(), |i: int| false),
        0,
    )
}

proof fn lemma_dfs_extends(
    pts: Seq<(u32, u32)>,
    r: int,
    max_len: int,
    visited: Seq<bool>,
    stack: Seq<usize>,
    contour: Seq<int>,
    fuel: nat,
)
    ensures
        dfs(pts, r, max_len, visited, stack, contour, fuel).1.len() >= contour.len(),
        dfs(pts, r, max_len, visited, stack, contour, fuel).1.subrange(0, contour.len() as int)
            == contour,
    decreases fuel,
{
    let out = dfs(pts, r, max_len, visited, stack, contour, fuel).1;
    if fuel == 0 || stack.len() == 0 || contour.len() >= max_len {
        assert(out.subrange(0, contour.len() as int) =~= contour);
    } else {
        let p = stack.last() as int;
        let next = scan(pts, r, pts[p], visited, stack.drop_last(), 0);
        lemma_dfs_extends(pts, r, max_len, next.0, next.1, contour.push(p), (fuel - 1) as nat);
        assert(out.subrange(0, contour.len() as int) =~= out.subrange(
            0,
            contour.len() as int + 1,
        ).subrange(0, contour.len() as int));
        assert(contour.push(p).subrange(0, contour.len() as int) =~= contour);
    }
}

/// A search seeded at `start` yields a contour that begins with `start`.
proof fn lemma_contour_starts_with_seed(
    pts: Seq<(u32, u32)>,
    r: int,
    max_len: int,
    visited: Seq<bool>,
    start: int,
)
    requires
        max_len >= 1,
        0 <= start <= usize::MAX,
    ensures
        contour_from(pts, r, max_len, visited, start).1.len() >= 1,
        contour_from(pts, r, max_len, visited, start).1[0] == start,
{
    let v1 = visited.update(start, true);
    let st: Seq<usize> = seq![start as usize];
    let next = scan(pts, r, pts[start], v1, st.drop_last(), 0);
    let fuel = (2 * pts.len() + 1) as nat;
    assert(st.last() as int == start);
    lemma_dfs_extends(pts, r, max_len, next.0, next.1, seq![start], (fuel - 1) as nat);
    let out = contour_from(pts, r, max_len, visited, start).1;
    assert(seq![].push(start) =~= seq![start]);
    assert(out.subrange(0, 1)[0] == out[0]);
}

proof fn lemma_seeds_increase_from(
    pts: Seq<(u32, u32)>,
    r: int,
    min_len: int,
    max_len: int,
    visited: Seq<bool>,
    start: int,
)
    requires
        max_len >= 1,
        start >= 0,
        pts.len() <= usize::MAX,
    ensures
        forall|c: int|
            0 <= c < grouping_from(pts, r, min_len, max_len, visited, start).len() ==> (
            #[trigger] grouping_from(pts, r, min_len, max_len, visited, start)[c]).len() >= 1
                && grouping_from(pts, r, min_len, max_len, visited, start)[c][0] >= start,
        forall|c: int, d: int|
            0 <= c < d < grouping_from(pts, r, min_len, max_len, visited, start).len() ==> (
            #[trigger] grouping_from(pts, r, min_len, max_len, visited, start)[c])[0] < (
            #[trigger] grouping_from(pts, r, min_len, max_len, visited, start)[d])[0],
    decreases pts.len() - start,
{
    if start < pts.len() {
        let g = grouping_from(pts, r, min_len, max_len, visited, start);
        if visited[start] {
            lemma_seeds_increase_from(pts, r, min_len, max_len, visited, start + 1);
            assert(g == grouping_from(pts, r, min_len, max_len, visited, start + 1));
        } else {
            let found = contour_from(pts, r, max_len, visited, start);
            lemma_contour_starts_with_seed(pts, r, max_len, visited, start);
            lemma_seeds_increase_from(pts, r, min_len, max_len, found.0, start + 1);
            let rest = grouping_from(pts, r, min_len, max_len, found.0, start + 1);
            if found.1.len() > min_len {
                assert(g == seq![found.1] + rest);
                assert forall|c: int| 0 <= c < g.len() implies (#[trigger] g[c]).len() >= 1
                    && g[c][0] >= start by {
                    if c > 0 {
                        assert(g[c] == rest[c - 1]);
                    }
                }
                assert forall|c: int, d: int| 0 <= c < d < g.len() implies (#[trigger] g[c])[0] < (
                #[trigger] g[d])[0] by {
                    assert(g[d] == rest[d - 1]);
                    if c > 0 {
                        assert(g[c] == rest[c - 1]);
                    }
                }
            } else {
                assert(g == rest);
            }
        }
    } else {
        assert(grouping_from(pts, r, min_len, max_len, visited, start) == Seq::<Seq<int>>::empty());
    }
}

/// Every contour of `grouping` begins with the index that seeded it, and the
/// seeds strictly increase along the list: contours come in seed order.
pub proof fn lemma_contours_in_seed_order(
    points: Seq<u32>,
    max_distance_sq: u64,
    max_points: int,
    min_len: int,
    max_len: int,
)
    requires
        max_len >= 1,
        max_points >= 1,
        points.len() <= usize::MAX,
    ensures
        forall|c: int|
            0 <= c < grouping(points, max_distance_sq, max_points, min_len, max_len).len() ==> (
            #[trigger] grouping(points, max_distance_sq, max_points, min_len, max_len)[c]).len() >= 1,
        forall|c: int, d: int|
            0 <= c < d < grouping(points, max_distance_sq, max_points, min_len, max_len).len() ==> (
            #[trigger] grouping(points, max_distance_sq, max_points, min_len, max_len)[c])[0] < (
            #[trigger] grouping(points, max_distance_sq, max_points, min_len, max_len)[d])[0],
{
    let pts = sampled(points, max_points);
    assert(pts.len() <= usize::MAX) by {
        let n = points.len() as int / 2;
        if n > max_points {
            lemma_sample_within_budget(n, max_points);
        }
    }
    lemma_seeds_increase_from(
        pts,
        max_distance_sq as int,
        min_len,
        max_len,
        Seq::new(pts.len(), |i: int| false),
        0,
    );
}

/// One contour by depth-first search from `start` over the points not yet
/// visited, with an explicit stack: each popped point joins the contour, and
/// every unvisited point within the radius of it is marked and pushed. Growth
/// stops at `max_len` points. Also returns the indices of the contour's points.
fn iterative_dfs(
    start: usize,
    points: &Vec<(u32, u32)>,
    visited: &mut Vec<bool>,
    max_distance_sq: u64,
    max_len: usize,
) -> (r: (Vec<(u32, u32)>, Ghost<Seq<int>>))
    requires
        max_len >= 1,
        start < points@.len(),
        old(visited)@.len() == points@.len(),
        !old(visited)@[start as int],
    ensures
        final(visited)@.len() == points@.len(),
        r.0@.len() == r.1@.len(),
        1 <= r.0@.len() <= max_len,
        forall|k: int|
            0 <= k < r.1@.len() ==> 0 <= #[trigger] r.1@[k] < points@.len() && r.0@[k]
                == points@[r.1@[k]] && !old(visited)@[r.1@[k]] && final(visited)@[r.1@[k]],
        forall|j: int| 0 <= j < points@.len() && old(visited)@[j] ==> #[trigger] final(visited)@[j],
        points@.len() < max_len ==> r.0@.len() < max_len,
        r.1@.len() >= 1 && r.1@[0] == start,
        r.1@.no_duplicates(),
        forall|k: int|
            1 <= k < r.1@.len() ==> exists|j: int|
                0 <= j < k && dist_sq(points@[r.1@[j]], points@[#[trigger] r.1@[k]])
                    <= max_distance_sq,
        forall|j: int|
            0 <= j < points@.len() && #[trigger] final(visited)@[j] ==> old(visited)@[j]
                || r.1@.contains(j),
        r.0@.len() < max_len ==> forall|k: int, j: int|
            0 <= k < r.1@.len() && 0 <= j < points@.len() && dist_sq(
                points@[#[trigger] r.1@[k]],
                #[trigger] points@[j],
            ) <= max_distance_sq ==> final(visited)@[j],
        forall|k: int|
            0 <= k < r.1@.len() && #[trigger] r.1@[k] != start ==> has_neighbour(
                points@,
                r.1@[k],
                max_distance_sq as int,
            ),
        !has_neighbour(points@, start as int, max_distance_sq as int) ==> r.0@.len() == 1,
        final(visited)@[start as int],
        (final(visited)@, r.1@) == contour_from(
            points@,
            max_distance_sq as int,
            max_len as int,
            old(visited)@,
            start as int,
        ),
{
    let n = points.len();
    let ghost before = visited@;
    let mut contour: Vec<(u32, u32)> = Vec::new();
    let ghost mut idx: Seq<int> = Seq::empty();
    let mut stack: Vec<usize> = Vec::new();
    proof {
        lemma_count_unset_mark(visited@, start as int, n as int);
    }
    visited.set(start, true);
    stack.push(start);
    let ghost target = dfs(
        points@,
        max_distance_sq as int,
        max_len as int,
        before.update(start as int, true),
        seq![start],
        seq![],
        (2 * n + 1) as nat,
    );
    let ghost mut fuel: nat = (2 * n + 1) as nat;
    let ghost mut from_s: Seq<int> = seq![0];
    let ghost mut from_i: Seq<int> = seq![];
    proof {
        assert(stack@ =~= seq![start]);
        assert(idx =~= Seq::<int>::empty());
        assert(stack@[0] == start);
        lemma_count_unset_bounds(visited@, n as int);
        lemma_count_unset_bounds(before, n as int);
    }
    while stack.len() > 0 && contour.len() < max_len
        invariant
            dfs(points@, max_distance_sq as int, max_len as int, visited@, stack@, idx, fuel)
                == target,
            fuel >= 2 * count_unset(visited@, n as int) + stack@.len(),
            n == points@.len(),
            idx.len() == 0 ==> stack@ == seq![start],
            idx.len() >= 1 ==> idx[0] == start,
            idx.no_duplicates(),
            stack@.no_duplicates(),
            from_s.len() == stack@.len(),
            from_i.len() == idx.len(),
            forall|t: int|
                0 <= t < stack@.len() && stack@[t] != start ==> 0 <= #[trigger] from_s[t] < idx.len()
                    && dist_sq(points@[idx[from_s[t]]], points@[stack@[t] as int]) <= max_distance_sq,
            forall|k: int|
                1 <= k < idx.len() ==> 0 <= #[trigger] from_i[k] < k && dist_sq(
                    points@[idx[from_i[k]]],
                    points@[idx[k]],
                ) <= max_distance_sq,
            forall|t: int, k: int|
                0 <= t < stack@.len() && 0 <= k < idx.len() ==> #[trigger] stack@[t] as int
                    != #[trigger] idx[k],
            before == old(visited)@,
            visited@.len() == n,
            contour@.len() == idx.len(),
            contour@.len() >= 1 || stack@.len() >= 1,
            contour@.len() <= max_len,
            forall|t: int|
                0 <= t < stack@.len() ==> #[trigger] stack@[t] < n && visited@[stack@[t] as int]
                    && !before[stack@[t] as int],
            forall|k: int|
                0 <= k < idx.len() ==> 0 <= #[trigger] idx[k] < n && contour@[k] == points@[idx[k]]
                    && !before[idx[k]] && visited@[idx[k]],
            forall|j: int| 0 <= j < n && before[j] ==> #[trigger] visited@[j],
            forall|j: int|
                0 <= j < n && #[trigger] visited@[j] ==> before[j] || idx.contains(j)
                    || stack@.contains(j as usize),
            forall|k: int, j: int|
                0 <= k < idx.len() && 0 <= j < n && dist_sq(
                    points@[#[trigger] idx[k]],
                    #[trigger] points@[j],
                ) <= max_distance_sq ==> visited@[j],
            idx.len() + stack@.len() == count_unset(before, n as int) - count_unset(
                visited@,
                n as int,
            ),
            0 <= count_unset(visited@, n as int),
            count_unset(before, n as int) <= n,
            start < n,
            visited@[start as int],
            forall|t: int|
                0 <= t < stack@.len() && #[trigger] stack@[t] != start ==> has_neighbour(
                    points@,
                    stack@[t] as int,
                    max_distance_sq as int,
                ),
            forall|k: int|
                0 <= k < idx.len() && #[trigger] idx[k] != start ==> has_neighbour(
                    points@,
                    idx[k],
                    max_distance_sq as int,
                ),
            !has_neighbour(points@, start as int, max_distance_sq as int) ==> idx.len()
                + stack@.len() <= 1 && (forall|t: int|
                0 <= t < stack@.len() ==> #[trigger] stack@[t] == start) && (forall|k: int|
                0 <= k < idx.len() ==> #[trigger] idx[k] == start),
        decreases 2 * count_unset(visited@, n as int) + stack@.len(),
    {
        let ghost st0 = stack@;
        let ghost v0 = visited@;
        let ghost idx0 = idx;
        let ghost m0 = 2 * count_unset(visited@, n as int) + stack@.len();
        let p = stack.pop().unwrap();
        let ghost s_pop = stack@;
        proof {
            assert(stack@ == st0.drop_last());
            assert(p == st0.last());
            assert forall|j: int|
                0 <= j < n && #[trigger] visited@[j] implies before[j] || idx.push(p as int).contains(j)
                || stack@.contains(j as usize) by {
                if st0.contains(j as usize) && !before[j] && !idx.contains(j) {
                    let t = choose|t: int| 0 <= t < st0.len() && st0[t] == j as usize;
                    if t < st0.len() - 1 {
                        assert(stack@[t] == j as usize);
                    } else {
                        assert(idx.push(p as int)[idx.len() as int] == j);
                    }
                }
                if idx.contains(j) {
                    let k = choose|k: int| 0 <= k < idx.len() && idx[k] == j;
                    assert(idx.push(p as int)[k] == j);
                }
            }
            assert forall|k: int| 0 <= k < idx.len() implies idx[k] != p as int by {
                assert(st0[st0.len() - 1] == p);
            }
            assert forall|t: int| 0 <= t < stack@.len() implies stack@[t] != p by {
                assert(st0[t] == stack@[t]);
                assert(st0[st0.len() - 1] == p);
            }
            if idx.len() == 0 {
                assert(st0 == seq![start]);
            }
            let fs0 = from_s;
            from_i = from_i.push(from_s.last());
            from_s = from_s.drop_last();
            idx = idx.push(p as int);
            assert forall|k: int|
                1 <= k < idx.len() implies 0 <= #[trigger] from_i[k] < k && dist_sq(
                points@[idx[from_i[k]]],
                points@[idx[k]],
            ) <= max_distance_sq by {
                if k == idx.len() - 1 {
                    assert(p != start);
                    assert(st0[st0.len() - 1] == p);
                    assert(fs0[st0.len() - 1] == from_i[k]);
                }
            }
            assert forall|t: int|
                0 <= t < stack@.len() && stack@[t] != start implies 0 <= #[trigger] from_s[t]
                < idx.len() && dist_sq(points@[idx[from_s[t]]], points@[stack@[t] as int])
                <= max_distance_sq by {
                assert(st0[t] == stack@[t]);
                assert(fs0[t] == from_s[t]);
            }
        }
        contour.push(points[p]);
        let here = points[p];
        let ghost c0 = count_unset(visited@, n as int);
        let mut i: usize = 0;
        while i < n
            invariant
                scan(points@, max_distance_sq as int, here, visited@, stack@, i as int) == scan(
                    points@,
                    max_distance_sq as int,
                    here,
                    v0,
                    s_pop,
                    0,
                ),
                count_unset(visited@, n as int) <= c0,
                idx.len() >= 1 && idx[0] == start,
                idx.no_duplicates(),
                stack@.no_duplicates(),
                from_s.len() == stack@.len(),
                from_i.len() == idx.len(),
                idx[idx.len() - 1] == p,
                forall|t: int|
                    0 <= t < stack@.len() && stack@[t] != start ==> 0 <= #[trigger] from_s[t]
                        < idx.len() && dist_sq(points@[idx[from_s[t]]], points@[stack@[t] as int])
                        <= max_distance_sq,
                forall|k: int|
                    1 <= k < idx.len() ==> 0 <= #[trigger] from_i[k] < k && dist_sq(
                        points@[idx[from_i[k]]],
                        points@[idx[k]],
                    ) <= max_distance_sq,
                forall|t: int, k: int|
                    0 <= t < stack@.len() && 0 <= k < idx.len() ==> #[trigger] stack@[t] as int
                        != #[trigger] idx[k],
                n == points@.len(),
                before == old(visited)@,
                visited@.len() == n,
                here == points@[p as int],
                p < n,
                contour@.len() == idx.len(),
                idx.len() >= 1,
                idx.last() == p,
                forall|t: int|
                    0 <= t < stack@.len() ==> #[trigger] stack@[t] < n && visited@[stack@[t] as int]
                        && !before[stack@[t] as int],
                forall|k: int|
                    0 <= k < idx.len() ==> 0 <= #[trigger] idx[k] < n && contour@[k]
                        == points@[idx[k]] && !before[idx[k]] && visited@[idx[k]],
                forall|j: int| 0 <= j < n && before[j] ==> #[trigger] visited@[j],
                forall|j: int|
                    0 <= j < n && #[trigger] visited@[j] ==> before[j] || idx.contains(j)
                        || stack@.contains(j as usize),
                forall|k: int, j: int|
                    0 <= k < idx.len() - 1 && 0 <= j < n && dist_sq(
                        points@[#[trigger] idx[k]],
                        #[trigger] points@[j],
                    ) <= max_distance_sq ==> visited@[j],
                forall|j: int|
                    0 <= j < i && dist_sq(here, #[trigger] points@[j]) <= max_distance_sq
                        ==> visited@[j],
                i <= n,
                idx.len() + stack@.len() == count_unset(before, n as int) - count_unset(
                    visited@,
                    n as int,
                ),
                0 <= count_unset(visited@, n as int),
                start < n,
                visited@[start as int],
                visited@[p as int],
                forall|t: int|
                    0 <= t < stack@.len() && #[trigger] stack@[t] != start ==> has_neighbour(
                        points@,
                        stack@[t] as int,
                        max_distance_sq as int,
                    ),
                forall|k: int|
                    0 <= k < idx.len() && #[trigger] idx[k] != start ==> has_neighbour(
                        points@,
                        idx[k],
                        max_distance_sq as int,
                    ),
                !has_neighbour(points@, start as int, max_distance_sq as int) ==> idx.len()
                    + stack@.len() <= 1 && p == start && (forall|t: int|
                    0 <= t < stack@.len() ==> #[trigger] stack@[t] == start) && (forall|k: int|
                    0 <= k < idx.len() ==> #[trigger] idx[k] == start),
            decreases n - i,
        {
            if !visited[i] {
                let d = distance_sq(here, points[i]);
                if d <= max_distance_sq as u128 {
                    proof {
                        lemma_count_unset_mark(visited@, i as int, n as int);
                    }
                    let ghost st1 = stack@;
                    visited.set(i, true);
                    stack.push(i);
                    proof {
                        lemma_dist_sym(here, points@[i as int]);
                        assert(dist_sq(points@[p as int], points@[i as int]) <= max_distance_sq);
                        assert(i != p);
                        assert(has_neighbour(points@, i as int, max_distance_sq as int));
                        if i == start {
                            assert(false);
                        }
                        assert forall|k: int| 0 <= k < idx.len() implies idx[k] != i as int by {}
                        assert forall|t: int| 0 <= t < st1.len() implies st1[t] != i by {}
                        assert(stack@ == st1.push(i));
                        let fs1 = from_s;
                        from_s = from_s.push(idx.len() - 1);
                        assert forall|t: int|
                            0 <= t < stack@.len() && stack@[t] != start implies 0
                            <= #[trigger] from_s[t] < idx.len() && dist_sq(
                            points@[idx[from_s[t]]],
                            points@[stack@[t] as int],
                        ) <= max_distance_sq by {
                            if t < st1.len() {
                                assert(stack@[t] == st1[t]);
                                assert(from_s[t] == fs1[t]);
                            } else {
                                assert(idx[idx.len() - 1] == p);
                            }
                        }
                        if !has_neighbour(points@, start as int, max_distance_sq as int) {
                            assert(p == start);
                            assert(dist_sq(points@[i as int], points@[start as int]) <= max_distance_sq);
                            assert(false);
                        }
                        assert forall|t: int|
                            0 <= t < stack@.len() && #[trigger] stack@[t] != start implies has_neighbour(
                            points@,
                            stack@[t] as int,
                            max_distance_sq as int,
                        ) by {
                            if t < st1.len() {
                                assert(stack@[t] == st1[t]);
                            }
                        }
                        lemma_count_unset_bounds(visited@, n as int);
                        assert forall|j: int|
                            0 <= j < n && #[trigger] visited@[j] implies before[j] || idx.contains(j)
                            || stack@.contains(j as usize) by {
                            if j == i {
                                assert(stack@[st1.len() as int] == i);
                            } else if st1.contains(j as usize) {
                                let t = choose|t: int| 0 <= t < st1.len() && st1[t] == j as usize;
                                assert(stack@[t] == j as usize);
                            }
                        }
                    }
                }
            }
            i = i + 1;
        }
        proof {
            lemma_count_unset_bounds(visited@, n as int);
            assert(idx == idx0.push(p as int));
            assert((visited@, stack@) == scan(points@, max_distance_sq as int, here, v0, s_pop, 0));
            assert(dfs(points@, max_distance_sq as int, max_len as int, v0, st0, idx0, fuel) == dfs(
                points@,
                max_distance_sq as int,
                max_len as int,
                visited@,
                stack@,
                idx,
                (fuel - 1) as nat,
            ));
            fuel = (fuel - 1) as nat;
        }
    }
    proof {
        lemma_count_unset_bounds(before, n as int);
        if n < max_len {
            assert(idx.len() < max_len);
        }
        assert forall|k: int| 1 <= k < idx.len() implies exists|j: int|
            0 <= j < k && dist_sq(points@[idx[j]], points@[#[trigger] idx[k]]) <= max_distance_sq by {
            assert(0 <= from_i[k] < k);
        }
        assert((visited@, idx, stack@) == target);
    }
    let ghost v_exit = visited@;
    let ghost s_exit = stack@;
    while stack.len() > 0
        invariant
            unmark(visited@, stack@) == unmark(v_exit, s_exit),
            s_exit.len() == 0 ==> visited@ == v_exit && stack@.len() == 0,
            n == points@.len(),
            before == old(visited)@,
            visited@.len() == n,
            forall|t: int|
                0 <= t < stack@.len() ==> #[trigger] stack@[t] < n && !before[stack@[t] as int],
            forall|t: int, k: int|
                0 <= t < stack@.len() && 0 <= k < idx.len() ==> #[trigger] stack@[t] as int
                    != #[trigger] idx[k],
            forall|k: int|
                0 <= k < idx.len() ==> 0 <= #[trigger] idx[k] < n && visited@[idx[k]],
            forall|j: int| 0 <= j < n && before[j] ==> #[trigger] visited@[j],
            forall|j: int|
                0 <= j < n && #[trigger] visited@[j] ==> before[j] || idx.contains(j)
                    || stack@.contains(j as usize),
        decreases stack@.len(),
    {
        let ghost st0 = stack@;
        let q = stack.pop().unwrap();
        proof {
            assert(stack@ == st0.drop_last());
            assert(q == st0.last());
            assert(st0[st0.len() - 1] == q);
        }
        visited.set(q, false);
        proof {
            assert forall|j: int|
                0 <= j < n && #[trigger] visited@[j] implies before[j] || idx.contains(j)
                || stack@.contains(j as usize) by {
                if st0.contains(j as usize) && !before[j] && !idx.contains(j) {
                    let t = choose|t: int| 0 <= t < st0.len() && st0[t] == j as usize;
                    if t < st0.len() - 1 {
                        assert(stack@[t] == j as usize);
                    }
                }
            }
            assert forall|k: int| 0 <= k < idx.len() implies 0 <= #[trigger] idx[k] < n
                && visited@[idx[k]] by {
                assert(st0[st0.len() - 1] as int != idx[k]);
            }
            assert forall|t: int, k: int|
                0 <= t < stack@.len() && 0 <= k < idx.len() implies #[trigger] stack@[t] as int
                != #[trigger] idx[k] by {
                assert(stack@[t] == st0[t]);
            }
        }
    }
    (contour, Ghost(idx))
}

/// No point within the radius of a member of `group` lies outside it.
pub open spec fn closed_group(pts: Seq<(u32, u32)>, group: Set<int>, r: int) -> bool {
    forall|a: int, b: int|
        #![trigger group.contains(a), pts[b]]
        group.contains(a) && 0 <= b < pts.len() && dist_sq(pts[a], pts[b]) <= r ==> group.contains(b)
}

/// Point `t` belongs to a closed group of at most `size` points.
pub open spec fn in_small_group(pts: Seq<(u32, u32)>, t: int, r: int, size: int) -> bool {
    exists|group: Set<int>|
        #![trigger closed_group(pts, group, r)]
        group.contains(t) && group.finite() && group.len() <= size && closed_group(pts, group, r)
}

/// Some contour holds the point `q`.
pub open spec fn in_some_contour(cs: Seq<Vec<(u32, u32)>>, q: (u32, u32)) -> bool {
    exists|c: int| 0 <= c < cs.len() && #[trigger] cs[c]@.contains(q)
}

/// The points that clustering considers, in list order.
pub open spec fn sampled(points: Seq<u32>, max_points: int) -> Seq<(u32, u32)> {
    let n = points.len() as int / 2;
    let stride = sample_stride(n, max_points);
    Seq::new(sample_count(n, stride) as nat, |t: int| flat_point(points, t * stride))
}

/// What a grouping `cs` of `points` satisfies: contour sizes, membership in the
/// sample, and, when fewer than `max_len` points are considered, closure and
/// completeness; points with no neighbour are in no contour.
pub open spec fn valid_grouping(
    points: Seq<u32>,
    max_distance_sq: u64,
    max_points: int,
    min_len: int,
    max_len: int,
    cs: Seq<Vec<(u32, u32)>>,
) -> bool {
    let pts = sampled(points, max_points);
    &&& forall|c: int| 0 <= c < cs.len() ==> min_len < (#[trigger] cs[c])@.len() <= max_len
    &&& forall|c: int, k: int|
        0 <= c < cs.len() && 0 <= k < cs[c]@.len() ==> pts.contains(#[trigger] cs[c]@[k])
    &&& pts.len() < max_len ==> forall|c: int, k: int, q: (u32, u32)|
        0 <= c < cs.len() && 0 <= k < cs[c]@.len() && pts.contains(q) && dist_sq(
            #[trigger] cs[c]@[k],
            q,
        ) <= max_distance_sq ==> #[trigger] cs[c]@.contains(q)
    &&& pts.len() < max_len ==> forall|t: int|
        0 <= t < pts.len() ==> in_some_contour(cs, #[trigger] pts[t]) || in_small_group(
            pts,
            t,
            max_distance_sq as int,
            min_len,
        )
    &&& min_len >= 1 ==> forall|c: int, t: int|
        #![trigger cs[c]@.contains(pts[t])]
        0 <= c < cs.len() && 0 <= t < pts.len() && !has_neighbour(pts, t, max_distance_sq as int)
            ==> !cs[c]@.contains(pts[t])
}

/// Groups a flat list of pixel positions `[x0, y0, x1, y1, ...]` into contours of
/// nearby points.
///
/// The list is first thinned to at most `max_points` points (see
/// `sample_points`). Each point not yet taken seeds a depth-first search that
/// gathers every point within distance `sqrt(max_distance_sq)` of a gathered
/// point, up to `max_len` points (points still waiting when a contour is cut
/// short stay free to seed later contours); contours of at most `min_len` points
/// are dropped. Contours come in the order of their seeds, their points in visiting
/// order. A budget or a length limit of zero is refused.
///
/// The result is exactly `grouping`, the index lists of that procedure mapped to
/// their points. When fewer than `max_len` points are considered, no contour is
/// cut short:
/// every contour is closed (each considered point within the radius of a
/// contour's point belongs to that contour), and every considered point lies in
/// a contour or in a closed group of at most `min_len` points. A point with
/// no other point within the radius is in no contour when `min_len` is at least
/// one.
pub fn group_contours_with(
    points: &Vec<u32>,
    max_distance_sq: u64,
    max_points: usize,
    min_len: usize,
    max_len: usize,
) -> (r: Result<
    Vec<Vec<(u32, u32)>>,
    ImageError,
>)
    ensures
        r.is_ok() <==> max_points >= 1 && max_len >= 1,
        r.is_err() ==> r == Err::<Vec<Vec<(u32, u32)>>, ImageError>(ImageError::InvalidInput),
        r.is_ok() ==> valid_grouping(
            points@,
            max_distance_sq,
            max_points as int,
            min_len as int,
            max_len as int,
            r.unwrap()@,
        ),
        r.is_ok() ==> r.unwrap()@.len() == grouping(
            points@,
            max_distance_sq,
            max_points as int,
            min_len as int,
            max_len as int,
        ).len(),
        r.is_ok() ==> forall|c: int|
            0 <= c < r.unwrap()@.len() ==> (#[trigger] r.unwrap()@[c])@ == as_points(
                sampled(points@, max_points as int),
                grouping(points@, max_distance_sq, max_points as int, min_len as int, max_len as int)[c],
            ),
{
    if max_points == 0 || max_len == 0 {
        return Err(ImageError::InvalidInput);
    }
    let pts = sample_points(points, max_points);
    let m = pts.len();
    assert(pts@ =~= sampled(points@, max_points as int));
    let mut visited: Vec<bool> = Vec::new();
    let mut j: usize = 0;
    while j < m
        invariant
            j <= m,
            visited@.len() == j,
            forall|k: int| 0 <= k < j ==> !visited@[k],
        decreases m - j,
    {
        visited.push(false);
        j = j + 1;
    }
    let mut contours: Vec<Vec<(u32, u32)>> = Vec::new();
    let ghost r = max_distance_sq as int;
    let ghost goal = grouping(points@, max_distance_sq, max_points as int, min_len as int, max_len as int);
    let ghost mut cs_idx: Seq<Seq<int>> = seq![];
    proof {
        assert(visited@ =~= Seq::new(m as nat, |i: int| false));
        assert(cs_idx + goal =~= goal);
    }
    let mut start: usize = 0;
    while start < m
        invariant
            r == max_distance_sq as int,
            goal == grouping(points@, max_distance_sq, max_points as int, min_len as int, max_len as int),
            pts@ == sampled(points@, max_points as int),
            goal == cs_idx + grouping_from(pts@, r, min_len as int, max_len as int, visited@, start as int),
            contours@.len() == cs_idx.len(),
            forall|c: int| 0 <= c < cs_idx.len() ==> (#[trigger] contours@[c])@ == as_points(pts@, cs_idx[c]),
            m == pts@.len(),
            visited@.len() == m,
            start <= m,
            forall|c: int|
                0 <= c < contours@.len() ==> min_len < (#[trigger] contours@[c])@.len()
                    <= max_len,
            forall|c: int, k: int|
                0 <= c < contours@.len() && 0 <= k < contours@[c]@.len() ==> pts@.contains(
                    #[trigger] contours@[c]@[k],
                ),
            m < max_len ==> forall|a: int, b: int|
                0 <= a < m && 0 <= b < m && #[trigger] visited@[a] && dist_sq(
                    pts@[a],
                    #[trigger] pts@[b],
                ) <= max_distance_sq ==> visited@[b],
            m < max_len ==> forall|c: int, k: int, q: (u32, u32)|
                0 <= c < contours@.len() && 0 <= k < contours@[c]@.len() && pts@.contains(q)
                    && dist_sq(#[trigger] contours@[c]@[k], q) <= max_distance_sq
                    ==> #[trigger] contours@[c]@.contains(q),
            max_len >= 1,
            min_len >= 1 ==> forall|c: int, t: int|
                #![trigger contours@[c]@.contains(pts@[t])]
                0 <= c < contours@.len() && 0 <= t < m && !has_neighbour(
                    pts@,
                    t,
                    max_distance_sq as int,
                ) ==> !contours@[c]@.contains(pts@[t]),
            forall|t: int| 0 <= t < start ==> #[trigger] visited@[t],
            m < max_len ==> forall|t: int|
                0 <= t < m && #[trigger] visited@[t] ==> in_some_contour(contours@, pts@[t])
                    || in_small_group(pts@, t, max_distance_sq as int, min_len as int),
        decreases m - start,
    {
        let ghost old_cs = cs_idx;
        let ghost vb = visited@;
        let ghost mut last_idx: Seq<int> = seq![];
        if !visited[start] {
            let ghost v0 = visited@;
            let (contour, Ghost(idx)) = iterative_dfs(start, &pts, &mut visited, max_distance_sq, max_len);
            proof {
                if m < max_len {
                    assert forall|a: int, b: int|
                        0 <= a < m && 0 <= b < m && #[trigger] visited@[a] && dist_sq(
                            pts@[a],
                            #[trigger] pts@[b],
                        ) <= max_distance_sq implies visited@[b] by {
                        if !v0[a] {
                            let k = choose|k: int| 0 <= k < idx.len() && idx[k] == a;
                            assert(dist_sq(pts@[idx[k]], pts@[b]) <= max_distance_sq);
                        }
                    }
                    assert forall|k: int, q: (u32, u32)|
                        0 <= k < contour@.len() && pts@.contains(q) && dist_sq(
                            #[trigger] contour@[k],
                            q,
                        ) <= max_distance_sq implies #[trigger] contour@.contains(q) by {
                        let t = choose|t: int| 0 <= t < m && pts@[t] == q;
                        let a = idx[k];
                        assert(dist_sq(pts@[a], pts@[t]) <= max_distance_sq);
                        assert(visited@[t]);
                        lemma_dist_sym(pts@[a], pts@[t]);
                        if v0[t] {
                            assert(v0[a]);
                            assert(false);
                        }
                        let k2 = choose|k2: int| 0 <= k2 < idx.len() && idx[k2] == t;
                        assert(contour@[k2] == pts@[t]);
                    }
                }
                assert forall|k: int| 0 <= k < contour@.len() implies pts@.contains(
                    #[trigger] contour@[k],
                ) by {
                    assert(contour@[k] == pts@[idx[k]]);
                }
                let group = idx.to_set();
                seq_to_set_is_finite(idx);
                idx.lemma_cardinality_of_set();
                if m < max_len {
                    assert forall|a: int, b: int|
                        #![trigger group.contains(a), pts@[b]]
                        group.contains(a) && 0 <= b < pts@.len() && dist_sq(pts@[a], pts@[b])
                            <= max_distance_sq implies group.contains(b) by {
                        let k = choose|k: int| 0 <= k < idx.len() && idx[k] == a;
                        assert(dist_sq(pts@[idx[k]], pts@[b]) <= max_distance_sq);
                        assert(visited@[b]);
                        lemma_dist_sym(pts@[a], pts@[b]);
                        if v0[b] {
                            assert(v0[a]);
                            assert(false);
                        }
                        assert(idx.contains(b));
                    }
                    assert(closed_group(pts@, group, max_distance_sq as int));
                }
            }
            let ghost cs_before = contours@;
            let ghost cview = contour@;
            let ghost clen = contour.len();
            assert(contour@ =~= as_points(pts@, idx));
            proof {
                last_idx = idx;
            }
            if contour.len() > min_len {
                let ghost cs0 = contours@;
                contours.push(contour);
                proof {
                    cs_idx = cs_idx.push(idx);
                    assert forall|c: int| 0 <= c < cs_idx.len() implies (#[trigger] contours@[c])@
                        == as_points(pts@, cs_idx[c]) by {
                        if c < cs0.len() {
                            assert(contours@[c] == cs0[c]);
                        } else {
                            assert(contours@[c] == contour);
                        }
                    }
                    assert forall|c: int| 0 <= c < contours@.len() implies #[trigger] contours@[c]
                        == if c < cs0.len() {
                        cs0[c]
                    } else {
                        contour
                    } by {}
                    assert forall|t: int|
                        0 <= t < m && min_len >= 1 && !has_neighbour(
                            pts@,
                            t,
                            max_distance_sq as int,
                        ) implies !#[trigger] contour@.contains(pts@[t]) by {
                        if contour@.contains(pts@[t]) {
                            let k = choose|k: int| 0 <= k < contour@.len() && contour@[k] == pts@[t];
                            let a = idx[k];
                            if a != t {
                                assert(dist_sq(pts@[a], pts@[t]) == 0);
                                assert(has_neighbour(pts@, t, max_distance_sq as int));
                            }
                        }
                    }
                    assert forall|c: int, t: int|
                        #![trigger contours@[c]@.contains(pts@[t])]
                        0 <= c < contours@.len() && 0 <= t < m && min_len >= 1 && !has_neighbour(
                            pts@,
                            t,
                            max_distance_sq as int,
                        ) implies !contours@[c]@.contains(pts@[t]) by {
                        if c == cs0.len() {
                            assert(contours@[c] == contour);
                            assert(!contour@.contains(pts@[t]));
                        } else {
                            assert(contours@[c] == cs0[c]);
                        }
                    }
                }
            }
            proof {
                let rest = grouping_from(pts@, r, min_len as int, max_len as int, visited@, start + 1);
                assert((visited@, last_idx) == contour_from(pts@, r, max_len as int, vb, start as int));
                if last_idx.len() > min_len {
                    assert(grouping_from(pts@, r, min_len as int, max_len as int, vb, start as int)
                        == seq![last_idx] + rest);
                    assert(cs_idx == old_cs.push(last_idx));
                    assert(old_cs + (seq![last_idx] + rest) =~= cs_idx + rest);
                } else {
                    assert(cs_idx == old_cs);
                    assert(grouping_from(pts@, r, min_len as int, max_len as int, vb, start as int)
                        == rest);
                }
            }
            proof {
                if m < max_len {
                    assert forall|t: int|
                        0 <= t < m && #[trigger] visited@[t] implies in_some_contour(
                            contours@,
                            pts@[t],
                        ) || in_small_group(pts@, t, max_distance_sq as int, min_len as int) by {
                        if v0[t] {
                            if in_some_contour(cs_before, pts@[t]) {
                                let c = choose|c: int|
                                    0 <= c < cs_before.len() && #[trigger] cs_before[c]@.contains(
                                        pts@[t],
                                    );
                                assert(contours@[c] == cs_before[c]);
                            }
                        } else {
                            assert(idx.contains(t));
                            let k = choose|k: int| 0 <= k < idx.len() && idx[k] == t;
                            if clen > min_len {
                                let c = cs_before.len() as int;
                                assert(contours@[c]@ == cview);
                                assert(cview[k] == pts@[t]);
                                assert(contours@[c]@.contains(pts@[t]));
                            } else {
                                assert(idx.to_set().contains(t));
                                assert(closed_group(pts@, idx.to_set(), max_distance_sq as int));
                            }
                        }
                    }
                }
            }
        }
        proof {
            let rest = grouping_from(pts@, r, min_len as int, max_len as int, visited@, start + 1);
            if vb[start as int] {
                assert(grouping_from(pts@, r, min_len as int, max_len as int, vb, start as int) == rest);
            }
        }
        start = start + 1;
    }
    proof {
        assert(grouping_from(pts@, r, min_len as int, max_len as int, visited@, m as int) =~= seq![]);
        assert(cs_idx + Seq::<Seq<int>>::empty() =~= cs_idx);
        if m < max_len {
            assert forall|t: int| 0 <= t < m implies in_some_contour(contours@, #[trigger] pts@[t])
                || in_small_group(pts@, t, max_distance_sq as int, min_len as int) by {
                assert(visited@[t]);
            }
        }
    }
    Ok(contours)
}


/// Groups points as `group_contours_with` does, dropping contours of at most
/// `MIN_CONTOUR` points and capping each at `MAX_CONTOUR`.
pub fn group_contours(points: &Vec<u32>, max_distance_sq: u64, max_points: usize) -> (r: Result<
    Vec<Vec<(u32, u32)>>,
    ImageError,
>)
    ensures
        r.is_ok() <==> max_points >= 1,
        r.is_err() ==> r == Err::<Vec<Vec<(u32, u32)>>, ImageError>(ImageError::InvalidInput),
        r.is_ok() ==> valid_grouping(
            points@,
            max_distance_sq,
            max_points as int,
            MIN_CONTOUR as int,
            MAX_CONTOUR as int,
            r.unwrap()@,
        ),
        r.is_ok() ==> r.unwrap()@.len() == grouping(
            points@,
            max_distance_sq,
            max_points as int,
            MIN_CONTOUR as int,
            MAX_CONTOUR as int,
        ).len(),
        r.is_ok() ==> forall|c: int|
            0 <= c < r.unwrap()@.len() ==> (#[trigger] r.unwrap()@[c])@ == as_points(
                sampled(points@, max_points as int),
                grouping(
                    points@,
                    max_distance_sq,
                    max_points as int,
                    MIN_CONTOUR as int,
                    MAX_CONTOUR as int,
                )[c],
            ),
{
    group_contours_with(points, max_distance_sq, max_points, MIN_CONTOUR, MAX_CONTOUR)
}

} // verus!
