use vstd::prelude::*;

verus! {

/// Largest coordinate magnitude handled by the geometry: within it every squared
/// distance below is computed exactly in 128-bit arithmetic.
pub const COORD_LIMIT: i32 = 1048576;

pub open spec fn coords_in_range(s: Seq<i32>) -> bool {
    forall|j: int| 0 <= j < s.len() ==> -COORD_LIMIT <= #[trigger] s[j] <= COORD_LIMIT
}

/// Squared distance from `(px, py)` to the line through `(x1, y1)` and `(x2, y2)`,
/// as a fraction `(numerator, denominator)`:
/// `(dy*px - dx*py + x2*y1 - y2*x1)^2 / (dx^2 + dy^2)`; when the two endpoints
/// coincide, the squared distance to that endpoint over one.
pub open spec fn perp_sq(px: int, py: int, x1: int, y1: int, x2: int, y2: int) -> (int, int) {
    let dx = x2 - x1;
    let dy = y2 - y1;
    if dx == 0 && dy == 0 {
        ((px - x1) * (px - x1) + (py - y1) * (py - y1), 1)
    } else {
        let c = dy * px - dx * py + x2 * y1 - y2 * x1;
        (c * c, dx * dx + dy * dy)
    }
}

/// A distance whose square is `num / den` exceeds the tolerance `eps_milli / 1000`.
pub open spec fn exceeds(num: int, den: int, eps_milli: int) -> bool {
    1000000 * num > eps_milli * eps_milli * den
}

/// Squared perpendicular distance from a point to a chord, as `(numerator,
/// denominator)`; a chord whose endpoints coincide measures the plain distance to
/// that point.
pub fn perp_distance_sq(px: i32, py: i32, x1: i32, y1: i32, x2: i32, y2: i32) -> (r: (u128, u128))
    requires
        -COORD_LIMIT <= px <= COORD_LIMIT,
        -COORD_LIMIT <= py <= COORD_LIMIT,
        -COORD_LIMIT <= x1 <= COORD_LIMIT,
        -COORD_LIMIT <= y1 <= COORD_LIMIT,
        -COORD_LIMIT <= x2 <= COORD_LIMIT,
        -COORD_LIMIT <= y2 <= COORD_LIMIT,
    ensures
        r.0 == perp_sq(px as int, py as int, x1 as int, y1 as int, x2 as int, y2 as int).0,
        r.1 == perp_sq(px as int, py as int, x1 as int, y1 as int, x2 as int, y2 as int).1,
        r.1 > 0,
        r.0 <= 0x600_0000_0000 * 0x600_0000_0000,
        r.1 <= 0x800_0000_0000,
{
    let dx = x2 as i128 - x1 as i128;
    let dy = y2 as i128 - y1 as i128;
    assert(0 <= dx * dx <= 0x400_0000_0000 && 0 <= dy * dy <= 0x400_0000_0000) by (nonlinear_arith)
        requires -0x20_0000 <= dx <= 0x20_0000, -0x20_0000 <= dy <= 0x20_0000;
    if dx == 0 && dy == 0 {
        let ex = px as i128 - x1 as i128;
        let ey = py as i128 - y1 as i128;
        assert(0 <= ex * ex <= 0x400_0000_0000 && 0 <= ey * ey <= 0x400_0000_0000) by (nonlinear_arith)
            requires -0x20_0000 <= ex <= 0x20_0000, -0x20_0000 <= ey <= 0x20_0000;
        ((ex * ex + ey * ey) as u128, 1)
    } else {
        let qx = px as i128;
        let qy = py as i128;
        let ax = x1 as i128;
        let ay = y1 as i128;
        let bx = x2 as i128;
        let by = y2 as i128;
        assert(-0x200_0000_0000 <= dy * qx <= 0x200_0000_0000) by (nonlinear_arith)
            requires -0x20_0000 <= dy <= 0x20_0000, -0x10_0000 <= qx <= 0x10_0000;
        assert(-0x200_0000_0000 <= dx * qy <= 0x200_0000_0000) by (nonlinear_arith)
            requires -0x20_0000 <= dx <= 0x20_0000, -0x10_0000 <= qy <= 0x10_0000;
        assert(-0x100_0000_0000 <= bx * ay <= 0x100_0000_0000) by (nonlinear_arith)
            requires -0x10_0000 <= bx <= 0x10_0000, -0x10_0000 <= ay <= 0x10_0000;
        assert(-0x100_0000_0000 <= by * ax <= 0x100_0000_0000) by (nonlinear_arith)
            requires -0x10_0000 <= by <= 0x10_0000, -0x10_0000 <= ax <= 0x10_0000;
        let cr = dy * qx - dx * qy + bx * ay - by * ax;
        assert(0 <= cr * cr <= 0x600_0000_0000 * 0x600_0000_0000) by (nonlinear_arith)
            requires -0x600_0000_0000 <= cr <= 0x600_0000_0000;
        assert(dx * dx + dy * dy > 0) by (nonlinear_arith)
            requires !(dx == 0 && dy == 0);
        ((cr * cr) as u128, (dx * dx + dy * dy) as u128)
    }
}

/// X coordinate of the `i`-th point of a flat list `[x0, y0, x1, y1, ...]`.
pub open spec fn pt_x(s: Seq<i32>, i: int) -> int {
    s[2 * i] as int
}

/// Y coordinate of the `i`-th point of a flat list.
pub open spec fn pt_y(s: Seq<i32>, i: int) -> int {
    s[2 * i + 1] as int
}

/// Squared distance of point `i` from the chord between points `a` and `b`.
pub open spec fn chord_sq(s: Seq<i32>, a: int, b: int, i: int) -> (int, int) {
    perp_sq(pt_x(s, i), pt_y(s, i), pt_x(s, a), pt_y(s, a), pt_x(s, b), pt_y(s, b))
}

/// The deviation that the search for the farthest point starts from at `a`: zero.
pub open spec fn deviation(s: Seq<i32>, a: int, b: int, i: int) -> int {
    if i == a {
        0
    } else {
        chord_sq(s, a, b, i).0
    }
}

/// Among the points strictly between `a` and `j`, the first one farthest from the
/// chord `a`-`b`; `a` itself when none lies off it. Distances from one chord share a
/// denominator, so the numerators order them.
pub open spec fn farthest(s: Seq<i32>, a: int, b: int, j: int) -> int
    decreases j - a,
{
    if j <= a + 1 {
        a
    } else {
        let prev = farthest(s, a, b, j - 1);
        if chord_sq(s, a, b, j - 1).0 > deviation(s, a, b, prev) {
            j - 1
        } else {
            prev
        }
    }
}

/// Indices that Douglas-Peucker keeps strictly inside the range `a`..`b`: the
/// farthest point from the chord when it lies beyond the tolerance, and then what
/// each of the two halves keeps.
pub open spec fn dp_kept(s: Seq<i32>, eps_milli: int, a: int, b: int) -> Set<int>
    decreases b - a,
{
    if b - a <= 1 {
        Set::empty()
    } else {
        let m = farthest(s, a, b, b);
        if a < m < b && exceeds(chord_sq(s, a, b, m).0, chord_sq(s, a, b, m).1, eps_milli) {
            dp_kept(s, eps_milli, a, m).union(dp_kept(s, eps_milli, m, b)).insert(m)
        } else {
            Set::empty()
        }
    }
}

/// Number of points in a flat list.
pub open spec fn n_points(s: Seq<i32>) -> int {
    s.len() as int / 2
}

/// Indices that the simplification keeps: the first, the last, and those kept
/// between them.
pub open spec fn kept_indices(s: Seq<i32>, eps_milli: int) -> Set<int> {
    dp_kept(s, eps_milli, 0, n_points(s) - 1).insert(0).insert(n_points(s) - 1)
}

/// Flat coordinates of the points among the first `k` whose index is in `kept`.
pub open spec fn collect(s: Seq<i32>, kept: Set<int>, k: int) -> Seq<i32>
    decreases k,
{
    if k <= 0 {
        seq![]
    } else {
        let before = collect(s, kept, k - 1);
        if kept.contains(k - 1) {
            before + seq![s[2 * (k - 1)], s[2 * (k - 1) + 1]]
        } else {
            before
        }
    }
}

/// The simplified path: lists of fewer than three points come back unchanged.
pub open spec fn simplified(s: Seq<i32>, eps_milli: int) -> Seq<i32> {
    if s.len() < 6 {
        s
    } else {
        collect(s, kept_indices(s, eps_milli), n_points(s))
    }
}

/// What the ranges still on the work stack will keep.
pub open spec fn stack_kept(s: Seq<i32>, eps_milli: int, st: Seq<(usize, usize)>) -> Set<int>
    decreases st.len(),
{
    if st.len() == 0 {
        Set::empty()
    } else {
        stack_kept(s, eps_milli, st.drop_last()).union(
            dp_kept(s, eps_milli, st.last().0 as int, st.last().1 as int),
        )
    }
}

/// Work left on the stack: splitting a range lowers it.
pub open spec fn stack_work(st: Seq<(usize, usize)>) -> int
    decreases st.len(),
{
    if st.len() == 0 {
        0
    } else {
        stack_work(st.drop_last()) + (st.last().1 - st.last().0) * (st.last().1 - st.last().0) + 1
    }
}

pub open spec fn marked(m: Seq<bool>) -> Set<int> {
    Set::new(|i: int| 0 <= i < m.len() && m[i])
}

proof fn lemma_stack_work_nonneg(st: Seq<(usize, usize)>)
    ensures
        stack_work(st) >= 0,
    decreases st.len(),
{
    if st.len() > 0 {
        lemma_stack_work_nonneg(st.drop_last());
        let d = st.last().1 - st.last().0;
        assert(d * d >= 0) by (nonlinear_arith);
    }
}

proof fn lemma_split_lowers_work(a: int, m: int, b: int)
    requires
        a < m < b,
    ensures
        (m - a) * (m - a) + 1 + (b - m) * (b - m) + 1 < (b - a) * (b - a) + 1,
{
    let u = m - a;
    let v = b - m;
    assert((u + v) * (u + v) == u * u + v * v + 2 * (u * v)) by (nonlinear_arith);
    assert(u * v >= 1) by (nonlinear_arith)
        requires u >= 1, v >= 1;
    assert(b - a == u + v);
}

/// Douglas-Peucker simplification of a flat point list `[x0, y0, x1, y1, ...]`
/// with tolerance `epsilon_milli / 1000`, worked off an explicit stack of index
/// ranges. The first and last points are always kept; lists of fewer than three
/// points come back unchanged.
pub fn simplify_path(points: &Vec<i32>, epsilon_milli: u32) -> (r: Vec<i32>)
    requires
        points@.len() >= 6 ==> coords_in_range(points@),
    ensures
        r@ == simplified(points@, epsilon_milli as int),
{
    let len = points.len();
    if len < 6 {
        let mut copy: Vec<i32> = Vec::new();
        let mut j: usize = 0;
        while j < len
            invariant
                j <= len,
                len == points@.len(),
                copy@ == points@.subrange(0, j as int),
            decreases len - j,
        {
            copy.push(points[j]);
            j = j + 1;
            assert(copy@ =~= points@.subrange(0, j as int));
        }
        assert(copy@ =~= points@);
        return copy;
    }
    let ghost s = points@;
    let ghost eps = epsilon_milli as int;
    let ghost target = kept_indices(s, eps);
    let n = len / 2;
    let mut markers: Vec<bool> = Vec::new();
    let mut j: usize = 0;
    while j < n
        invariant
            j <= n,
            markers@.len() == j,
            forall|k: int| 0 <= k < j ==> !markers@[k],
        decreases n - j,
    {
        markers.push(false);
        j = j + 1;
    }
    markers.set(0, true);
    markers.set(n - 1, true);
    let mut stack: Vec<(usize, usize)> = Vec::new();
    stack.push((0, n - 1));
    proof {
        assert(stack@.drop_last() =~= Seq::<(usize, usize)>::empty());
        assert(stack_kept(s, eps, Seq::<(usize, usize)>::empty()) == Set::<int>::empty());
        assert(stack_kept(s, eps, stack@) == Set::<int>::empty().union(dp_kept(s, eps, 0, n - 1)));
        assert(n_points(s) == n);
        assert(marked(markers@) =~= Set::<int>::empty().insert(0).insert(n - 1));
        assert(marked(markers@).union(stack_kept(s, eps, stack@)) =~= target);
    }
    let e = epsilon_milli as u128;
    assert(e * e <= 0xffff_ffff * 0xffff_ffff) by (nonlinear_arith)
        requires e <= 0xffff_ffff;
    let e2 = e * e;
    while stack.len() > 0
        invariant
            s == points@,
            eps == epsilon_milli as int,
            target == kept_indices(s, eps),
            e2 == eps * eps,
            e2 <= 0xffff_ffff * 0xffff_ffff,
            len == s.len(),
            n == len / 2,
            n >= 3,
            coords_in_range(s),
            markers@.len() == n,
            forall|k: int| 0 <= k < stack@.len() ==> #[trigger] stack@[k].0 <= stack@[k].1 < n,
            marked(markers@).union(stack_kept(s, eps, stack@)) == target,
        decreases stack_work(stack@),
    {
        let ghost st0 = stack@;
        let ghost old_marked = marked(markers@);
        let top = stack.pop().unwrap();
        let a = top.0;
        let b = top.1;
        proof {
            assert(stack@ == st0.drop_last());
            assert(stack_kept(s, eps, st0) == stack_kept(s, eps, stack@).union(
                dp_kept(s, eps, a as int, b as int),
            ));
            lemma_stack_work_nonneg(stack@);
        }
        if b - a > 1 {
            let x1 = points[2 * a];
            let y1 = points[2 * a + 1];
            let x2 = points[2 * b];
            let y2 = points[2 * b + 1];
            let mut max_num: u128 = 0;
            let mut max_den: u128 = 1;
            let mut max_index: usize = a;
            let mut i: usize = a + 1;
            #[verifier::loop_isolation(false)]
            while i < b
                invariant
                    a <= max_index < i,
                    s == points@,
                    coords_in_range(s),
                    len == s.len(),
                    n == len / 2,
                    a < i <= b,
                    b < n,
                    x1 == s[2 * a],
                    y1 == s[2 * a + 1],
                    x2 == s[2 * b],
                    y2 == s[2 * b + 1],
                    max_index == farthest(s, a as int, b as int, i as int),
                    max_num == deviation(s, a as int, b as int, max_index as int),
                    max_index > a ==> max_den == chord_sq(s, a as int, b as int, max_index as int).1,
                    max_num <= 0x600_0000_0000 * 0x600_0000_0000,
                    max_den <= 0x800_0000_0000,
                decreases b - i,
            {
                let d = perp_distance_sq(points[2 * i], points[2 * i + 1], x1, y1, x2, y2);
                if d.0 > max_num {
                    max_num = d.0;
                    max_den = d.1;
                    max_index = i;
                }
                i = i + 1;
            }
            proof {
                assert(max_index == farthest(s, a as int, b as int, b as int));
            }
            assert(e2 * max_den <= 0xffff_ffff_ffff_ffff * 0x800_0000_0000) by (nonlinear_arith)
                requires e2 <= 0xffff_ffff * 0xffff_ffff, max_den <= 0x800_0000_0000;
            if max_index > a && 1000000 * max_num > e2 * max_den {
                let m = max_index;
                markers.set(m, true);
                let ghost st1 = stack@;
                stack.push((a, m));
                stack.push((m, b));
                proof {
                    let st2 = st1.push((a, m));
                    assert(stack@ == st2.push((m, b)));
                    assert(stack@.drop_last() == st2);
                    assert(stack@.last() == (m, b));
                    assert(st2.drop_last() == st1);
                    assert(st2.last() == (a, m));
                    assert(marked(markers@) =~= old_marked.insert(m as int));
                    let left = dp_kept(s, eps, a as int, m as int);
                    let right = dp_kept(s, eps, m as int, b as int);
                    assert(dp_kept(s, eps, a as int, b as int) == left.union(right).insert(m as int));
                    assert(stack_kept(s, eps, st2) == stack_kept(s, eps, st1).union(left));
                    assert(stack_kept(s, eps, stack@) == stack_kept(s, eps, st2).union(right));
                    assert(marked(markers@).union(stack_kept(s, eps, stack@)) =~= target);
                    lemma_split_lowers_work(a as int, m as int, b as int);
                    assert(stack_work(st2) == stack_work(st1) + (m - a) * (m - a) + 1);
                    assert(stack_work(stack@) == stack_work(st2) + (b - m) * (b - m) + 1);
                }
            } else {
                proof {
                    assert(dp_kept(s, eps, a as int, b as int) == Set::<int>::empty());
                    assert(marked(markers@).union(stack_kept(s, eps, stack@)) =~= target);
                }
            }
        } else {
            proof {
                assert(dp_kept(s, eps, a as int, b as int) == Set::<int>::empty());
                assert(marked(markers@).union(stack_kept(s, eps, stack@)) =~= target);
            }
        }
    }
    proof {
        assert(marked(markers@) =~= target);
    }
    let mut out: Vec<i32> = Vec::new();
    let mut k: usize = 0;
    while k < n
        invariant
            s == points@,
            len == s.len(),
            n == len / 2,
            k <= n,
            markers@.len() == n,
            marked(markers@) == target,
            out@ == collect(s, target, k as int),
        decreases n - k,
    {
        assert(markers@[k as int] == target.contains(k as int));
        if markers[k] {
            out.push(points[2 * k]);
            out.push(points[2 * k + 1]);
        }
        k = k + 1;
    }
    out
}

/// The points among the first `k` that `kept` selects start with point zero when it
/// is selected.
proof fn lemma_collect_starts_with_first(s: Seq<i32>, kept: Set<int>, k: int)
    requires
        1 <= k,
        2 * k <= s.len(),
        kept.contains(0),
    ensures
        collect(s, kept, k).len() >= 2,
        collect(s, kept, k)[0] == s[0],
        collect(s, kept, k)[1] == s[1],
    decreases k,
{
    let cur = collect(s, kept, k);
    let prev = collect(s, kept, k - 1);
    if k > 1 {
        lemma_collect_starts_with_first(s, kept, k - 1);
        if kept.contains(k - 1) {
            assert(cur == prev + seq![s[2 * (k - 1)], s[2 * (k - 1) + 1]]);
            assert(cur[0] == prev[0] && cur[1] == prev[1]);
        } else {
            assert(cur == prev);
        }
    } else {
        assert(prev == Seq::<i32>::empty());
        assert(cur =~= seq![s[0], s[1]]);
    }
}

/// The simplification keeps the first and the last point of every list of three
/// or more points, and hands shorter lists back unchanged.
pub proof fn lemma_simplify_keeps_endpoints(s: Seq<i32>, eps_milli: int)
    ensures
        s.len() < 6 ==> simplified(s, eps_milli) == s,
        s.len() >= 6 ==> {
            let r = simplified(s, eps_milli);
            let last = n_points(s) - 1;
            &&& r.len() >= 4
            &&& r[0] == s[0] && r[1] == s[1]
            &&& r[r.len() - 2] == s[2 * last] && r[r.len() - 1] == s[2 * last + 1]
        },
{
    if s.len() >= 6 {
        let n = n_points(s);
        let kept = kept_indices(s, eps_milli);
        assert(kept.contains(0));
        assert(kept.contains(n - 1));
        lemma_collect_starts_with_first(s, kept, n - 1);
    }
}

/// How many indices below `i` are in `kept`: the position that a kept index `i`
/// takes in the simplified list.
pub open spec fn rank(kept: Set<int>, i: int) -> int
    decreases i,
{
    if i <= 0 {
        0
    } else {
        rank(kept, i - 1) + if kept.contains(i - 1) {
            1int
        } else {
            0int
        }
    }
}

/// Some kept index below `k` takes position `q`.
pub open spec fn at_rank(kept: Set<int>, k: int, q: int) -> bool {
    exists|i: int| 0 <= i < k && kept.contains(i) && rank(kept, i) == q
}

proof fn lemma_rank_monotone(kept: Set<int>, i: int, j: int)
    requires
        0 <= i <= j,
    ensures
        rank(kept, i) <= rank(kept, j),
        i < j && kept.contains(i) ==> rank(kept, i) < rank(kept, j),
    decreases j - i,
{
    if i < j {
        lemma_rank_monotone(kept, i, j - 1);
        if kept.contains(i) && i == j - 1 {
            assert(rank(kept, j) == rank(kept, i) + 1);
        }
    }
}

/// Kept point `i` sits at position `rank(kept, i)` of the collected list.
proof fn lemma_collect_positions(s: Seq<i32>, kept: Set<int>, k: int)
    requires
        0 <= k,
        2 * k <= s.len(),
    ensures
        collect(s, kept, k).len() == 2 * rank(kept, k),
        forall|i: int|
            0 <= i < k && kept.contains(i) ==> collect(s, kept, k)[2 * #[trigger] rank(kept, i)]
                == s[2 * i] && collect(s, kept, k)[2 * rank(kept, i) + 1] == s[2 * i + 1],
        forall|q: int| 0 <= q < rank(kept, k) ==> #[trigger] at_rank(kept, k, q),
    decreases k,
{
    if k > 0 {
        lemma_collect_positions(s, kept, k - 1);
        let prev = collect(s, kept, k - 1);
        let cur = collect(s, kept, k);
        if kept.contains(k - 1) {
            assert(cur == prev + seq![s[2 * (k - 1)], s[2 * (k - 1) + 1]]);
        } else {
            assert(cur == prev);
        }
        assert forall|i: int|
            0 <= i < k && kept.contains(i) implies cur[2 * #[trigger] rank(kept, i)] == s[2 * i]
            && cur[2 * rank(kept, i) + 1] == s[2 * i + 1] by {
            if i < k - 1 {
                lemma_rank_monotone(kept, i, k - 1);
                lemma_rank_monotone(kept, 0, i);
                let r = 2 * rank(kept, i);
                assert(r + 1 < prev.len());
                if kept.contains(k - 1) {
                    let tail = seq![s[2 * (k - 1)], s[2 * (k - 1) + 1]];
                    assert(cur == prev + tail);
                    assert((prev + tail)[r] == prev[r]);
                    assert((prev + tail)[r + 1] == prev[r + 1]);
                }
            } else {
                assert(i == k - 1);
                assert(prev.len() == 2 * rank(kept, i));
            }
        }
        assert forall|q: int| 0 <= q < rank(kept, k) implies #[trigger] at_rank(kept, k, q) by {
            if q == rank(kept, k - 1) {
                assert(kept.contains(k - 1) && rank(kept, k - 1) == q);
            } else {
                assert(at_rank(kept, k - 1, q));
                let i = choose|i: int| 0 <= i < k - 1 && kept.contains(i) && rank(kept, i) == q;
                assert(0 <= i < k && kept.contains(i) && rank(kept, i) == q);
            }
        }
    }
}

/// With every index below `k` kept, collecting copies the first `k` points.
proof fn lemma_collect_all(s: Seq<i32>, kept: Set<int>, k: int)
    requires
        0 <= k,
        2 * k <= s.len(),
        forall|i: int| 0 <= i < k ==> kept.contains(i),
    ensures
        collect(s, kept, k) == s.subrange(0, 2 * k),
    decreases k,
{
    if k > 0 {
        lemma_collect_all(s, kept, k - 1);
        assert(collect(s, kept, k) =~= s.subrange(0, 2 * k));
    }
}

/// Indices that a range keeps lie strictly inside it.
proof fn lemma_dp_inside(s: Seq<i32>, eps: int, a: int, b: int)
    ensures
        forall|i: int| #[trigger] dp_kept(s, eps, a, b).contains(i) ==> a < i < b,
    decreases b - a,
{
    if b - a > 1 {
        let m = farthest(s, a, b, b);
        if a < m < b && exceeds(chord_sq(s, a, b, m).0, chord_sq(s, a, b, m).1, eps) {
            lemma_dp_inside(s, eps, a, m);
            lemma_dp_inside(s, eps, m, b);
            assert(dp_kept(s, eps, a, b) == dp_kept(s, eps, a, m).union(dp_kept(s, eps, m, b)).insert(
                m,
            ));
        } else {
            assert(dp_kept(s, eps, a, b) == Set::<int>::empty());
        }
    } else {
        assert(dp_kept(s, eps, a, b) == Set::<int>::empty());
    }
}

/// The search result is the first point of greatest deviation, and lies off the
/// chord when it is not the start.
proof fn lemma_farthest_is_first_max(s: Seq<i32>, a: int, b: int, j: int)
    requires
        a < j,
    ensures
        a <= farthest(s, a, b, j) < j,
        forall|i: int|
            a < i < j ==> chord_sq(s, a, b, i).0 <= deviation(s, a, b, farthest(s, a, b, j)),
        forall|i: int|
            a < i < farthest(s, a, b, j) ==> chord_sq(s, a, b, i).0 < deviation(
                s,
                a,
                b,
                farthest(s, a, b, j),
            ),
        farthest(s, a, b, j) > a ==> chord_sq(s, a, b, farthest(s, a, b, j)).0 > 0,
    decreases j - a,
{
    if j > a + 1 {
        lemma_farthest_is_first_max(s, a, b, j - 1);
        let prev = farthest(s, a, b, j - 1);
        if prev > a {
            assert(deviation(s, a, b, prev) > 0);
        }
    }
}

/// An index with the first-greatest-deviation property is the search result.
proof fn lemma_first_max_unique(s: Seq<i32>, a: int, b: int, g: int)
    requires
        a <= g < b,
        forall|i: int| a < i < b ==> chord_sq(s, a, b, i).0 <= deviation(s, a, b, g),
        forall|i: int| a < i < g ==> chord_sq(s, a, b, i).0 < deviation(s, a, b, g),
        g > a ==> chord_sq(s, a, b, g).0 > 0,
    ensures
        farthest(s, a, b, b) == g,
{
    lemma_farthest_is_first_max(s, a, b, b);
    let f = farthest(s, a, b, b);
    if f != g {
        if f == a {
            assert(chord_sq(s, a, b, g).0 <= deviation(s, a, b, f));
        } else if g == a {
            assert(chord_sq(s, a, b, f).0 <= deviation(s, a, b, g));
        } else if f < g {
            assert(chord_sq(s, a, b, f).0 < deviation(s, a, b, g));
            assert(chord_sq(s, a, b, g).0 <= deviation(s, a, b, f));
        } else {
            assert(chord_sq(s, a, b, g).0 < deviation(s, a, b, f));
            assert(chord_sq(s, a, b, f).0 <= deviation(s, a, b, g));
        }
    }
}

proof fn lemma_rank_gap(kept: Set<int>, a: int, j: int)
    requires
        0 <= a < j,
        kept.contains(a),
        forall|i: int| a < i < j ==> !kept.contains(i),
    ensures
        rank(kept, j) == rank(kept, a) + 1,
    decreases j - a,
{
    if j > a + 1 {
        lemma_rank_gap(kept, a, j - 1);
    }
}

/// On the simplified list, the range between the positions of two kept points
/// that the first pass split on keeps every position strictly inside it.
proof fn lemma_split_range_kept_again(s: Seq<i32>, eps: int, a: int, b: int)
    requires
        s.len() >= 6,
        0 <= a < b <= n_points(s) - 1,
        kept_indices(s, eps).contains(a),
        kept_indices(s, eps).contains(b),
        forall|i: int|
            a < i < b ==> (kept_indices(s, eps).contains(i) <==> dp_kept(s, eps, a, b).contains(i)),
    ensures
        forall|q: int|
            rank(kept_indices(s, eps), a) < q < rank(kept_indices(s, eps), b) ==> dp_kept(
                collect(s, kept_indices(s, eps), n_points(s)),
                eps,
                rank(kept_indices(s, eps), a),
                rank(kept_indices(s, eps), b),
            ).contains(q),
    decreases b - a,
{
    let kept = kept_indices(s, eps);
    let n = n_points(s);
    let s2 = collect(s, kept, n);
    lemma_collect_positions(s, kept, n);
    lemma_dp_inside(s, eps, a, b);
    let ra = rank(kept, a);
    let rb = rank(kept, b);
    lemma_rank_monotone(kept, a, b);
    let m = farthest(s, a, b, b);
    if b - a > 1 && a < m < b && exceeds(chord_sq(s, a, b, m).0, chord_sq(s, a, b, m).1, eps) {
        let left = dp_kept(s, eps, a, m);
        let right = dp_kept(s, eps, m, b);
        assert(dp_kept(s, eps, a, b) == left.union(right).insert(m));
        assert(kept.contains(m));
        let rm = rank(kept, m);
        lemma_rank_monotone(kept, a, m);
        lemma_rank_monotone(kept, m, b);
        lemma_rank_monotone(kept, b, n);
        lemma_rank_monotone(kept, 0, a);
        assert(pt_x(s2, ra) == pt_x(s, a) && pt_y(s2, ra) == pt_y(s, a));
        assert(pt_x(s2, rb) == pt_x(s, b) && pt_y(s2, rb) == pt_y(s, b));
        assert(pt_x(s2, rm) == pt_x(s, m) && pt_y(s2, rm) == pt_y(s, m));
        assert(chord_sq(s2, ra, rb, rm) == chord_sq(s, a, b, m));
        lemma_farthest_is_first_max(s, a, b, b);
        assert forall|q: int| ra < q < rb implies chord_sq(s2, ra, rb, q).0 <= deviation(
            s2,
            ra,
            rb,
            rm,
        ) && (q < rm ==> chord_sq(s2, ra, rb, q).0 < deviation(s2, ra, rb, rm)) by {
            assert(at_rank(kept, n, q));
            let i = choose|i: int| 0 <= i < n && kept.contains(i) && rank(kept, i) == q;
            if i <= a {
                lemma_rank_monotone(kept, i, a);
            }
            if i >= b {
                lemma_rank_monotone(kept, b, i);
            }
            if q < rm && i >= m {
                lemma_rank_monotone(kept, m, i);
            }
            assert(pt_x(s2, q) == pt_x(s, i) && pt_y(s2, q) == pt_y(s, i));
            assert(chord_sq(s2, ra, rb, q) == chord_sq(s, a, b, i));
        }
        lemma_first_max_unique(s2, ra, rb, rm);
        assert(dp_kept(s2, eps, ra, rb) == dp_kept(s2, eps, ra, rm).union(
            dp_kept(s2, eps, rm, rb),
        ).insert(rm));
        lemma_dp_inside(s, eps, a, m);
        lemma_dp_inside(s, eps, m, b);
        assert forall|i: int| a < i < m implies (kept.contains(i) <==> left.contains(i)) by {
            assert(!right.contains(i));
        }
        assert forall|i: int| m < i < b implies (kept.contains(i) <==> right.contains(i)) by {
            assert(!left.contains(i));
        }
        lemma_split_range_kept_again(s, eps, a, m);
        lemma_split_range_kept_again(s, eps, m, b);
    } else {
        assert(dp_kept(s, eps, a, b) == Set::<int>::empty());
        lemma_rank_gap(kept, a, b);
    }
}

/// Simplifying a simplified path with the same tolerance changes nothing.
pub proof fn lemma_simplify_idempotent(s: Seq<i32>, eps_milli: int)
    ensures
        simplified(simplified(s, eps_milli), eps_milli) == simplified(s, eps_milli),
{
    if s.len() >= 6 {
        let eps = eps_milli;
        let kept = kept_indices(s, eps);
        let n = n_points(s);
        let s2 = collect(s, kept, n);
        lemma_collect_positions(s, kept, n);
        lemma_dp_inside(s, eps, 0, n - 1);
        assert(kept.contains(0) && kept.contains(n - 1));
        lemma_rank_monotone(kept, 0, n - 1);
        let n2 = rank(kept, n);
        assert(n2 == rank(kept, n - 1) + 1);
        if s2.len() >= 6 {
            assert(n_points(s2) == n2);
            assert forall|i: int| 0 < i < n - 1 implies (kept.contains(i) <==> dp_kept(
                s,
                eps,
                0,
                n - 1,
            ).contains(i)) by {}
            lemma_split_range_kept_again(s, eps, 0, n - 1);
            let kept2 = kept_indices(s2, eps);
            assert forall|q: int| 0 <= q < n2 implies kept2.contains(q) by {
                if 0 < q < n2 - 1 {
                    assert(dp_kept(s2, eps, 0, n2 - 1).contains(q));
                }
            }
            lemma_collect_all(s2, kept2, n2);
            assert(s2.subrange(0, 2 * n2) =~= s2);
        }
    }
}

} // verus!
