use vstd::prelude::*;

verus! {

/// Coordinates, speeds and accelerations are fixed-point numbers: this many
/// units make one pixel (or the scalar 1).
pub const UNIT: i64 = 65536;

/// Bound on the absolute value of a coordinate of a cell at rest.
pub const COORD_MAX: i64 = 0x2_0000_0000_0000;

/// Bound on the absolute value of a coordinate of a cell while a tick is
/// under way.
pub const WORK_MAX: i64 = 0x4_0000_0000_0000;

/// Bound on the absolute value of a coordinate difference handed to
/// [`displacement`].
pub const DELTA_MAX: i64 = 0x10_0000_0000_0000;

/// Bound on the absolute value of one displacement along one axis.
pub const STEP_MAX: i64 = 0x8000_0000_0000;

/// The acceleration with which a dividing cell is pushed away from its child.
pub const SPLIT_FORCE: i32 = -65536;

/// Absolute value.
pub open spec fn magnitude(v: int) -> int {
    if v < 0 {
        -v
    } else {
        v
    }
}

/// `r` is the integer square root of `n`, rounded down.
pub open spec fn is_root(n: int, r: int) -> bool {
    0 <= r && r * r <= n && n < (r + 1) * (r + 1)
}

/// The integer square root of `n`, rounded down.
pub open spec fn root(n: int) -> int {
    choose|r: int| is_root(n, r)
}

/// Every natural number has an integer square root.
pub proof fn lemma_root_exists(n: int)
    requires
        0 <= n,
    ensures
        is_root(n, root(n)),
    decreases n,
{
    if n == 0 {
        assert(is_root(0, 0));
    } else {
        lemma_root_exists(n - 1);
        let r = root(n - 1);
        if (r + 1) * (r + 1) <= n {
            assert(n < (r + 2) * (r + 2)) by (nonlinear_arith)
                requires
                    0 <= r,
                    n - 1 < (r + 1) * (r + 1),
            ;
            assert(is_root(n, r + 1));
        } else {
            assert(is_root(n, r));
        }
    }
}

/// The integer square root is unique.
pub proof fn lemma_root_unique(n: int, r1: int, r2: int)
    requires
        is_root(n, r1),
        is_root(n, r2),
    ensures
        r1 == r2,
{
    if r1 < r2 {
        assert((r1 + 1) * (r1 + 1) <= r2 * r2) by (nonlinear_arith)
            requires
                0 <= r1,
                r1 + 1 <= r2,
        ;
    }
    if r2 < r1 {
        assert((r2 + 1) * (r2 + 1) <= r1 * r1) by (nonlinear_arith)
            requires
                0 <= r2,
                r2 + 1 <= r1,
        ;
    }
}

/// Euclidean length of the vector `(dx, dy)`, rounded down.
pub open spec fn distance(dx: int, dy: int) -> int {
    root(dx * dx + dy * dy)
}

/// The distance is zero exactly for the zero vector, and no component is
/// longer than the vector.
pub proof fn lemma_distance(dx: int, dy: int)
    ensures
        is_root(dx * dx + dy * dy, distance(dx, dy)),
        distance(dx, dy) == 0 <==> (dx == 0 && dy == 0),
        magnitude(dx) <= distance(dx, dy),
        magnitude(dy) <= distance(dx, dy),
{
    let n = dx * dx + dy * dy;
    let r = distance(dx, dy);
    let ax = magnitude(dx);
    let ay = magnitude(dy);
    assert(ax * ax == dx * dx) by (nonlinear_arith)
        requires
            ax == dx || ax == -dx,
    ;
    assert(ay * ay == dy * dy) by (nonlinear_arith)
        requires
            ay == dy || ay == -dy,
    ;
    assert(0 <= ax * ax) by (nonlinear_arith);
    assert(0 <= ay * ay) by (nonlinear_arith);
    lemma_root_exists(n);
    if ax > r {
        assert((r + 1) * (r + 1) <= ax * ax) by (nonlinear_arith)
            requires
                0 <= r,
                r + 1 <= ax,
        ;
    }
    if ay > r {
        assert((r + 1) * (r + 1) <= ay * ay) by (nonlinear_arith)
            requires
                0 <= r,
                r + 1 <= ay,
        ;
    }
    if dx == 0 && dy == 0 {
        assert(is_root(0, 0));
        lemma_root_unique(0, 0, r);
    }
}

/// Displacement along one axis of a cell drawn with acceleration `accel` at
/// speed `speed` toward a point `d` away on that axis and `dist` away in all:
/// `accel * speed * d / dist`, in fixed point, rounded toward zero. A zero
/// distance gives no displacement.
pub open spec fn pull(accel: int, speed: int, d: int, dist: int) -> int {
    if dist == 0 {
        0
    } else {
        let reach = (magnitude(accel) * speed * magnitude(d)) / (dist * UNIT);
        if (accel < 0) == (d < 0) {
            reach
        } else {
            -reach
        }
    }
}

/// A displacement is never longer than acceleration times speed.
pub proof fn lemma_pull_bounded(accel: int, speed: int, d: int, dist: int)
    requires
        0 <= speed,
        magnitude(d) <= dist,
    ensures
        magnitude(pull(accel, speed, d, dist)) * UNIT <= magnitude(accel) * speed,
        0 <= magnitude(accel) * speed,
{
    let k = magnitude(accel) * speed;
    assert(0 <= k) by (nonlinear_arith)
        requires
            k == magnitude(accel) * speed,
            0 <= magnitude(accel),
            0 <= speed,
    ;
    if dist != 0 {
        let m = magnitude(d);
        let den = dist * UNIT;
        let reach = (k * m) / den;
        assert(0 <= k * m <= k * dist) by (nonlinear_arith)
            requires
                0 <= k,
                0 <= m <= dist,
        ;
        assert(0 <= reach && reach * den <= k * m) by (nonlinear_arith)
            requires
                reach == (k * m) / den,
                0 <= k * m,
                0 < den,
        ;
        assert(reach * UNIT <= k) by (nonlinear_arith)
            requires
                reach * (dist * UNIT) <= k * dist,
                0 < dist,
                0 <= reach,
        ;
    }
}

/// Wraps one coordinate of a cell of the given extent on an axis of the given
/// length: a cell that has wholly passed the far edge returns to 0, and
/// then one that has wholly passed the near edge goes to the far edge.
pub open spec fn wrap_axis(pos: int, extent: int, limit: int) -> int {
    let p = if pos - extent * UNIT >= limit * UNIT {
        0
    } else {
        pos
    };
    if p <= 0 - extent * UNIT {
        limit * UNIT
    } else {
        p
    }
}

/// A wrapped coordinate is that of a cell at rest.
pub proof fn lemma_wrap_bounded(pos: int, extent: int, limit: int)
    requires
        0 <= extent <= u32::MAX,
        0 <= limit <= u32::MAX,
    ensures
        -COORD_MAX <= wrap_axis(pos, extent, limit) <= COORD_MAX,
{
}

/// A coordinate is inside when neither edge has been passed.
pub open spec fn inside_axis(pos: int, extent: int, limit: int) -> bool {
    0 - extent * UNIT < pos && pos - extent * UNIT < limit * UNIT
}

fn span(v: i64) -> (m: u128)
    requires
        i64::MIN < v,
    ensures
        m == magnitude(v as int),
{
    if v < 0 {
        (-v) as u128
    } else {
        v as u128
    }
}

/// Integer square root, rounded down.
pub fn isqrt(n: u128) -> (r: u64)
    ensures
        is_root(n as int, r as int),
        r == root(n as int),
{
    let mut lo: u128 = 0;
    let mut hi: u128 = 0x1_0000_0000_0000_0000;
    while hi - lo > 1
        invariant
            lo < hi <= 0x1_0000_0000_0000_0000,
            lo * lo <= n,
            n < hi * hi,
        decreases hi - lo,
    {
        let mid: u128 = lo + (hi - lo) / 2;
        assert(mid * mid <= 0xffff_ffff_ffff_ffff * 0xffff_ffff_ffff_ffff) by (nonlinear_arith)
            requires
                0 <= mid <= 0xffff_ffff_ffff_ffff,
        ;
        if mid * mid <= n {
            lo = mid;
        } else {
            hi = mid;
        }
    }
    proof {
        lemma_root_exists(n as int);
        lemma_root_unique(n as int, lo as int, root(n as int));
    }
    lo as u64
}

/// The displacement, on both axes, of a cell drawn with acceleration `accel`
/// at speed `speed` toward a point `(dx, dy)` away.
pub fn displacement(accel: i32, speed: u32, dx: i64, dy: i64) -> (r: (i64, i64))
    requires
        -DELTA_MAX <= dx <= DELTA_MAX,
        -DELTA_MAX <= dy <= DELTA_MAX,
    ensures
        r.0 == pull(accel as int, speed as int, dx as int, distance(dx as int, dy as int)),
        r.1 == pull(accel as int, speed as int, dy as int, distance(dx as int, dy as int)),
        -STEP_MAX <= r.0 <= STEP_MAX,
        -STEP_MAX <= r.1 <= STEP_MAX,
{
    let ax: u128 = span(dx);
    let ay: u128 = span(dy);
    proof {
        lemma_distance(dx as int, dy as int);
        assert(ax * ax == dx * dx) by (nonlinear_arith)
            requires
                ax == dx || ax == -dx,
        ;
        assert(ay * ay == dy * dy) by (nonlinear_arith)
            requires
                ay == dy || ay == -dy,
        ;
        assert(ax * ax <= 0x10_0000_0000_0000 * 0x10_0000_0000_0000) by (nonlinear_arith)
            requires
                0 <= ax <= 0x10_0000_0000_0000,
        ;
        assert(ay * ay <= 0x10_0000_0000_0000 * 0x10_0000_0000_0000) by (nonlinear_arith)
            requires
                0 <= ay <= 0x10_0000_0000_0000,
        ;
    }
    let dist: u64 = isqrt(ax * ax + ay * ay);
    if dist == 0 {
        return (0, 0);
    }
    let force: u128 = span(accel as i64);
    proof {
        assert(force * speed <= 0x8000_0000 * 0xffff_ffff) by (nonlinear_arith)
            requires
                0 <= force <= 0x8000_0000,
                0 <= speed <= 0xffff_ffff,
        ;
    }
    let k: u128 = force * (speed as u128);
    let den: u128 = (dist as u128) * 65536;
    proof {
        lemma_pull_bounded(accel as int, speed as int, dx as int, dist as int);
        lemma_pull_bounded(accel as int, speed as int, dy as int, dist as int);
        assert(k * ax <= 0x8000_0000 * 0xffff_ffff * 0x10_0000_0000_0000) by (nonlinear_arith)
            requires
                0 <= k <= 0x8000_0000 * 0xffff_ffff,
                0 <= ax <= 0x10_0000_0000_0000,
        ;
        assert(k * ay <= 0x8000_0000 * 0xffff_ffff * 0x10_0000_0000_0000) by (nonlinear_arith)
            requires
                0 <= k <= 0x8000_0000 * 0xffff_ffff,
                0 <= ay <= 0x10_0000_0000_0000,
        ;
    }
    let mx: u128 = (k * ax) / den;
    let my: u128 = (k * ay) / den;
    let sx: i64 = if (accel < 0) == (dx < 0) {
        mx as i64
    } else {
        -(mx as i64)
    };
    let sy: i64 = if (accel < 0) == (dy < 0) {
        my as i64
    } else {
        -(my as i64)
    };
    (sx, sy)
}

/// Wraps one coordinate; see [`wrap_axis`].
pub fn wrap(pos: i64, extent: u32, limit: u32) -> (r: i64)
    ensures
        r == wrap_axis(pos as int, extent as int, limit as int),
        -COORD_MAX <= r <= COORD_MAX,
{
    let e: i128 = (extent as i128) * 65536;
    let l: i128 = (limit as i128) * 65536;
    let p: i128 = if (pos as i128) - e >= l {
        0
    } else {
        pos as i128
    };
    if p <= 0 - e {
        l as i64
    } else {
        p as i64
    }
}

} // verus!
