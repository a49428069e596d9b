//! Ground-plane geometry in fixed point.
//!
//! Every length is a whole number of steps, `UNIT` steps to one world unit.
//! Coordinates stay within `LIMIT` of the origin, so that squared distances
//! fit a machine word and are compared exactly.

use vstd::prelude::*;

verus! {

/// Steps in one world unit.
pub const UNIT: i64 = 1_000_000;

/// Largest absolute value of a coordinate, in steps.
pub const LIMIT: i64 = 1_000_000_000;

/// A point of the ground plane.
#[derive(Clone, Copy, Debug, PartialEq, Eq, Structural)]
pub struct Position {
    pub x: i64,
    pub y: i64,
}

/// A heading: a vector of length at most `UNIT`.
#[derive(Clone, Copy, Debug, PartialEq, Eq, Structural)]
pub struct Direction {
    pub x: i64,
    pub y: i64,
}

/// `v * num / den`, rounded toward zero.
pub open spec fn scaled(v: int, num: int, den: int) -> int {
    if v >= 0 {
        (v * num) / den
    } else {
        -((-v * num) / den)
    }
}

/// The larger of `|x|` and `|y|`.
pub open spec fn extent(x: int, y: int) -> int {
    let ax = if x < 0 {
        -x
    } else {
        x
    };
    let ay = if y < 0 {
        -y
    } else {
        y
    };
    if ax >= ay {
        ax
    } else {
        ay
    }
}

/// The coordinate nearest to `v` that lies within the world.
pub open spec fn clamp_coord(v: int) -> int {
    if v < -LIMIT {
        -(LIMIT as int)
    } else if v > LIMIT {
        LIMIT as int
    } else {
        v
    }
}

/// `r` is the least natural number whose square reaches `n`.
pub open spec fn is_ceil_sqrt(n: int, r: int) -> bool {
    &&& r >= 0
    &&& r * r >= n
    &&& (r == 0 || (r - 1) * (r - 1) < n)
}

/// The square root of `n`, rounded up.
pub open spec fn ceil_sqrt(n: int) -> int {
    choose|r: int| is_ceil_sqrt(n, r)
}

proof fn lemma_square_monotonic(a: int, b: int)
    by (nonlinear_arith)
    requires
        0 <= a <= b,
    ensures
        a * a <= b * b,
{
}

/// At most one number is the rounded-up square root of `n`.
pub proof fn lemma_ceil_sqrt_unique(n: int, a: int, b: int)
    requires
        is_ceil_sqrt(n, a),
        is_ceil_sqrt(n, b),
    ensures
        a == b,
{
    if a < b {
        lemma_square_monotonic(a, b - 1);
    } else if b < a {
        lemma_square_monotonic(b, a - 1);
    }
}

/// Every natural number has a rounded-up square root, and `ceil_sqrt` is it.
pub proof fn lemma_ceil_sqrt_exists(n: int)
    requires
        n >= 0,
    ensures
        is_ceil_sqrt(n, ceil_sqrt(n)),
    decreases n,
{
    if n == 0 {
        assert(is_ceil_sqrt(0, 0));
    } else {
        lemma_ceil_sqrt_exists(n - 1);
        let r = ceil_sqrt(n - 1);
        if r * r >= n {
            assert(is_ceil_sqrt(n, r));
        } else {
            assert((r + 1) * (r + 1) >= n) by (nonlinear_arith)
                requires
                    r >= 0,
                    r * r >= n - 1,
            ;
            assert(is_ceil_sqrt(n, r + 1));
        }
    }
}

/// The square root of `n`, rounded up.
pub fn ceil_sqrt_u64(n: u64) -> (r: u64)
    ensures
        r == ceil_sqrt(n as int),
        is_ceil_sqrt(n as int, r as int),
        r <= 0x1_0000_0000,
{
    let mut lo: u64 = 0;
    let mut hi: u64 = 0x1_0000_0000;
    assert(hi * hi >= n) by (nonlinear_arith)
        requires
            hi == 0x1_0000_0000,
            n <= 0xffff_ffff_ffff_ffff,
    ;
    while lo < hi
        invariant
            lo <= hi <= 0x1_0000_0000,
            hi * hi >= n,
            lo == 0 || (lo - 1) * (lo - 1) < n,
        decreases hi - lo,
    {
        let mid: u64 = lo + (hi - lo) / 2;
        assert(mid * mid <= 0x1_0000_0000 * 0x1_0000_0000) by (nonlinear_arith)
            requires
                0 <= mid <= 0x1_0000_0000,
        ;
        let square: u128 = (mid as u128) * (mid as u128);
        if square >= n as u128 {
            hi = mid;
        } else {
            lo = mid + 1;
        }
    }
    proof {
        lemma_ceil_sqrt_exists(n as int);
        lemma_ceil_sqrt_unique(n as int, lo as int, ceil_sqrt(n as int));
    }
    lo
}

/// Scaling two legs of a vector no longer than `den` by `num / den` gives a
/// vector no longer than `num`.
pub proof fn lemma_scaled_norm(a: int, b: int, num: int, den: int)
    requires
        den > 0,
        num >= 0,
        a * a + b * b <= den * den,
    ensures
        scaled(a, num, den) * scaled(a, num, den) + scaled(b, num, den) * scaled(b, num, den)
            <= num * num,
        -num <= scaled(a, num, den) <= num,
        -num <= scaled(b, num, den) <= num,
{
    let sa = scaled(a, num, den);
    let sb = scaled(b, num, den);
    lemma_scaled_square(a, num, den);
    lemma_scaled_square(b, num, den);
    assert(sa * sa + sb * sb <= num * num) by (nonlinear_arith)
        requires
            den > 0,
            sa * sa * (den * den) <= a * a * (num * num),
            sb * sb * (den * den) <= b * b * (num * num),
            a * a + b * b <= den * den,
    ;
    assert(-num <= sa <= num && -num <= sb <= num) by (nonlinear_arith)
        requires
            num >= 0,
            sa * sa + sb * sb <= num * num,
    ;
}

proof fn lemma_scaled_square(v: int, num: int, den: int)
    requires
        den > 0,
        num >= 0,
    ensures
        scaled(v, num, den) * scaled(v, num, den) * (den * den) <= v * v * (num * num),
        v >= 0 ==> 0 <= scaled(v, num, den),
        v <= 0 ==> scaled(v, num, den) <= 0,
{
    let m: int = if v >= 0 {
        v
    } else {
        -v
    };
    let q = (m * num) / den;
    assert(m * num >= 0) by (nonlinear_arith)
        requires
            m >= 0,
            num >= 0,
    ;
    assert(0 <= q && q * den <= m * num) by {
        vstd::arithmetic::div_mod::lemma_fundamental_div_mod(m * num, den);
        vstd::arithmetic::div_mod::lemma_mod_bound(m * num, den);
        vstd::arithmetic::div_mod::lemma_div_pos_is_pos(m * num, den);
        vstd::arithmetic::mul::lemma_mul_is_commutative(den, q);
    }
    assert(q * q * (den * den) <= m * m * (num * num)) by (nonlinear_arith)
        requires
            0 <= q,
            den > 0,
            q * den <= m * num,
    ;
    let s = scaled(v, num, den);
    if v >= 0 {
        assert(v * num == m * num);
        assert(s == q);
        if v == 0 {
            assert(q == 0) by (nonlinear_arith)
                requires
                    q >= 0,
                    den > 0,
                    m == 0,
                    q * den <= m * num,
            ;
        }
    } else {
        assert(-v * num == m * num);
        assert(s == -q);
    }
    assert(s * s == q * q) by (nonlinear_arith)
        requires
            s == q || s == -q,
    ;
    assert(m * m == v * v) by (nonlinear_arith)
        requires
            m == v || m == -v,
    ;
}

/// A step of length `len` from a point inside the world ends no farther than
/// `len` from where it began, whatever the world's edge cut off.
pub proof fn lemma_moved_within(from: Position, dir: Direction, len: int)
    requires
        from.in_bounds(),
        dir.wf(),
        len >= 0,
    ensures
        from.dist2(from.moved(dir, len)) <= len * len,
        from.moved(dir, len).in_bounds(),
{
    let sx = scaled(dir.x as int, len, UNIT as int);
    let sy = scaled(dir.y as int, len, UNIT as int);
    lemma_scaled_norm(dir.x as int, dir.y as int, len, UNIT as int);
    let to = from.moved(dir, len);
    let ex = to.x - from.x;
    let ey = to.y - from.y;
    assert(to.x == clamp_coord(from.x + sx));
    assert(to.y == clamp_coord(from.y + sy));
    assert((0 <= ex <= sx) || (sx <= ex <= 0));
    assert((0 <= ey <= sy) || (sy <= ey <= 0));
    assert(ex * ex <= sx * sx) by (nonlinear_arith)
        requires
            (0 <= ex <= sx) || (sx <= ex <= 0),
    ;
    assert(ey * ey <= sy * sy) by (nonlinear_arith)
        requires
            (0 <= ey <= sy) || (sy <= ey <= 0),
    ;
    assert(from.dist2(to) == ex * ex + ey * ey) by (nonlinear_arith)
        requires
            from.dist2(to) == (from.x - to.x) * (from.x - to.x) + (from.y - to.y) * (from.y
                - to.y),
            ex == to.x - from.x,
            ey == to.y - from.y,
    ;
}

/// A point is at distance zero from itself, and no distance is negative.
pub proof fn lemma_dist2_basics(p: Position, q: Position)
    ensures
        p.dist2(q) >= 0,
        p == q ==> p.dist2(q) == 0,
{
    let dx = p.x - q.x;
    let dy = p.y - q.y;
    assert(dx * dx + dy * dy >= 0 && (dx == 0 && dy == 0 ==> dx * dx + dy * dy == 0))
        by (nonlinear_arith);
}

/// The heading from one point of the world to another is no longer than a
/// unit.
pub proof fn lemma_toward_wf(from: Position, to: Position)
    requires
        from.in_bounds(),
        to.in_bounds(),
        from != to,
    ensures
        Direction::toward(from, to).wf(),
        ceil_sqrt(from.dist2(to)) > 0,
{
    let dx = to.x - from.x;
    let dy = to.y - from.y;
    let d2 = from.dist2(to);
    assert(dx * dx + dy * dy == d2) by (nonlinear_arith)
        requires
            d2 == (from.x - to.x) * (from.x - to.x) + (from.y - to.y) * (from.y - to.y),
            dx == to.x - from.x,
            dy == to.y - from.y,
    ;
    assert(d2 > 0) by (nonlinear_arith)
        requires
            dx != 0 || dy != 0,
            d2 == dx * dx + dy * dy,
    ;
    lemma_ceil_sqrt_exists(d2);
    let d = ceil_sqrt(d2);
    assert(d > 0) by (nonlinear_arith)
        requires
            d >= 0,
            d * d >= d2,
            d2 > 0,
    ;
    lemma_scaled_norm(dx, dy, UNIT as int, d);
}

impl Position {
    /// Whether the point lies within the world.
    pub open spec fn in_bounds(self) -> bool {
        &&& -LIMIT <= self.x <= LIMIT
        &&& -LIMIT <= self.y <= LIMIT
    }

    /// The squared distance to `other`.
    pub open spec fn dist2(self, other: Position) -> int {
        (self.x - other.x) * (self.x - other.x) + (self.y - other.y) * (self.y - other.y)
    }

    /// The largest absolute coordinate.
    pub open spec fn reach(self) -> int {
        extent(self.x as int, self.y as int)
    }

    /// The point reached from `self` by a step of length `len` along `dir`,
    /// cut off at the world's edge.
    pub open spec fn moved(self, dir: Direction, len: int) -> Position {
        Position {
            x: clamp_coord(self.x + scaled(dir.x as int, len, UNIT as int)) as i64,
            y: clamp_coord(self.y + scaled(dir.y as int, len, UNIT as int)) as i64,
        }
    }

    /// The point `(dx, dy)` away from `self`, cut off at the world's edge.
    pub open spec fn shifted(self, dx: int, dy: int) -> Position {
        Position { x: clamp_coord(self.x + dx) as i64, y: clamp_coord(self.y + dy) as i64 }
    }

    /// The point with the coordinates given, each cut off at the world's edge.
    pub fn new(x: i64, y: i64) -> (p: Position)
        ensures
            p.in_bounds(),
            p.x == clamp_coord(x as int),
            p.y == clamp_coord(y as int),
    {
        Position { x: clamp(x as i128), y: clamp(y as i128) }
    }

    /// The centre of the world.
    pub fn origin() -> (p: Position)
        ensures
            p == (Position { x: 0, y: 0 }),
    {
        Position { x: 0, y: 0 }
    }

    /// The squared distance to `other`.
    pub fn distance_squared(&self, other: &Position) -> (d: u64)
        requires
            self.in_bounds(),
            other.in_bounds(),
        ensures
            d == self.dist2(*other),
    {
        let dx: i64 = self.x - other.x;
        let dy: i64 = self.y - other.y;
        assert(0 <= dx * dx <= 4_000_000_000_000_000_000) by (nonlinear_arith)
            requires
                -2_000_000_000 <= dx <= 2_000_000_000,
        ;
        assert(0 <= dy * dy <= 4_000_000_000_000_000_000) by (nonlinear_arith)
            requires
                -2_000_000_000 <= dy <= 2_000_000_000,
        ;
        (dx * dx + dy * dy) as u64
    }

    /// Whether `other` lies no farther than `radius` from `self`.
    pub fn within(&self, other: &Position, radius: u32) -> (b: bool)
        requires
            self.in_bounds(),
            other.in_bounds(),
        ensures
            b == (self.dist2(*other) <= radius * radius),
    {
        let d: u64 = self.distance_squared(other);
        assert(radius * radius <= 0xffff_ffff * 0xffff_ffff) by (nonlinear_arith)
            requires
                0 <= radius <= 0xffff_ffff,
        ;
        d <= (radius as u64) * (radius as u64)
    }

    /// The largest absolute coordinate.
    pub fn max_abs(&self) -> (m: i64)
        requires
            self.in_bounds(),
        ensures
            m == self.reach(),
    {
        let ax: i64 = if self.x < 0 {
            -self.x
        } else {
            self.x
        };
        let ay: i64 = if self.y < 0 {
            -self.y
        } else {
            self.y
        };
        if ax >= ay {
            ax
        } else {
            ay
        }
    }

    /// The point reached by a step of length `len` along `dir`.
    pub fn advance(&self, dir: &Direction, len: u64) -> (p: Position)
        requires
            self.in_bounds(),
            dir.wf(),
        ensures
            p == self.moved(*dir, len as int),
            p.in_bounds(),
            self.dist2(p) <= len * len,
    {
        proof {
            lemma_moved_within(*self, *dir, len as int);
            lemma_scaled_norm(dir.x as int, dir.y as int, len as int, UNIT as int);
        }
        let sx: i128 = scale(dir.x, len, UNIT as u64);
        let sy: i128 = scale(dir.y, len, UNIT as u64);
        Position { x: clamp(self.x as i128 + sx), y: clamp(self.y as i128 + sy) }
    }

    /// The point `(dx, dy)` away.
    pub fn offset(&self, dx: i64, dy: i64) -> (p: Position)
        ensures
            p == self.shifted(dx as int, dy as int),
            p.in_bounds(),
    {
        Position { x: clamp(self.x as i128 + dx as i128), y: clamp(self.y as i128 + dy as i128) }
    }
}

impl Direction {
    /// Whether the vector is no longer than `UNIT`.
    pub open spec fn wf(self) -> bool {
        &&& -UNIT <= self.x <= UNIT
        &&& -UNIT <= self.y <= UNIT
        &&& self.x * self.x + self.y * self.y <= UNIT * UNIT
    }

    /// The heading from `from` to another point `to`: the vector between
    /// them, brought to length `UNIT` and rounded toward zero.
    pub open spec fn toward(from: Position, to: Position) -> Direction {
        let d = ceil_sqrt(from.dist2(to));
        Direction {
            x: scaled(to.x - from.x, UNIT as int, d) as i64,
            y: scaled(to.y - from.y, UNIT as int, d) as i64,
        }
    }

    /// The heading of an entity that has not turned yet.
    pub open spec fn initial() -> Direction {
        Direction { x: 0, y: (-UNIT) as i64 }
    }

    /// The heading of an entity that has not turned yet.
    pub fn forward() -> (d: Direction)
        ensures
            d == Direction::initial(),
            d.wf(),
    {
        assert(UNIT * UNIT == 1_000_000_000_000) by (nonlinear_arith);
        Direction { x: 0, y: -UNIT }
    }

    /// The heading from `from` to `to`; none where the two coincide.
    pub fn between(from: &Position, to: &Position) -> (r: Option<Direction>)
        requires
            from.in_bounds(),
            to.in_bounds(),
        ensures
            *from == *to ==> r is None,
            *from != *to ==> r == Some(Direction::toward(*from, *to)),
            r is Some ==> r->0.wf(),
    {
        if from.x == to.x && from.y == to.y {
            return None;
        }
        let d2: u64 = from.distance_squared(to);
        let d: u64 = ceil_sqrt_u64(d2);
        let dx: i64 = to.x - from.x;
        let dy: i64 = to.y - from.y;
        proof {
            lemma_toward_wf(*from, *to);
        }
        let sx: i128 = scale(dx, UNIT as u64, d);
        let sy: i128 = scale(dy, UNIT as u64, d);
        Some(Direction { x: sx as i64, y: sy as i64 })
    }
}

fn clamp(v: i128) -> (r: i64)
    ensures
        r == clamp_coord(v as int),
        -LIMIT <= r <= LIMIT,
{
    if v < -(LIMIT as i128) {
        -LIMIT
    } else if v > LIMIT as i128 {
        LIMIT
    } else {
        v as i64
    }
}

fn scale(v: i64, num: u64, den: u64) -> (r: i128)
    requires
        den > 0,
        -0x1_0000_0000 <= v <= 0x1_0000_0000,
    ensures
        r == scaled(v as int, num as int, den as int),
{
    let negative: bool = v < 0;
    let m: u128 = if negative {
        (-v) as u128
    } else {
        v as u128
    };
    assert(0 <= m * num <= 0x1_0000_0000 * 0xffff_ffff_ffff_ffff) by (nonlinear_arith)
        requires
            0 <= m <= 0x1_0000_0000,
            0 <= num <= 0xffff_ffff_ffff_ffff,
    ;
    let q: u128 = (m * (num as u128)) / (den as u128);
    assert(q <= m * num) by {
        vstd::arithmetic::div_mod::lemma_div_is_ordered_by_denominator(
            (m * num) as int,
            1,
            den as int,
        );
    }
    if negative {
        -(q as i128)
    } else {
        q as i128
    }
}

} // verus!
