//! Fixed-point points, tile coordinates and the integer square root.

use vstd::prelude::*;

verus! {

/// Edge length of a tile, in world units.
pub const TILE_SIZE: usize = 4;

/// Number of position steps in one world unit.
pub const UNIT: i32 = 1000;

/// Edge length of a tile, in position steps.
pub const TILE_EXTENT: i32 = 4000;

/// A point of the plane. Each coordinate counts thousandths of a world unit.
#[derive(Clone, Copy, Debug, PartialEq, Eq, Structural)]
pub struct Pos {
    pub x: i32,
    pub y: i32,
}

/// A tile of the grid, named by its column and row.
#[derive(Clone, Copy, Debug, PartialEq, Eq, Structural)]
pub struct TileCoord {
    pub col: i32,
    pub row: i32,
}

impl View for TileCoord {
    type V = (int, int);

    open spec fn view(&self) -> (int, int) {
        (self.col as int, self.row as int)
    }
}

/// The tile that holds `p`: column and row, rounded towards minus infinity.
pub open spec fn tile_of(p: Pos) -> (int, int) {
    (p.x as int / TILE_EXTENT as int, p.y as int / TILE_EXTENT as int)
}

/// The canonical position of tile `t`: the corner with the smallest coordinates.
pub open spec fn tile_origin(t: (int, int)) -> Pos {
    Pos { x: (t.0 * TILE_EXTENT) as i32, y: (t.1 * TILE_EXTENT) as i32 }
}

/// The tile that holds `p`.
pub fn tile_containing(p: Pos) -> (t: TileCoord)
    ensures
        t@ == tile_of(p),
{
    TileCoord { col: floor_div_extent(p.x), row: floor_div_extent(p.y) }
}

/// `x` divided by the edge length of a tile, rounded towards minus infinity.
fn floor_div_extent(x: i32) -> (q: i32)
    ensures
        q == x as int / TILE_EXTENT as int,
{
    if x >= 0 {
        x / TILE_EXTENT
    } else {
        let below: i64 = -(x as i64) + (TILE_EXTENT as i64 - 1);
        let q: i64 = -(below / TILE_EXTENT as i64);
        q as i32
    }
}

/// The canonical position of tile `t`.
pub fn origin_of(t: TileCoord) -> (p: Pos)
    requires
        i32::MIN <= t.col * TILE_EXTENT <= i32::MAX,
        i32::MIN <= t.row * TILE_EXTENT <= i32::MAX,
    ensures
        p == tile_origin(t@),
        tile_of(p) == t@,
{
    Pos { x: t.col * TILE_EXTENT, y: t.row * TILE_EXTENT }
}

/// `r` is the least natural number whose square reaches `n`.
pub open spec fn is_ceil_sqrt(n: int, r: int) -> bool {
    &&& 0 <= r
    &&& n <= r * r
    &&& r == 0 || (r - 1) * (r - 1) < n
}

/// The square root of `n`, rounded up to the next integer (0 for `n <= 0`).
pub open spec fn ceil_sqrt_spec(n: int) -> int {
    choose|r: int| is_ceil_sqrt(n, r)
}

/// Squaring is monotone on the naturals.
pub proof fn lemma_square_monotone(a: int, b: int)
    requires
        0 <= a <= b,
    ensures
        a * a <= b * b,
{
    assert(a * a <= b * b) by (nonlinear_arith)
        requires
            0 <= a <= b,
    ;
}

/// At most one number is the rounded-up square root of `n`.
pub proof fn lemma_ceil_sqrt_unique(n: int, r: int, s: int)
    requires
        is_ceil_sqrt(n, r),
        is_ceil_sqrt(n, s),
    ensures
        r == s,
{
    if r < s {
        lemma_square_monotone(r, s - 1);
    } else if s < r {
        lemma_square_monotone(s, r - 1);
    }
}

/// Whoever exhibits a rounded-up square root has found `ceil_sqrt_spec`.
pub proof fn lemma_ceil_sqrt_is(n: int, r: int)
    requires
        is_ceil_sqrt(n, r),
    ensures
        ceil_sqrt_spec(n) == r,
{
    lemma_ceil_sqrt_unique(n, r, ceil_sqrt_spec(n));
}

/// Every number has a rounded-up square root.
pub proof fn lemma_ceil_sqrt_exists(n: int)
    requires
        0 <= n,
    ensures
        is_ceil_sqrt(n, ceil_sqrt_spec(n)),
    decreases n,
{
    if n == 0 {
        assert(is_ceil_sqrt(0, 0));
    } else {
        lemma_ceil_sqrt_exists(n - 1);
        let r = ceil_sqrt_spec(n - 1);
        if r * r >= n {
            assert(is_ceil_sqrt(n, r));
        } else {
            assert((r + 1) * (r + 1) == r * r + 2 * r + 1) by (nonlinear_arith);
            assert(is_ceil_sqrt(n, r + 1));
        }
    }
}

/// The square root of `n`, rounded up.
pub fn ceil_sqrt(n: u128) -> (r: u128)
    ensures
        is_ceil_sqrt(n as int, r as int),
        r == ceil_sqrt_spec(n as int),
        r <= 0x1_0000_0000_0000_0000,
{
    if n == 0 {
        proof {
            lemma_ceil_sqrt_is(0, 0);
        }
        return 0;
    }
    // lo * lo < n <= hi * hi
    let mut lo: u128 = 0;
    let mut hi: u128 = 0x1_0000_0000_0000_0000;
    assert(n <= hi * hi) by (nonlinear_arith)
        requires
            n <= u128::MAX,
            hi == 0x1_0000_0000_0000_0000,
    ;
    while hi - lo > 1
        invariant
            lo < hi <= 0x1_0000_0000_0000_0000,
            lo * lo < n <= hi * hi,
        decreases hi - lo,
    {
        let mid: u128 = lo + (hi - lo) / 2;
        assert(mid * mid <= 0xffff_ffff_ffff_ffff * 0xffff_ffff_ffff_ffff) by {
            lemma_square_monotone(mid as int, 0xffff_ffff_ffff_ffff);
        }
        if mid * mid < n {
            lo = mid;
        } else {
            hi = mid;
        }
    }
    proof {
        lemma_ceil_sqrt_is(n as int, hi as int);
    }
    hi
}

/// The length of the vector `(dx, dy)`, rounded up.
pub open spec fn length_up(dx: int, dy: int) -> int {
    ceil_sqrt_spec(dx * dx + dy * dy)
}

/// The length of a vector, rounded up, lies between its longer coordinate
/// and the sum of both.
pub proof fn lemma_length_bounds(u: int, t: int)
    requires
        0 <= t <= u,
    ensures
        u <= length_up(u, t) <= u + t,
{
    let n = length_up(u, t);
    assert(u * u + t * t >= 0) by (nonlinear_arith);
    lemma_ceil_sqrt_exists(u * u + t * t);
    assert(t * t >= 0) by (nonlinear_arith);
    if n < u {
        lemma_square_monotone(n, u - 1);
        assert((u - 1) * (u - 1) < u * u) by (nonlinear_arith)
            requires
                u >= 1,
        ;
    }
    if n > u + t {
        lemma_square_monotone(u + t, n - 1);
        assert((u + t) * (u + t) >= u * u + t * t) by (nonlinear_arith)
            requires
                0 <= t <= u,
        ;
    }
}

/// A quotient and what is left of the division.
pub proof fn lemma_division(a: int, b: int)
    requires
        0 <= a,
        0 < b,
    ensures
        a == (a / b) * b + a % b,
        0 <= a % b < b,
        0 <= a / b,
{
    vstd::arithmetic::div_mod::lemma_fundamental_div_mod(a, b);
    vstd::arithmetic::div_mod::lemma_mod_bound(a, b);
    vstd::arithmetic::div_mod::lemma_div_pos_is_pos(a, b);
    assert(b * (a / b) == (a / b) * b) by (nonlinear_arith);
}

} // verus!
