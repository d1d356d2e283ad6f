//! The coordinate transform that assigns every geographic position to a grid
//! cell. Coordinates are carried as nanodegrees in 64-bit integers, so that a
//! whole degree is 1_000_000_000 units.

use vstd::prelude::*;

verus! {

/// Width of one grid cell in nanodegrees: 100 degrees per cell.
pub const RESOLUTION: i64 = 100_000_000_000;

/// Quotient of `a / b` rounded toward zero, the bucketing arithmetic of the
/// grid. (The spec-level `/` rounds toward negative infinity for a positive
/// divisor, so the negative case is spelled out.)
pub open spec fn div_trunc(a: int, b: int) -> int {
    if a >= 0 {
        a / b
    } else {
        -((-a) / b)
    }
}

/// The pair of cell indices that a coordinate falls in, for a cell width of
/// `res` nanodegrees.
pub open spec fn cell_key_res(lat: int, lon: int, res: int) -> (int, int) {
    (div_trunc(lat, res), div_trunc(lon, res))
}

/// The cell key of a coordinate under the configured `RESOLUTION`.
pub open spec fn cell_key(lat: i64, lon: i64) -> (int, int) {
    cell_key_res(lat as int, lon as int, RESOLUTION as int)
}

/// Truncating division on machine integers, total for every dividend.
fn div_trunc_i64(a: i64, b: i64) -> (q: i64)
    requires
        0 < b,
    ensures
        q == div_trunc(a as int, b as int),
{
    let bu: u64 = b as u64;
    if a >= 0 {
        let au: u64 = a as u64;
        let qu: u64 = au / bu;
        assert(qu <= au) by (nonlinear_arith)
            requires
                qu == au / bu,
                bu >= 1,
        ;
        qu as i64
    } else {
        let au: u64 = (-(a as i128)) as u64;
        let qu: u64 = au / bu;
        assert(qu <= au) by (nonlinear_arith)
            requires
                qu == au / bu,
                bu >= 1,
        ;
        (-(qu as i128)) as i64
    }
}

/// Maps a coordinate to its grid cell key. Pure and total: every input,
/// in range for its use or not, lands in a well-defined bucket, and equal
/// inputs always land in the same one.
pub fn cell_coordinate(lat: i64, lon: i64) -> (c: (i64, i64))
    ensures
        c.0 == cell_key(lat, lon).0,
        c.1 == cell_key(lat, lon).1,
{
    (div_trunc_i64(lat, RESOLUTION), div_trunc_i64(lon, RESOLUTION))
}

/// Two coordinates share a cell exactly when both truncated quotients by the
/// cell width agree, for every positive cell width; with differing quotients
/// they never collide.
pub proof fn lemma_cell_key_collision(lat1: int, lon1: int, lat2: int, lon2: int, res: int)
    requires
        res > 0,
    ensures
        cell_key_res(lat1, lon1, res) == cell_key_res(lat2, lon2, res) <==> (div_trunc(lat1, res)
            == div_trunc(lat2, res) && div_trunc(lon1, res) == div_trunc(lon2, res)),
{
}

} // verus!
