//! Pixel numbering of the HEALPix grid. In ring order the rings run from
//! the north pole to the south pole, and a pixel is found by its ring and
//! its place in the ring. In nested order a pixel is found by its face, one
//! of twelve, and its two coordinates in the face, whose bits are
//! interleaved.

use vstd::prelude::*;
use vstd::arithmetic::div_mod::{
    lemma_fundamental_div_mod, lemma_fundamental_div_mod_converse, lemma_mod_bound,
};

verus! {

/// The number of pixels in ring `i` of a grid of the given resolution: four
/// more with each ring of the north cap, four times the resolution in the
/// belt, four less with each ring of the south cap, none past the last ring.
pub open spec fn ring_length(resolution: int, i: int) -> int {
    if i < 0 {
        0
    } else if i < resolution - 1 {
        4 * (i + 1)
    } else if i < 3 * resolution {
        4 * resolution
    } else if i < 4 * resolution - 1 {
        4 * (4 * resolution - 1 - i)
    } else {
        0
    }
}

/// The number of pixels in the rings before ring `n`.
pub open spec fn rings_before(resolution: int, n: int) -> int
    decreases n,
{
    if n <= 0 {
        0
    } else {
        rings_before(resolution, n - 1) + ring_length(resolution, n - 1)
    }
}

/// The number of the pixel at place `second_idx` of ring `first_idx`; past
/// the last ring, the number of pixels of the whole grid.
pub open spec fn healpix_idx(resolution: int, first_idx: int, second_idx: int) -> int {
    if first_idx < 4 * resolution - 1 {
        rings_before(resolution, first_idx) + second_idx
    } else {
        rings_before(resolution, 4 * resolution - 1)
    }
}

/// The rings before a ring hold no more pixels than the rings before a
/// later ring.
pub proof fn lemma_rings_before_grows(resolution: int, n: int, m: int)
    requires
        resolution >= 1,
        n <= m,
    ensures
        0 <= rings_before(resolution, n) <= rings_before(resolution, m),
    decreases m - n, m,
{
    if n < m {
        lemma_rings_before_grows(resolution, n, m - 1);
    } else if n > 0 {
        lemma_rings_before_grows(resolution, n - 1, m - 1);
    }
}

/// The number of pixels in the rings before ring `n`, in closed form.
pub open spec fn rings_before_closed(resolution: int, n: int) -> int {
    if n <= 0 {
        0
    } else if n <= resolution - 1 {
        2 * n * (n + 1)
    } else if n <= 3 * resolution {
        2 * resolution * (resolution - 1) + 4 * resolution * (n - (resolution - 1))
    } else if n <= 4 * resolution - 1 {
        let m = n - 3 * resolution;
        2 * resolution * (resolution - 1) + 4 * resolution * (2 * resolution + 1) + 4 * m * (
        resolution - 1) - 2 * m * (m - 1)
    } else {
        12 * resolution * resolution
    }
}

/// The closed form is the number of pixels in the rings before ring `n`.
pub proof fn lemma_rings_before_closed(resolution: int, n: int)
    requires
        resolution >= 1,
    ensures
        rings_before(resolution, n) == rings_before_closed(resolution, n),
    decreases n,
{
    let r = resolution;
    if n > 0 {
        lemma_rings_before_closed(r, n - 1);
        let m = n - 1;
        let before = rings_before_closed(r, m);
        let step = ring_length(r, m);
        let after = rings_before_closed(r, n);
        if m < r - 1 {
            assert(before == 2 * m * (m + 1)) by (nonlinear_arith)
                requires
                    before == if m <= 0 {
                        0
                    } else {
                        2 * m * (m + 1)
                    },
                    m >= 0,
            ;
            assert(2 * m * (m + 1) + 4 * (m + 1) == 2 * n * (n + 1)) by (nonlinear_arith)
                requires
                    n == m + 1,
            ;
        } else if m < 3 * r {
            assert(before == 2 * r * (r - 1) + 4 * r * (m - (r - 1))) by (nonlinear_arith)
                requires
                    m >= r - 1,
                    m >= 0,
                    r >= 1,
                    before == if m <= 0 {
                        0
                    } else if m <= r - 1 {
                        2 * m * (m + 1)
                    } else {
                        2 * r * (r - 1) + 4 * r * (m - (r - 1))
                    },
            ;
            assert(4 * r * (m - (r - 1)) + 4 * r == 4 * r * (n - (r - 1))) by (nonlinear_arith)
                requires
                    n == m + 1,
            ;
        } else if m < 4 * r - 1 {
            let k = m - 3 * r;
            assert(before == 2 * r * (r - 1) + 4 * r * (2 * r + 1) + 4 * k * (r - 1) - 2 * k * (k
                - 1)) by (nonlinear_arith)
                requires
                    k == m - 3 * r,
                    k >= 0,
                    r >= 1,
                    before == if m <= 3 * r {
                        2 * r * (r - 1) + 4 * r * (m - (r - 1))
                    } else {
                        2 * r * (r - 1) + 4 * r * (2 * r + 1) + 4 * k * (r - 1) - 2 * k * (k - 1)
                    },
            ;
            assert(4 * k * (r - 1) - 2 * k * (k - 1) + 4 * (4 * r - 1 - m) == 4 * (k + 1) * (r - 1)
                - 2 * (k + 1) * k) by (nonlinear_arith)
                requires
                    k == m - 3 * r,
            ;
        } else if m == 4 * r - 1 {
            lemma_grid_closed(r);
        }
    }
}

/// The closed form gives a grid of resolution `r` twelve times `r` squared
/// pixels.
pub proof fn lemma_grid_closed(resolution: int)
    requires
        resolution >= 1,
    ensures
        rings_before_closed(resolution, 4 * resolution - 1) == 12 * resolution * resolution,
{
    let r = resolution;
    let k = r - 1;
    let n = 4 * r - 1;
    assert(2 * r * (r - 1) + 4 * r * (2 * r + 1) + 4 * k * (r - 1) - 2 * k * (k - 1) == 12 * r * r)
        by (nonlinear_arith)
        requires
            k == r - 1,
    ;
    if r == 1 {
        assert(rings_before_closed(r, n) == 2 * r * (r - 1) + 4 * r * (n - (r - 1)));
        assert(2 * r * (r - 1) + 4 * r * (n - (r - 1)) == 12 * r * r) by (nonlinear_arith)
            requires
                r == 1,
                n == 3,
        ;
    }
}

/// A grid of resolution `r` has twelve times `r` squared pixels.
pub proof fn lemma_grid_size(resolution: int)
    requires
        resolution >= 1,
    ensures
        rings_before(resolution, 4 * resolution - 1) == 12 * resolution * resolution,
{
    lemma_rings_before_closed(resolution, 4 * resolution - 1);
    lemma_grid_closed(resolution);
}

/// The number of the pixel at place `second_idx` of ring `first_idx`, in a
/// grid of the given resolution.
pub fn axes_idx_to_healpix_idx(resolution: usize, first_idx: usize, second_idx: usize) -> (idx:
    usize)
    requires
        resolution >= 1,
        12 * resolution * resolution + second_idx <= usize::MAX,
    ensures
        idx == healpix_idx(resolution as int, first_idx as int, second_idx as int),
{
    proof {
        lemma_grid_size(resolution as int);
        assert(4 * resolution <= 12 * resolution * resolution) by (nonlinear_arith)
            requires
                resolution >= 1,
        ;
    }
    let mut idx: usize = 0;
    let last: usize = 4 * resolution - 1;
    let mut i: usize = 0;
    while i < resolution - 1
        invariant
            resolution >= 1,
            4 * resolution <= usize::MAX,
            last == 4 * resolution - 1,
            i <= resolution - 1,
            i <= first_idx,
            idx == rings_before(resolution as int, i as int),
            rings_before(resolution as int, last as int) + second_idx <= usize::MAX,
        decreases resolution - 1 - i,
    {
        proof {
            lemma_rings_before_grows(resolution as int, i as int + 1, last as int);
        }
        if i != first_idx {
            idx += 4 * (i + 1);
        } else {
            idx += second_idx;
            return idx;
        }
        i += 1;
    }
    while i < 3 * resolution
        invariant
            resolution >= 1,
            4 * resolution <= usize::MAX,
            last == 4 * resolution - 1,
            resolution - 1 <= i <= 3 * resolution,
            i <= first_idx,
            idx == rings_before(resolution as int, i as int),
            rings_before(resolution as int, last as int) + second_idx <= usize::MAX,
        decreases 3 * resolution - i,
    {
        proof {
            lemma_rings_before_grows(resolution as int, i as int + 1, last as int);
        }
        if i != first_idx {
            idx += 4 * resolution;
        } else {
            idx += second_idx;
            return idx;
        }
        i += 1;
    }
    while i < 4 * resolution - 1
        invariant
            resolution >= 1,
            4 * resolution <= usize::MAX,
            last == 4 * resolution - 1,
            3 * resolution <= i <= last,
            i <= first_idx,
            idx == rings_before(resolution as int, i as int),
            rings_before(resolution as int, last as int) + second_idx <= usize::MAX,
        decreases last - i,
    {
        proof {
            lemma_rings_before_grows(resolution as int, i as int + 1, last as int);
        }
        if i != first_idx {
            idx += 4 * (4 * resolution - 1 - i);
        } else {
            idx += second_idx;
            return idx;
        }
        i += 1;
    }
    idx
}

/// The numbers of the pixels at the given places of ring `first_idx`.
pub fn axes_idx_to_healpix_idx_batch(
    resolution: usize,
    first_idx: usize,
    second_idxs: Vec<usize>,
) -> (results: Vec<usize>)
    requires
        resolution >= 1,
        forall|j: int|
            0 <= j < second_idxs@.len() ==> 12 * resolution * resolution
                + #[trigger] second_idxs@[j] <= usize::MAX,
    ensures
        results@.len() == second_idxs@.len(),
        forall|j: int|
            0 <= j < second_idxs@.len() ==> #[trigger] results@[j] == healpix_idx(
                resolution as int,
                first_idx as int,
                second_idxs@[j] as int,
            ),
{
    let mut results: Vec<usize> = Vec::with_capacity(second_idxs.len());
    let mut j: usize = 0;
    while j < second_idxs.len()
        invariant
            j <= second_idxs@.len(),
            resolution >= 1,
            forall|n: int|
                0 <= n < second_idxs@.len() ==> 12 * resolution * resolution
                    + #[trigger] second_idxs@[n] <= usize::MAX,
            results@.len() == j,
            forall|n: int|
                0 <= n < j ==> #[trigger] results@[n] == healpix_idx(
                    resolution as int,
                    first_idx as int,
                    second_idxs@[n] as int,
                ),
        decreases second_idxs.len() - j,
    {
        results.push(axes_idx_to_healpix_idx(resolution, first_idx, second_idxs[j]));
        j += 1;
    }
    results
}

/// The greatest order of a grid: its side is two to the power of the order.
pub const MAX_ORDER: u32 = 29;

/// The low 32 bits of `x` moved apart: bit `k` of `x` becomes bit `2k` of
/// the result, and every other bit of the result is zero.
pub open spec fn spread(x: i64) -> i64 {
    let b = x & 0x0000_0000_FFFF_FFFF;
    let b = (b ^ (b << 16)) & 0x0000_FFFF_0000_FFFF;
    let b = (b ^ (b << 8)) & 0x00FF_00FF_00FF_00FF;
    let b = (b ^ (b << 4)) & 0x0F0F_0F0F_0F0F_0F0F;
    let b = (b ^ (b << 2)) & 0x3333_3333_3333_3333;
    (b ^ (b << 1)) & 0x5555_5555_5555_5555
}

/// What `spread` does to the bits: bit `k` of `x` is bit `2k` of the result,
/// the bits in between are zero, and the result is not negative.
pub proof fn lemma_spread_bits(x: i64, k: u32)
    requires
        k < 32,
    ensures
        (spread(x) >> ((2 * k) as u32)) & 1 == (x >> k) & 1,
        (spread(x) >> ((2 * k + 1) as u32)) & 1 == 0,
        spread(x) >= 0,
{
    assert((spread(x) >> ((2 * k) as u32)) & 1 == (x >> k) & 1) by (bit_vector)
        requires
            k < 32,
    ;
    assert((spread(x) >> ((2 * k + 1) as u32)) & 1 == 0) by (bit_vector)
        requires
            k < 32,
    ;
    assert(spread(x) >= 0) by (bit_vector);
}

/// A coordinate below the side of a grid spreads to less than the square of
/// the side.
pub proof fn lemma_spread_bound(x: i64, k: u32)
    requires
        k <= MAX_ORDER,
        0 <= x < (1i64 << k),
    ensures
        0 <= spread(x) < (1i64 << k) * (1i64 << k),
        1 <= (1i64 << k) <= 0x2000_0000,
{
    assert(0 <= spread(x) < (1i64 << ((2 * k) as u32))) by (bit_vector)
        requires
            k <= 29,
            0 <= x < (1i64 << k),
    ;
    assert((1i64 << k) * (1i64 << k) == (1i64 << ((2 * k) as u32))) by (bit_vector)
        requires
            k <= 29,
    ;
    assert(1 <= (1i64 << k) <= 0x2000_0000) by (bit_vector)
        requires
            k <= 29,
    ;
}

/// Two coordinates below the side of a grid interleave to less than the
/// square of the side.
pub proof fn lemma_interleave_bound(x: i64, y: i64, k: u32)
    requires
        k <= MAX_ORDER,
        0 <= x < (1i64 << k),
        0 <= y < (1i64 << k),
    ensures
        0 <= spread(x) + 2 * spread(y) < (1i64 << k) * (1i64 << k),
{
    assert(0 <= spread(x) + 2 * spread(y) < (1i64 << ((2 * k) as u32))) by (bit_vector)
        requires
            k <= 29,
            0 <= x < (1i64 << k),
            0 <= y < (1i64 << k),
    ;
    assert((1i64 << k) * (1i64 << k) == (1i64 << ((2 * k) as u32))) by (bit_vector)
        requires
            k <= 29,
    ;
}

/// The side of a grid is even from order one on.
pub proof fn lemma_side_even(k: u32)
    requires
        1 <= k <= MAX_ORDER,
    ensures
        2 <= (1i64 << k) <= 0x2000_0000,
        (1i64 << k) % 2 == 0,
{
    assert(2 <= (1i64 << k) <= 0x2000_0000 && (1i64 << k) % 2 == 0) by (bit_vector)
        requires
            1 <= k <= 29,
    ;
}

/// The numbers of a grid fit together: the side is two to the power of the
/// order, the grid has twelve times the square of the side pixels, and each
/// polar cap has twice the side times the side less one.
pub open spec fn valid_grid(nside: i64, npix: i64, ncap: i64, k: u32) -> bool {
    &&& 1 <= k <= MAX_ORDER
    &&& nside == 1i64 << k
    &&& npix == 12 * nside * nside
    &&& ncap == 2 * nside * (nside - 1)
}

/// The offset of a face along the ring, in half pixels per side: by the
/// face's number.
pub open spec fn pll_spec(f: int) -> int {
    if f < 4 {
        2 * f + 1
    } else if f < 8 {
        2 * (f - 4)
    } else {
        2 * (f - 8) + 1
    }
}

/// Ring `n` of a polar cap, counted from the pole and from one, holds the
/// `i`-th pixel of the cap, counted from the pole and from zero.
pub open spec fn in_cap_ring(i: int, n: int) -> bool {
    n >= 1 && 2 * n * (n - 1) <= i < 2 * n * (n + 1)
}

/// The ring of a polar cap that holds the `i`-th pixel of the cap.
pub open spec fn cap_ring(i: int) -> int {
    choose|n: int| in_cap_ring(i, n)
}

/// The sum of the two coordinates of a pixel in its face, from the face and
/// the ring.
pub open spec fn diag_sum(f: int, ring: int, nside: int) -> int {
    (2 + f / 4) * nside - ring - 1
}

/// The difference of the two coordinates of a pixel in its face, from the
/// face, the length of the ring and the place in the ring.
pub open spec fn diag_diff(f: int, nring: int, phi: int, shift: int, nside: int) -> int {
    let p = 2 * phi - pll_spec(f) * nring - shift - 1;
    if p >= 2 * nside {
        p - 8 * nside
    } else {
        p
    }
}

/// The first coordinate of a pixel in its face.
pub open spec fn face_x(f: int, ring: int, nring: int, phi: int, shift: int, nside: int) -> int {
    (diag_sum(f, ring, nside) + diag_diff(f, nring, phi, shift, nside)) / 2
}

/// The second coordinate of a pixel in its face.
pub open spec fn face_y(f: int, ring: int, nring: int, phi: int, shift: int, nside: int) -> int {
    (diag_sum(f, ring, nside) - diag_diff(f, nring, phi, shift, nside)) / 2
}

/// The number in nested order of the pixel at `(i, j)` of face `f`.
pub open spec fn nested_index(f: int, i: int, j: int, nside: int) -> int {
    f * nside * nside + spread(i as i64) + 2 * spread(j as i64)
}

/// The number in nested order of a pixel given by its face, its ring and
/// its place in the ring.
pub open spec fn nest_of(f: int, ring: int, nring: int, phi: int, shift: int, nside: int) -> int {
    nested_index(
        f,
        face_x(f, ring, nring, phi, shift, nside),
        face_y(f, ring, nring, phi, shift, nside),
        nside,
    )
}

/// The face of a pixel of the belt, from the two counts of face borders
/// that the pixel lies past.
pub open spec fn belt_face(ifm: int, ifp: int) -> int {
    if ifp == ifm {
        if ifp == 4 {
            4
        } else {
            ifp + 4
        }
    } else if ifp < ifm {
        ifp
    } else {
        ifm + 8
    }
}

/// The number in nested order of the pixel with number `idx` in ring order,
/// in a grid of side `nside`.
pub open spec fn ring_to_nested_spec(idx: int, nside: int) -> int {
    let npix = 12 * nside * nside;
    let ncap = 2 * nside * (nside - 1);
    if idx < ncap {
        let nring = cap_ring(idx);
        let phi = 1 + idx - 2 * nring * (nring - 1);
        let f = (phi - 1) / nring;
        nest_of(f, nring, nring, phi, 0, nside)
    } else if npix - ncap <= idx {
        let nring = cap_ring(npix - 1 - idx);
        let phi = 1 + idx + 2 * nring * (nring - 1) + 4 * nring - npix;
        let f = (phi - 1) / nring + 8;
        nest_of(f, 4 * nside - nring, nring, phi, 0, nside)
    } else {
        let ip = idx - ncap;
        let tmp = ip / (4 * nside);
        let phi = ip % (4 * nside) + 1;
        let ring = tmp + nside;
        let ifm = 1 + (phi - 1 - (1 + tmp) / 2) / nside;
        let ifp = 1 + (phi - 1 - (1 - tmp + 2 * nside) / 2) / nside;
        nest_of(belt_face(ifm, ifp), ring, nside, phi, ring % 2, nside)
    }
}

/// The ring of a cap found from a square root: where `s` is the root of
/// `2 i + 1`, rounded down, the `i`-th pixel lies in ring `(1 + s) / 2`.
pub proof fn lemma_cap_ring_of_root(i: int, s: int)
    requires
        i >= 0,
        s >= 0,
        s * s <= 2 * i + 1 < (s + 1) * (s + 1),
    ensures
        in_cap_ring(i, (1 + s) / 2),
{
    let n = (1 + s) / 2;
    if s == 0 {
        assert((s + 1) * (s + 1) == 1) by (nonlinear_arith)
            requires
                s == 0,
        ;
    }
    if s == 2 * n - 1 {
        assert(s * s == 4 * (n * (n - 1)) + 1) by (nonlinear_arith)
            requires
                s == 2 * n - 1,
        ;
        assert((s + 1) * (s + 1) == 4 * (n * (n - 1)) + 4 * n) by (nonlinear_arith)
            requires
                s == 2 * n - 1,
        ;
        assert(2 * n * (n - 1) == 2 * (n * (n - 1))) by (nonlinear_arith);
        assert(2 * n * (n + 1) == 2 * (n * (n - 1)) + 4 * n) by (nonlinear_arith);
    } else {
        assert(s == 2 * n);
        assert(s * s == 4 * (n * (n - 1)) + 4 * n) by (nonlinear_arith)
            requires
                s == 2 * n,
        ;
        assert((s + 1) * (s + 1) == 4 * (n * (n - 1)) + 8 * n + 1) by (nonlinear_arith)
            requires
                s == 2 * n,
        ;
        assert(2 * n * (n - 1) == 2 * (n * (n - 1))) by (nonlinear_arith);
        assert(2 * n * (n + 1) == 2 * (n * (n - 1)) + 4 * n) by (nonlinear_arith);
    }
}

/// Only one ring of a cap holds a given pixel, and it is `cap_ring`.
pub proof fn lemma_cap_ring_unique(i: int, n: int)
    requires
        in_cap_ring(i, n),
    ensures
        cap_ring(i) == n,
{
    let m = cap_ring(i);
    assert(in_cap_ring(i, m));
    if n < m {
        assert(2 * n * (n + 1) <= 2 * m * (m - 1)) by (nonlinear_arith)
            requires
                1 <= n,
                n + 1 <= m,
        ;
    }
    if m < n {
        assert(2 * m * (m + 1) <= 2 * n * (n - 1)) by (nonlinear_arith)
            requires
                1 <= m,
                m + 1 <= n,
        ;
    }
}

/// The rings of a cap are fewer than the side of the grid.
pub proof fn lemma_cap_ring_small(i: int, n: int, nside: int)
    requires
        in_cap_ring(i, n),
        nside >= 1,
        i < 2 * nside * (nside - 1),
    ensures
        n < nside,
{
    if n >= nside {
        assert(2 * nside * (nside - 1) <= 2 * n * (n - 1)) by (nonlinear_arith)
            requires
                1 <= nside <= n,
        ;
    }
}

/// A pixel of a ring of a cap has its coordinates in its face within the
/// side of the grid: the cap's ring `n` has `4 n` pixels, `n` in each of
/// four faces.
pub proof fn lemma_cap_pixel(n: int, phi: int, nside: int, south: bool)
    requires
        1 <= n < nside,
        1 <= phi <= 4 * n,
    ensures
        ({
            let f0 = (phi - 1) / n;
            let f = if south {
                f0 + 8
            } else {
                f0
            };
            let ring = if south {
                4 * nside - n
            } else {
                n
            };
            &&& 0 <= f0 <= 3
            &&& (diag_sum(f, ring, nside) + diag_diff(f, n, phi, 0, nside)) % 2 == 0
            &&& 0 <= diag_sum(f, ring, nside) + diag_diff(f, n, phi, 0, nside)
            &&& 0 <= diag_sum(f, ring, nside) - diag_diff(f, n, phi, 0, nside)
            &&& 0 <= face_x(f, ring, n, phi, 0, nside) < nside
            &&& 0 <= face_y(f, ring, n, phi, 0, nside) < nside
        }),
{
    let f0 = (phi - 1) / n;
    let q = (phi - 1) % n;
    lemma_fundamental_div_mod(phi - 1, n);
    lemma_mod_bound(phi - 1, n);
    assert(phi - 1 == n * f0 + q);
    assert(0 <= f0 <= 3) by (nonlinear_arith)
        requires
            phi - 1 == n * f0 + q,
            0 <= q < n,
            0 <= phi - 1 < 4 * n,
    ;
    let f = if south {
        f0 + 8
    } else {
        f0
    };
    let ring = if south {
        4 * nside - n
    } else {
        n
    };
    assert(n * f0 == f0 * n) by (nonlinear_arith);
    let fn0 = f0 * n;
    assert(pll_spec(f) * n == 2 * fn0 + n) by (nonlinear_arith)
        requires
            pll_spec(f) == 2 * f0 + 1,
            fn0 == f0 * n,
    ;
    let r = diag_sum(f, ring, nside);
    assert(f / 4 == if south {
        2int
    } else {
        0int
    });
    assert(r == if south {
        n - 1
    } else {
        2 * nside - n - 1
    }) by (nonlinear_arith)
        requires
            r == (2 + f / 4) * nside - ring - 1,
            f / 4 == if south {
                2int
            } else {
                0int
            },
            ring == if south {
                4 * nside - n
            } else {
                n
            },
    ;
    let p0 = 2 * phi - pll_spec(f) * n - 0 - 1;
    assert(p0 == 2 * q + 1 - n);
    let p = diag_diff(f, n, phi, 0, nside);
    assert(p == p0);
    if south {
        assert(r + p == 2 * q);
        assert(r - p == 2 * (n - 1 - q));
    } else {
        assert(r + p == 2 * (nside - n + q));
        assert(r - p == 2 * (nside - 1 - q));
    }
}

/// A pixel of the belt has its face among the twelve and its coordinates in
/// its face within the side of the grid.
pub proof fn lemma_belt_pixel(tmp: int, phi: int, nside: int)
    requires
        nside >= 2,
        nside % 2 == 0,
        0 <= tmp <= 2 * nside,
        1 <= phi <= 4 * nside,
    ensures
        ({
            let ring = tmp + nside;
            let ifm = 1 + (phi - 1 - (1 + tmp) / 2) / nside;
            let ifp = 1 + (phi - 1 - (1 - tmp + 2 * nside) / 2) / nside;
            let f = belt_face(ifm, ifp);
            let shift = ring % 2;
            &&& 0 <= ifm <= 4
            &&& 0 <= ifp <= 4
            &&& 0 <= f < 12
            &&& (diag_sum(f, ring, nside) + diag_diff(f, nside, phi, shift, nside)) % 2 == 0
            &&& 0 <= diag_sum(f, ring, nside) + diag_diff(f, nside, phi, shift, nside)
            &&& 0 <= diag_sum(f, ring, nside) - diag_diff(f, nside, phi, shift, nside)
            &&& 0 <= face_x(f, ring, nside, phi, shift, nside) < nside
            &&& 0 <= face_y(f, ring, nside, phi, shift, nside) < nside
        }),
{
    let n = nside;
    let ring = tmp + n;
    let x = phi - 1;
    let a = (1 + tmp) / 2;
    let b = (1 - tmp + 2 * n) / 2;
    let shift = ring % 2;
    assert(tmp + shift == 2 * a);
    assert(tmp - shift == 2 * (n - b));
    let um = (x - a) / n;
    let up = (x - b) / n;
    let vm = (x - a) % n;
    let vp = (x - b) % n;
    lemma_fundamental_div_mod(x - a, n);
    lemma_mod_bound(x - a, n);
    lemma_fundamental_div_mod(x - b, n);
    lemma_mod_bound(x - b, n);
    assert(n * um == um * n && n * up == up * n) by (nonlinear_arith);
    let wm = um * n;
    let wp = up * n;
    assert(x - a == wm + vm);
    assert(x - b == wp + vp);
    assert(-1 <= um <= 3) by (nonlinear_arith)
        requires
            wm == um * n,
            x - a == wm + vm,
            0 <= vm < n,
            -n <= x - a < 4 * n,
    ;
    assert(-1 <= up <= 3) by (nonlinear_arith)
        requires
            wp == up * n,
            x - b == wp + vp,
            0 <= vp < n,
            -n <= x - b < 4 * n,
    ;
    let ifm = 1 + um;
    let ifp = 1 + up;
    let f = belt_face(ifm, ifp);
    assert(wm == if um == -1 {
        -n
    } else if um == 0 {
        0
    } else if um == 1 {
        n
    } else if um == 2 {
        2 * n
    } else {
        3 * n
    }) by (nonlinear_arith)
        requires
            wm == um * n,
            -1 <= um <= 3,
    ;
    assert(wp == if up == -1 {
        -n
    } else if up == 0 {
        0
    } else if up == 1 {
        n
    } else if up == 2 {
        2 * n
    } else {
        3 * n
    }) by (nonlinear_arith)
        requires
            wp == up * n,
            -1 <= up <= 3,
    ;
    let r = diag_sum(f, ring, n);
    let quarter = f / 4;
    assert(r == if quarter == 0 {
        n - tmp - 1
    } else if quarter == 1 {
        2 * n - tmp - 1
    } else {
        3 * n - tmp - 1
    }) by (nonlinear_arith)
        requires
            r == (2 + quarter) * n - ring - 1,
            ring == tmp + n,
            0 <= quarter <= 2,
    ;
    let g = pll_spec(f);
    let gn = g * n;
    assert(gn == if g == 0 {
        0
    } else if g == 1 {
        n
    } else if g == 2 {
        2 * n
    } else if g == 3 {
        3 * n
    } else if g == 4 {
        4 * n
    } else if g == 5 {
        5 * n
    } else if g == 6 {
        6 * n
    } else {
        7 * n
    }) by (nonlinear_arith)
        requires
            gn == g * n,
            0 <= g <= 7,
    ;
    let p0 = 2 * phi - gn - shift - 1;
    let p = diag_diff(f, n, phi, shift, n);
    assert(p == if p0 >= 2 * n {
        p0 - 8 * n
    } else {
        p0
    });
}

/// The root of a number, rounded down.
pub fn int_sqrt(i: i64) -> (root: i64)
    requires
        i >= 0,
    ensures
        0 <= root < 3037000500,
        root * root <= i < (root + 1) * (root + 1),
{
    let mut low: i64 = 0;
    let mut high: i64 = 3037000500;
    assert(0 * 0 <= i);
    assert(i < 3037000500 * 3037000500);
    while high - low > 1
        invariant
            0 <= low < high <= 3037000500,
            low * low <= i < high * high,
        decreases high - low,
    {
        let mid = low + (high - low) / 2;
        assert(0 <= mid * mid <= 3037000499 * 3037000499) by (nonlinear_arith)
            requires
                0 <= mid <= 3037000499,
        ;
        if mid * mid <= i {
            low = mid;
        } else {
            high = mid;
        }
    }
    low
}

/// How many times `b` goes into `a`, but no more than three.
pub fn div_03(a: i64, b: i64) -> (q: i64)
    requires
        0 <= a,
        0 < b <= 0x3fff_ffff_ffff_ffff,
    ensures
        q == if a / b > 3 {
            3
        } else {
            a / b
        },
{
    let t: i64 = if a >= 2 * b {
        1
    } else {
        0
    };
    let rest = a - t * (2 * b);
    let q = 2 * t + if rest >= b {
        1
    } else {
        0
    };
    proof {
        lemma_fundamental_div_mod(a as int, b as int);
        lemma_mod_bound(a as int, b as int);
        let d = a as int / b as int;
        let m = a as int % b as int;
        assert(b * d == d * b) by (nonlinear_arith);
        let w = d * b;
        assert(a == w + m);
        assert(d >= 0) by (nonlinear_arith)
            requires
                w == d * b,
                a == w + m,
                0 <= m < b,
                a >= 0,
                b > 0,
        ;
        assert(w == if d == 0 {
            0
        } else if d == 1 {
            b as int
        } else if d == 2 {
            2 * b
        } else {
            w
        }) by (nonlinear_arith)
            requires
                w == d * b,
        ;
        assert(d >= 3 ==> w >= 3 * b) by (nonlinear_arith)
            requires
                w == d * b,
                b > 0,
        ;
    }
    q
}

/// The offset of a face along the ring, in half pixels per side.
pub fn pll(f: usize) -> (offset: i64)
    requires
        f < 12,
    ensures
        offset == pll_spec(f as int),
{
    if f < 4 {
        2 * f as i64 + 1
    } else if f < 8 {
        2 * (f as i64 - 4)
    } else {
        2 * (f as i64 - 8) + 1
    }
}

/// Moves the low 32 bits of a number apart: bit `k` becomes bit `2k`.
pub fn nest_encode_bits(i: i64) -> (b: i64)
    ensures
        b == spread(i),
        b >= 0,
{
    let mut b = i & 0x0000_0000_FFFF_FFFF;
    b = (b ^ (b << 16)) & 0x0000_FFFF_0000_FFFF;
    b = (b ^ (b << 8)) & 0x00FF_00FF_00FF_00FF;
    b = (b ^ (b << 4)) & 0x0F0F_0F0F_0F0F_0F0F;
    b = (b ^ (b << 2)) & 0x3333_3333_3333_3333;
    b = (b ^ (b << 1)) & 0x5555_5555_5555_5555;
    proof {
        lemma_spread_bits(i, 0);
    }
    b
}

/// The number in nested order of the pixel at `(i, j)` of face `f`, in a
/// grid of order `k`.
pub fn fij_to_nest(f: usize, i: i64, j: i64, k: u32) -> (nested: u64)
    requires
        f < 12,
        k <= MAX_ORDER,
        0 <= i < (1i64 << k),
        0 <= j < (1i64 << k),
    ensures
        nested == nested_index(f as int, i as int, j as int, (1i64 << k) as int),
        nested < 12 * (1i64 << k) * (1i64 << k),
{
    let side: i64 = 1i64 << k;
    proof {
        lemma_spread_bound(i, k);
        lemma_spread_bound(j, k);
        lemma_interleave_bound(i, j, k);
        assert(0 <= side * side <= 0x2000_0000 * 0x2000_0000) by (nonlinear_arith)
            requires
                1 <= side <= 0x2000_0000,
        ;
    }
    let square: i64 = side * side;
    let first = nest_encode_bits(i);
    let second = nest_encode_bits(j);
    assert(f * square <= 11 * square) by (nonlinear_arith)
        requires
            f <= 11,
            square >= 0,
    ;
    assert(f * side * side == f * square) by (nonlinear_arith)
        requires
            square == side * side,
    ;
    assert(12 * side * side == 12 * square) by (nonlinear_arith)
        requires
            square == side * side,
    ;
    let nested = (f as i64) * square + first + 2 * second;
    nested as u64
}

/// The number in nested order of a pixel given by its face, its ring and
/// its place in the ring.
fn to_nest(f: usize, ring: i64, nring: i64, phi: i64, shift: i64, k: u32, nside: i64) -> (nested:
    u64)
    requires
        f < 12,
        1 <= k <= MAX_ORDER,
        nside == 1i64 << k,
        0 <= ring <= 4 * nside,
        1 <= nring <= nside,
        1 <= phi <= 4 * nside,
        0 <= shift <= 1,
        0 <= diag_sum(f as int, ring as int, nside as int) + diag_diff(
            f as int,
            nring as int,
            phi as int,
            shift as int,
            nside as int,
        ),
        0 <= diag_sum(f as int, ring as int, nside as int) - diag_diff(
            f as int,
            nring as int,
            phi as int,
            shift as int,
            nside as int,
        ),
        0 <= face_x(f as int, ring as int, nring as int, phi as int, shift as int, nside as int)
            < nside,
        0 <= face_y(f as int, ring as int, nring as int, phi as int, shift as int, nside as int)
            < nside,
    ensures
        nested == nest_of(
            f as int,
            ring as int,
            nring as int,
            phi as int,
            shift as int,
            nside as int,
        ),
        nested < 12 * nside * nside,
{
    proof {
        lemma_side_even(k);
    }
    let quarter: i64 = (f / 4) as i64;
    assert((2 + quarter) * nside <= 4 * nside) by (nonlinear_arith)
        requires
            0 <= quarter <= 2,
            nside >= 0,
    ;
    assert((2 + quarter) * nside >= 0) by (nonlinear_arith)
        requires
            0 <= quarter <= 2,
            nside >= 0,
    ;
    let r: i64 = (2 + quarter) * nside - ring - 1;
    let offset = pll(f);
    assert(0 <= offset * nring <= 7 * nside) by (nonlinear_arith)
        requires
            0 <= offset <= 7,
            1 <= nring <= nside,
    ;
    let mut p: i64 = 2 * phi - offset * nring - shift - 1;
    if p >= 2 * nside {
        p -= 8 * nside;
    }
    let i = (r + p) / 2;
    let j = (r - p) / 2;
    fij_to_nest(f, i, j, k)
}

/// The number in nested order of the pixel with number `idx` in ring order.
pub fn ring_to_nested(idx: i64, nside: i64, npix: i64, ncap: i64, k: u32) -> (nested: u64)
    requires
        valid_grid(nside, npix, ncap, k),
        0 <= idx < npix,
    ensures
        nested == ring_to_nested_spec(idx as int, nside as int),
        nested < npix,
{
    proof {
        lemma_side_even(k);
        assert(0 <= nside * nside <= 0x2000_0000 * 0x2000_0000) by (nonlinear_arith)
            requires
                2 <= nside <= 0x2000_0000,
        ;
        assert(nside * (nside - 1) == nside * nside - nside) by (nonlinear_arith);
        assert(12 * nside * nside == 12 * (nside * nside)) by (nonlinear_arith);
        assert(2 * nside * (nside - 1) == 2 * (nside * (nside - 1))) by (nonlinear_arith);
    }
    if idx < ncap {
        let root = int_sqrt(2 * idx + 1);
        let nring = (1 + root) / 2;
        proof {
            lemma_cap_ring_of_root(idx as int, root as int);
            lemma_cap_ring_unique(idx as int, nring as int);
            lemma_cap_ring_small(idx as int, nring as int, nside as int);
            assert(2 * nring * (nring - 1) == 2 * (nring * (nring - 1))) by (nonlinear_arith);
            assert(2 * nring * (nring + 1) == 2 * (nring * (nring - 1)) + 4 * nring)
                by (nonlinear_arith);
            assert(0 <= nring * (nring - 1) <= nside * nside) by (nonlinear_arith)
                requires
                    1 <= nring < nside,
            ;
        }
        let phi = 1 + idx - 2 * (nring * (nring - 1));
        proof {
            lemma_cap_pixel(nring as int, phi as int, nside as int, false);
        }
        let f = div_03(phi - 1, nring);
        return to_nest(f as usize, nring, nring, phi, 0, k, nside);
    }
    if npix - ncap <= idx {
        let mirrored = npix - 1 - idx;
        let root = int_sqrt(2 * npix - 2 * idx - 1);
        let nring = (1 + root) / 2;
        proof {
            assert(2 * npix - 2 * idx - 1 == 2 * mirrored + 1);
            lemma_cap_ring_of_root(mirrored as int, root as int);
            lemma_cap_ring_unique(mirrored as int, nring as int);
            lemma_cap_ring_small(mirrored as int, nring as int, nside as int);
            assert(2 * nring * (nring - 1) == 2 * (nring * (nring - 1))) by (nonlinear_arith);
            assert(2 * nring * (nring + 1) == 2 * (nring * (nring - 1)) + 4 * nring)
                by (nonlinear_arith);
            assert(0 <= nring * (nring - 1) <= nside * nside) by (nonlinear_arith)
                requires
                    1 <= nring < nside,
            ;
        }
        let phi = 1 + idx + 2 * (nring * (nring - 1)) + 4 * nring - npix;
        let ring = 4 * nside - nring;
        proof {
            lemma_cap_pixel(nring as int, phi as int, nside as int, true);
        }
        let f = div_03(phi - 1, nring) + 8;
        return to_nest(f as usize, ring, nring, phi, 0, k, nside);
    }
    let ip = idx - ncap;
    let row = 4 * nside;
    let tmp = ip / row;
    let phi = ip % row + 1;
    let ring = tmp + nside;
    proof {
        lemma_fundamental_div_mod(ip as int, row as int);
        lemma_mod_bound(ip as int, row as int);
        let w = (ip as int / row as int) * row;
        assert(row * (ip as int / row as int) == w) by (nonlinear_arith)
            requires
                w == (ip as int / row as int) * row,
        ;
        assert(0 <= tmp <= 2 * nside) by (nonlinear_arith)
            requires
                w == tmp * row,
                ip == w + (ip as int % row as int),
                0 <= (ip as int % row as int) < row,
                row == 4 * nside,
                0 <= ip < 8 * (nside * nside) + 4 * nside,
                nside >= 2,
        ;
        lemma_belt_pixel(tmp as int, phi as int, nside as int);
    }
    let half_m = (1 + tmp) / 2;
    let half_p = (1 - tmp + 2 * nside) / 2;
    let ifm = 1 + ((phi - 1 - half_m + nside) / nside - 1);
    let ifp = 1 + ((phi - 1 - half_p + nside) / nside - 1);
    proof {
        lemma_shifted_quotient(phi - 1 - half_m, nside as int);
        lemma_shifted_quotient(phi - 1 - half_p, nside as int);
    }
    let f = if ifp == ifm {
        if ifp == 4 {
            4
        } else {
            ifp + 4
        }
    } else if ifp < ifm {
        ifp
    } else {
        ifm + 8
    };
    to_nest(f as usize, ring, nside, phi, ring % 2, k, nside)
}

/// Dividing after adding the divisor gives one more.
pub proof fn lemma_shifted_quotient(x: int, d: int)
    requires
        d > 0,
    ensures
        (x + d) / d - 1 == x / d,
{
    lemma_fundamental_div_mod(x, d);
    lemma_mod_bound(x, d);
    let q = x / d;
    let m = x % d;
    assert(x + d == (q + 1) * d + m) by (nonlinear_arith)
        requires
            x == d * q + m,
    ;
    lemma_fundamental_div_mod_converse(x + d, d, q + 1, m);
}

/// The numbers in nested order of the pixels with the given numbers in ring
/// order.
pub fn ring_to_nested_batched(idxs: Vec<i64>, nside: i64, npix: i64, ncap: i64, k: u32) -> (results:
    Vec<u64>)
    requires
        valid_grid(nside, npix, ncap, k),
        forall|n: int| 0 <= n < idxs@.len() ==> 0 <= #[trigger] idxs@[n] < npix,
    ensures
        results@.len() == idxs@.len(),
        forall|n: int|
            0 <= n < idxs@.len() ==> #[trigger] results@[n] == ring_to_nested_spec(
                idxs@[n] as int,
                nside as int,
            ) && results@[n] < npix,
{
    let mut results: Vec<u64> = Vec::with_capacity(idxs.len());
    let mut n: usize = 0;
    while n < idxs.len()
        invariant
            n <= idxs@.len(),
            valid_grid(nside, npix, ncap, k),
            forall|m: int| 0 <= m < idxs@.len() ==> 0 <= #[trigger] idxs@[m] < npix,
            results@.len() == n,
            forall|m: int|
                0 <= m < n ==> #[trigger] results@[m] == ring_to_nested_spec(
                    idxs@[m] as int,
                    nside as int,
                ) && results@[m] < npix,
        decreases idxs.len() - n,
    {
        results.push(ring_to_nested(idxs[n], nside, npix, ncap, k));
        n += 1;
    }
    results
}

} // verus!
