//! Escape-time sampling of a square region of the plane.
//!
//! The sampler is generic over the type of a point of the plane. It is handed
//! the map from a pixel to its point, one step of the recurrence
//! (`z` to `z * z + c`) and the escape test (`|z| > 2`), and owns the rest: the
//! row-major walk over the pixels, the choice of the constant between the
//! Mandelbrot and the Julia recurrence, and the count of steps up to the cap.
use vstd::prelude::*;
use vstd::arithmetic::div_mod::lemma_fundamental_div_mod_converse;
use crate::MAX_ITERATIONS;

verus! {

/// `n` is the escape time of `z0` under `step` with constant `c`: the first
/// index below the cap at which the orbit of `z0` is seen to have escaped, or
/// the cap itself where it never is before.
pub open spec fn is_escape_time<S, St: Fn(S, S) -> S, Es: Fn(S) -> bool>(
    z0: S,
    c: S,
    step: St,
    escaped: Es,
    n: nat,
) -> bool {
    &&& n <= MAX_ITERATIONS
    &&& exists|orbit: Seq<S>|
        {
            &&& #[trigger] orbit.len() == n + 1
            &&& orbit[0] == z0
            &&& forall|j: int|
                0 <= j < n ==> step.ensures((#[trigger] orbit[j], c), orbit[j + 1]) && escaped.ensures(
                    (orbit[j],),
                    false,
                )
            &&& n < MAX_ITERATIONS ==> escaped.ensures((orbit[n as int],), true)
        }
}

/// The constant of the recurrence for the pixel at `z0`: the fixed parameter
/// where one is given (Julia), else `z0` itself (Mandelbrot).
pub open spec fn constant_for<S>(param: Option<S>, z0: S) -> S {
    match param {
        Some(c) => c,
        None => z0,
    }
}

/// `v` is the escape time of the pixel `(px, py)`.
pub open spec fn is_pixel_sample<S, Pt: Fn(u32, u32) -> S, St: Fn(S, S) -> S, Es: Fn(S) -> bool>(
    v: u32,
    px: u32,
    py: u32,
    point: Pt,
    param: Option<S>,
    step: St,
    escaped: Es,
) -> bool {
    exists|z0: S|
        #[trigger] point.ensures((px, py), z0) && is_escape_time(
            z0,
            constant_for(param, z0),
            step,
            escaped,
            v as nat,
        )
}

/// `grid` is the row-major escape-time grid of a `width` by `height` canvas:
/// the value at `py * width + px` is the escape time of the pixel `(px, py)`.
pub open spec fn is_sampled<S, Pt: Fn(u32, u32) -> S, St: Fn(S, S) -> S, Es: Fn(S) -> bool>(
    grid: Seq<u32>,
    width: u32,
    height: u32,
    point: Pt,
    param: Option<S>,
    step: St,
    escaped: Es,
) -> bool {
    &&& grid.len() == width * height
    &&& forall|i: int|
        0 <= i < grid.len() ==> #[trigger] grid[i] <= MAX_ITERATIONS && is_pixel_sample(
            grid[i],
            (i % width as int) as u32,
            (i / width as int) as u32,
            point,
            param,
            step,
            escaped,
        )
}

/// The escape time of `z0` under `step` with constant `c`, at most the cap.
pub fn escape_time<S: Copy, St: Fn(S, S) -> S, Es: Fn(S) -> bool>(
    z0: S,
    c: S,
    step: &St,
    escaped: &Es,
) -> (n: u32)
    requires
        forall|z: S| step.requires((z, c)),
        forall|z: S| escaped.requires((z,)),
    ensures
        is_escape_time(z0, c, *step, *escaped, n as nat),
{
    let mut z = z0;
    let mut i: u32 = 0;
    let ghost mut orbit: Seq<S> = seq![z0];
    while i < MAX_ITERATIONS
        invariant
            forall|z: S| step.requires((z, c)),
            forall|z: S| escaped.requires((z,)),
            i <= MAX_ITERATIONS,
            orbit.len() == i + 1,
            orbit[0] == z0,
            orbit[i as int] == z,
            forall|j: int|
                0 <= j < i ==> step.ensures((#[trigger] orbit[j], c), orbit[j + 1]) && escaped.ensures(
                    (orbit[j],),
                    false,
                ),
        decreases MAX_ITERATIONS - i,
    {
        let out = escaped(z);
        if out {
            proof {
                assert(orbit.len() == i + 1);
            }
            return i;
        }
        let next = step(z, c);
        proof {
            let prev = orbit;
            orbit = orbit.push(next);
            assert forall|j: int| 0 <= j < i + 1 implies step.ensures((orbit[j], c), orbit[j + 1])
                && escaped.ensures((orbit[j],), false) by {
                if j < i {
                    assert(orbit[j] == prev[j] && orbit[j + 1] == prev[j + 1]);
                } else {
                    assert(orbit[j] == z && orbit[j + 1] == next);
                }
            }
        }
        z = next;
        i = i + 1;
    }
    proof {
        assert(orbit.len() == i + 1);
    }
    i
}

/// The escape-time grid of a `width` by `height` canvas, row-major: the value
/// at `py * width + px` is the escape time of the pixel `(px, py)`, whose point
/// is `point(px, py)`, with the constant `param` where one is given and the
/// pixel's own point elsewhere.
pub fn sample<S: Copy, Pt: Fn(u32, u32) -> S, St: Fn(S, S) -> S, Es: Fn(S) -> bool>(
    width: u32,
    height: u32,
    point: &Pt,
    param: Option<S>,
    step: &St,
    escaped: &Es,
) -> (grid: Vec<u32>)
    requires
        width * height <= usize::MAX,
        forall|px: u32, py: u32| point.requires((px, py)),
        forall|z: S, c: S| step.requires((z, c)),
        forall|z: S| escaped.requires((z,)),
    ensures
        is_sampled(grid@, width, height, *point, param, *step, *escaped),
{
    let mut grid: Vec<u32> = Vec::new();
    let mut py: u32 = 0;
    while py < height
        invariant
            width * height <= usize::MAX,
            forall|px: u32, py: u32| point.requires((px, py)),
            forall|z: S, c: S| step.requires((z, c)),
            forall|z: S| escaped.requires((z,)),
            py <= height,
            grid@.len() == py * width,
            forall|i: int|
                0 <= i < grid@.len() ==> #[trigger] grid@[i] <= MAX_ITERATIONS && is_pixel_sample(
                    grid@[i],
                    (i % width as int) as u32,
                    (i / width as int) as u32,
                    *point,
                    param,
                    *step,
                    *escaped,
                ),
        decreases height - py,
    {
        let mut px: u32 = 0;
        while px < width
            invariant
                width * height <= usize::MAX,
                forall|px: u32, py: u32| point.requires((px, py)),
                forall|z: S, c: S| step.requires((z, c)),
                forall|z: S| escaped.requires((z,)),
                py < height,
                px <= width,
                grid@.len() == py * width + px,
                forall|i: int|
                    0 <= i < grid@.len() ==> #[trigger] grid@[i] <= MAX_ITERATIONS
                        && is_pixel_sample(
                        grid@[i],
                        (i % width as int) as u32,
                        (i / width as int) as u32,
                        *point,
                        param,
                        *step,
                        *escaped,
                    ),
            decreases width - px,
        {
            let z0 = point(px, py);
            let c = match param {
                Some(c) => c,
                None => z0,
            };
            let v = escape_time(z0, c, step, escaped);
            let ghost at = grid@.len() as int;
            grid.push(v);
            proof {
                lemma_fundamental_div_mod_converse(at, width as int, py as int, px as int);
                assert(is_pixel_sample(v, px, py, *point, param, *step, *escaped));
            }
            px = px + 1;
        }
        proof {
            assert(grid@.len() == (py + 1) * width) by (nonlinear_arith)
                requires
                    grid@.len() == py * width + width,
            ;
        }
        py = py + 1;
    }
    proof {
        assert(grid@.len() == width * height) by (nonlinear_arith)
            requires
                grid@.len() == py * width,
                py == height,
        ;
    }
    grid
}

} // verus!
