//! How a path is followed and how a pixel is resolved.
//!
//! Colours and rays belong to the caller; this module knows them only as
//! values to hand on. What it decides is when a path ends and what it is worth
//! then, and in which order the samples of a pixel are added up.

use vstd::prelude::*;

verus! {

/// What following a ray to the nearest surface finds.
#[derive(Debug, PartialEq, Eq)]
pub enum Bounce<R, C> {
    /// The ray leaves the scene.
    Missed,
    /// The ray ends on a surface that sends nothing on.
    Absorbed { emitted: C },
    /// The surface sends the path on along `ray`, weakened by `attenuation`.
    Scattered { emitted: C, attenuation: C, ray: R },
}

/// What a path along `ray` with `depth` bounces left may be worth.
///
/// With no bounce left it is worth `black`. A ray that leaves the scene is
/// worth `background`, one that is absorbed what the surface emits, and one
/// that is scattered what `blend` makes of the emitted colour, the attenuation
/// and the worth of the path along the scattered ray with one bounce less.
pub open spec fn may_colour<
    R,
    C,
    T: Fn(&R) -> Bounce<R, C>,
    M: Fn(C, C, C) -> C,
>(ray: R, depth: u16, black: C, background: C, trace: T, blend: M, color: C) -> bool
    decreases depth,
{
    if depth == 0 {
        color == black
    } else {
        exists|bounce: Bounce<R, C>| #[trigger]
            trace.ensures((&ray,), bounce) && match bounce {
                Bounce::Missed => color == background,
                Bounce::Absorbed { emitted } => color == emitted,
                Bounce::Scattered { emitted, attenuation, ray: next } => exists|incoming: C|
                    {
                        &&& may_colour(
                            next,
                            (depth - 1) as u16,
                            black,
                            background,
                            trace,
                            blend,
                            incoming,
                        )
                        &&& #[trigger] blend.ensures((emitted, attenuation, incoming), color)
                    },
            }
    }
}

/// Follows a path for at most `depth` bounces and says what it is worth.
///
/// `trace` follows a ray to the nearest surface; `blend` takes what a surface
/// emits, its attenuation and what arrives along the scattered ray, and gives
/// what leaves towards the eye. The cut at `depth` is hard: a path that would
/// go on is worth `black` from there.
pub fn ray_color<R, C: Copy, T: Fn(&R) -> Bounce<R, C>, M: Fn(C, C, C) -> C>(
    ray: &R,
    depth: u16,
    black: C,
    background: C,
    trace: &T,
    blend: &M,
) -> (color: C)
    requires
        forall|r: &R| #[trigger] trace.requires((r,)),
        forall|emitted: C, attenuation: C, incoming: C| #[trigger]
            blend.requires((emitted, attenuation, incoming)),
    ensures
        may_colour(*ray, depth, black, background, *trace, *blend, color),
    decreases depth,
{
    if depth == 0 {
        return black;
    }
    let bounce = trace(ray);
    match bounce {
        Bounce::Missed => background,
        Bounce::Absorbed { emitted } => emitted,
        Bounce::Scattered { emitted, attenuation, ray: next } => {
            let incoming = ray_color(&next, depth - 1, black, background, trace, blend);
            let color = blend(emitted, attenuation, incoming);
            assert(trace.ensures((ray,), bounce));
            color
        },
    }
}

/// What keeps a path within a set of colours: `black` and `background` are in
/// it, so is whatever a surface emits or attenuates by, and `blend` leads
/// from colours in the set to a colour in the set.
pub open spec fn stays_within<R, C, T: Fn(&R) -> Bounce<R, C>, M: Fn(C, C, C) -> C>(
    good: spec_fn(C) -> bool,
    black: C,
    background: C,
    trace: T,
    blend: M,
) -> bool {
    &&& good(black)
    &&& good(background)
    &&& forall|r: &R, bounce: Bounce<R, C>| #[trigger]
        trace.ensures((r,), bounce) ==> match bounce {
            Bounce::Missed => true,
            Bounce::Absorbed { emitted } => good(emitted),
            Bounce::Scattered { emitted, attenuation, ray } => good(emitted) && good(attenuation),
        }
    &&& forall|emitted: C, attenuation: C, incoming: C, color: C|
        good(emitted) && good(attenuation) && good(incoming) && #[trigger] blend.ensures(
            (emitted, attenuation, incoming),
            color,
        ) ==> good(color)
}

/// No path leaves a set of colours that its parts stay within: whatever a
/// path is worth, at whatever depth, lies in the set. With the colours that
/// have no negative part for the set, this says that no path carries negative
/// energy.
pub proof fn lemma_path_stays_within<R, C, T: Fn(&R) -> Bounce<R, C>, M: Fn(C, C, C) -> C>(
    good: spec_fn(C) -> bool,
    ray: R,
    depth: u16,
    black: C,
    background: C,
    trace: T,
    blend: M,
    color: C,
)
    requires
        stays_within(good, black, background, trace, blend),
        may_colour(ray, depth, black, background, trace, blend, color),
    ensures
        good(color),
    decreases depth,
{
    if depth > 0 {
        let bounce = choose|bounce: Bounce<R, C>| #[trigger]
            trace.ensures((&ray,), bounce) && match bounce {
                Bounce::Missed => color == background,
                Bounce::Absorbed { emitted } => color == emitted,
                Bounce::Scattered { emitted, attenuation, ray: next } => exists|incoming: C|
                    {
                        &&& may_colour(
                            next,
                            (depth - 1) as u16,
                            black,
                            background,
                            trace,
                            blend,
                            incoming,
                        )
                        &&& #[trigger] blend.ensures((emitted, attenuation, incoming), color)
                    },
            };
        match bounce {
            Bounce::Missed => {},
            Bounce::Absorbed { emitted } => {},
            Bounce::Scattered { emitted, attenuation, ray: next } => {
                let incoming = choose|incoming: C|
                    {
                        &&& may_colour(
                            next,
                            (depth - 1) as u16,
                            black,
                            background,
                            trace,
                            blend,
                            incoming,
                        )
                        &&& #[trigger] blend.ensures((emitted, attenuation, incoming), color)
                    };
                lemma_path_stays_within(
                    good,
                    next,
                    (depth - 1) as u16,
                    black,
                    background,
                    trace,
                    blend,
                    incoming,
                );
            },
        }
    }
}

/// What the sum of `count` samples may be: `zero` for none, and else what
/// `accumulate` makes of the sum of the samples before and one more draw.
pub open spec fn may_sum<C, D: Fn() -> C, A: Fn(C, C) -> C>(
    count: u16,
    zero: C,
    draw: D,
    accumulate: A,
    sum: C,
) -> bool
    decreases count,
{
    if count == 0 {
        sum == zero
    } else {
        exists|before: C, sample: C|
            {
                &&& may_sum((count - 1) as u16, zero, draw, accumulate, before)
                &&& draw.ensures((), sample)
                &&& #[trigger] accumulate.ensures((before, sample), sum)
            }
    }
}

/// What a pixel of `samples` samples may resolve to: what `scale` makes of a
/// sum that the samples may have.
pub open spec fn may_resolve<C, D: Fn() -> C, A: Fn(C, C) -> C, W: Fn(C) -> C>(
    samples: u16,
    zero: C,
    draw: D,
    accumulate: A,
    scale: W,
    color: C,
) -> bool {
    exists|sum: C|
        may_sum(samples, zero, draw, accumulate, sum) && #[trigger] scale.ensures((sum,), color)
}

/// Resolves a pixel: draws `samples` samples one after the other, adds each to
/// the sum of those before it, starting from `zero`, and scales the sum.
pub fn resolve<C: Copy, D: Fn() -> C, A: Fn(C, C) -> C, W: Fn(C) -> C>(
    samples: u16,
    zero: C,
    draw: &D,
    accumulate: &A,
    scale: &W,
) -> (color: C)
    requires
        draw.requires(()),
        forall|sum: C, sample: C| #[trigger] accumulate.requires((sum, sample)),
        forall|sum: C| #[trigger] scale.requires((sum,)),
    ensures
        may_resolve(samples, zero, *draw, *accumulate, *scale, color),
{
    let mut sum: C = zero;
    let mut n: u16 = 0;
    while n < samples
        invariant
            n <= samples,
            draw.requires(()),
            forall|sum: C, sample: C| #[trigger] accumulate.requires((sum, sample)),
            may_sum(n, zero, *draw, *accumulate, sum),
        decreases samples - n,
    {
        let sample = draw();
        let ghost before = sum;
        sum = accumulate(sum, sample);
        n = n + 1;
        assert(may_sum((n - 1) as u16, zero, *draw, *accumulate, before));
        assert(accumulate.ensures((before, sample), sum));
    }
    scale(sum)
}

/// No pixel leaves a set of colours that its samples stay within: if `zero`
/// and every sample lie in the set and adding and scaling lead from the set
/// into it, so does whatever the pixel resolves to.
pub proof fn lemma_pixel_stays_within<C, D: Fn() -> C, A: Fn(C, C) -> C, W: Fn(C) -> C>(
    good: spec_fn(C) -> bool,
    samples: u16,
    zero: C,
    draw: D,
    accumulate: A,
    scale: W,
    color: C,
)
    requires
        good(zero),
        forall|sample: C| #[trigger] draw.ensures((), sample) ==> good(sample),
        forall|sum: C, sample: C, next: C|
            good(sum) && good(sample) && #[trigger] accumulate.ensures((sum, sample), next)
                ==> good(next),
        forall|sum: C, scaled: C| good(sum) && #[trigger] scale.ensures((sum,), scaled) ==> good(scaled),
        may_resolve(samples, zero, draw, accumulate, scale, color),
    ensures
        good(color),
{
    let sum = choose|sum: C|
        may_sum(samples, zero, draw, accumulate, sum) && #[trigger] scale.ensures((sum,), color);
    lemma_sum_stays_within(good, samples, zero, draw, accumulate, sum);
}

proof fn lemma_sum_stays_within<C, D: Fn() -> C, A: Fn(C, C) -> C>(
    good: spec_fn(C) -> bool,
    count: u16,
    zero: C,
    draw: D,
    accumulate: A,
    sum: C,
)
    requires
        good(zero),
        forall|sample: C| #[trigger] draw.ensures((), sample) ==> good(sample),
        forall|sum: C, sample: C, next: C|
            good(sum) && good(sample) && #[trigger] accumulate.ensures((sum, sample), next)
                ==> good(next),
        may_sum(count, zero, draw, accumulate, sum),
    ensures
        good(sum),
    decreases count,
{
    if count > 0 {
        let (before, sample) = choose|before: C, sample: C|
            {
                &&& may_sum((count - 1) as u16, zero, draw, accumulate, before)
                &&& draw.ensures((), sample)
                &&& #[trigger] accumulate.ensures((before, sample), sum)
            };
        lemma_sum_stays_within(good, (count - 1) as u16, zero, draw, accumulate, before);
    }
}

} // verus!
