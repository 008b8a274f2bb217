//! The escape-time rule and the colour that an escape count is given.
//!
//! The arithmetic of the plane is the caller's: `within` says whether a
//! point is still inside the escape radius, `step` applies the recurrence
//! once, and `gradient` gives the three channel intensities of a point that
//! escaped. What is fixed here is how often they are asked and what is made
//! of their answers.

use vstd::prelude::*;
use vstd::arithmetic::power2::{pow2, lemma2_to64_rest};
use crate::binary64::{Binary64, EXPONENT_ONE};
use crate::color::Color;

verus! {

/// The intensities of the three channels of an escaped point, each still a
/// number on the scale from 0 to 255.
#[derive(Clone, Copy, Debug, PartialEq, Eq, Structural)]
pub struct Shade {
    pub red: Binary64,
    pub green: Binary64,
    pub blue: Binary64,
}

impl Shade {
    /// The colour whose channels are cut from the three intensities.
    pub open spec fn color(self) -> Color {
        Color { r: self.red.channel(), g: self.green.channel(), b: self.blue.channel() }
    }

    /// The colour whose channels are cut from the three intensities.
    pub fn to_color(self) -> (c: Color)
        ensures
            c == self.color(),
    {
        Color { r: self.red.to_channel(), g: self.green.to_channel(), b: self.blue.to_channel() }
    }
}

/// Each of the first `n` points of `orbit` was found within the radius and
/// stepped to the point after it.
pub open spec fn follows<Z, W: Fn(&Z) -> bool, S: Fn(Z) -> Z>(
    orbit: Seq<Z>,
    within: W,
    step: S,
    n: int,
) -> bool {
    forall|i: int|
        0 <= i < n ==> within.ensures((&#[trigger] orbit[i],), true) && step.ensures(
            (orbit[i],),
            orbit[i + 1],
        )
}

/// `orbit` records an evaluation that started at `z0` and stopped after `n`
/// steps: its first point is `z0`, each point before the last was found
/// within the radius and stepped to the next, and the evaluation stopped
/// either because the budget `max_iterations` was spent or because the last
/// point was found outside.
pub open spec fn is_orbit<Z, W: Fn(&Z) -> bool, S: Fn(Z) -> Z>(
    orbit: Seq<Z>,
    z0: Z,
    max_iterations: u32,
    within: W,
    step: S,
    n: u32,
) -> bool {
    &&& n <= max_iterations
    &&& orbit.len() == n + 1
    &&& orbit[0] == z0
    &&& follows(orbit, within, step, n as int)
    &&& (n == max_iterations || within.ensures((&orbit[n as int],), false))
}

/// `n` is a count that the evaluation started at `z0` can stop with.
pub open spec fn escapes_after<Z, W: Fn(&Z) -> bool, S: Fn(Z) -> Z>(
    z0: Z,
    max_iterations: u32,
    within: W,
    step: S,
    n: u32,
) -> bool {
    exists|orbit: Seq<Z>| is_orbit(orbit, z0, max_iterations, within, step, n)
}

/// The colour of a point whose evaluation stopped after `n` of at most `m`
/// steps, where `shade` is what the gradient gives for `n` and `m`: black if
/// the budget was spent, else the colour cut from the shade.
pub open spec fn painted_with(n: u32, m: u32, shade: Shade) -> Color {
    if n == m {
        Color::spec_black()
    } else {
        shade.color()
    }
}

/// `color` is a colour that the policy can give to a count of `n` out of `m`.
pub open spec fn paints<G: Fn(u32, u32) -> Shade>(n: u32, m: u32, gradient: G, color: Color) -> bool {
    if n == m {
        color == Color::spec_black()
    } else {
        exists|shade: Shade| gradient.ensures((n, m), shade) && color == shade.color()
    }
}

/// `color` is a colour that the point `z0` can be given.
pub open spec fn generates<Z, W: Fn(&Z) -> bool, S: Fn(Z) -> Z, G: Fn(u32, u32) -> Shade>(
    z0: Z,
    max_iterations: u32,
    within: W,
    step: S,
    gradient: G,
    color: Color,
) -> bool {
    exists|n: u32|
        escapes_after(z0, max_iterations, within, step, n) && paints(
            n,
            max_iterations,
            gradient,
            color,
        )
}

/// Counts the steps of the recurrence from `z0` until a point lies outside
/// the radius, or until `max_iterations` steps were taken.
pub fn escape_time<Z, W: Fn(&Z) -> bool, S: Fn(Z) -> Z>(
    z0: Z,
    max_iterations: u32,
    within: &W,
    step: &S,
) -> (n: u32)
    requires
        forall|z: Z| (*within).requires((&z,)),
        forall|z: Z| (*step).requires((z,)),
    ensures
        n <= max_iterations,
        escapes_after(z0, max_iterations, *within, *step, n),
{
    let mut z = z0;
    let mut current: u32 = 0;
    let ghost mut orbit: Seq<Z> = seq![z0];
    loop
        invariant
            forall|z: Z| (*within).requires((&z,)),
            forall|z: Z| (*step).requires((z,)),
            current <= max_iterations,
            orbit.len() == current + 1,
            orbit[0] == z0,
            orbit[current as int] == z,
            follows(orbit, *within, *step, current as int),
        ensures
            is_orbit(orbit, z0, max_iterations, *within, *step, current),
        decreases max_iterations - current,
    {
        if current >= max_iterations {
            break ;
        }
        let inside = within(&z);
        if !inside {
            break ;
        }
        let ghost before = z;
        let ghost earlier = orbit;
        z = step(z);
        proof {
            orbit = earlier.push(z);
            assert forall|i: int| 0 <= i < current + 1 implies (*within).ensures(
                (&#[trigger] orbit[i],),
                true,
            ) && (*step).ensures((orbit[i],), orbit[i + 1]) by {
                if i < current {
                    assert(orbit[i] == earlier[i]);
                    assert(orbit[i + 1] == earlier[i + 1]);
                } else {
                    assert(orbit[i] == before);
                }
            }
        }
        current = current + 1;
    }
    current
}

/// The colour for a count of `n` out of `m`, given the shade of the
/// gradient for them.
pub fn paint(n: u32, m: u32, shade: Shade) -> (color: Color)
    ensures
        color == painted_with(n, m, shade),
{
    if n == m {
        Color::black()
    } else {
        shade.to_color()
    }
}

/// The colour policy: black for a point that spent its budget, else the
/// colour cut from what the gradient gives.
pub fn color_policy<G: Fn(u32, u32) -> Shade>(n: u32, m: u32, gradient: &G) -> (color: Color)
    requires
        n != m ==> (*gradient).requires((n, m)),
    ensures
        paints(n, m, *gradient, color),
{
    if n == m {
        Color::black()
    } else {
        let shade = gradient(n, m);
        assert((*gradient).ensures((n, m), shade));
        paint(n, m, shade)
    }
}

/// The colour of the point `z0`: its escape time under the recurrence,
/// turned into a colour by the policy.
pub fn color_generator<Z, W: Fn(&Z) -> bool, S: Fn(Z) -> Z, G: Fn(u32, u32) -> Shade>(
    z0: Z,
    iterations: u32,
    within: &W,
    step: &S,
    gradient: &G,
) -> (color: Color)
    requires
        forall|z: Z| (*within).requires((&z,)),
        forall|z: Z| (*step).requires((z,)),
        forall|n: u32| n < iterations ==> (*gradient).requires((n, iterations)),
    ensures
        generates(z0, iterations, *within, *step, *gradient, color),
{
    let n = escape_time(z0, iterations, within, step);
    let color = color_policy(n, iterations, gradient);
    assert(escapes_after(z0, iterations, *within, *step, n) && paints(
        n,
        iterations,
        *gradient,
        color,
    ));
    color
}

/// `within` gives one answer for each point.
pub open spec fn decides_once<Z, W: Fn(&Z) -> bool>(within: W) -> bool {
    forall|z: Z, a: bool, b: bool|
        within.ensures((&z,), a) && within.ensures((&z,), b) ==> a == b
}

/// `step` takes each point to one point.
pub open spec fn steps_once<Z, S: Fn(Z) -> Z>(step: S) -> bool {
    forall|z: Z, a: Z, b: Z| step.ensures((z,), a) && step.ensures((z,), b) ==> a == b
}

/// `gradient` gives one shade for each count and budget.
pub open spec fn shades_once<G: Fn(u32, u32) -> Shade>(gradient: G) -> bool {
    forall|n: u32, m: u32, a: Shade, b: Shade|
        gradient.ensures((n, m), a) && gradient.ensures((n, m), b) ==> a == b
}

/// Two evaluations of one point pass through the same points for as long as
/// both go on, where `step` takes each point to one point.
pub proof fn lemma_orbits_agree<Z, W: Fn(&Z) -> bool, S: Fn(Z) -> Z>(
    first: Seq<Z>,
    second: Seq<Z>,
    z0: Z,
    max_iterations: u32,
    within: W,
    step: S,
    n1: u32,
    n2: u32,
    i: int,
)
    requires
        is_orbit(first, z0, max_iterations, within, step, n1),
        is_orbit(second, z0, max_iterations, within, step, n2),
        steps_once(step),
        0 <= i <= n1,
        i <= n2,
    ensures
        first[i] == second[i],
    decreases i,
{
    if i > 0 {
        lemma_orbits_agree(first, second, z0, max_iterations, within, step, n1, n2, i - 1);
        let k = i - 1;
        assert(follows(first, within, step, n1 as int));
        assert(follows(second, within, step, n2 as int));
        assert(within.ensures((&first[k],), true) && step.ensures((first[k],), first[k + 1]));
        assert(within.ensures((&second[k],), true) && step.ensures((second[k],), second[k + 1]));
    }
}

/// The escape count is a function of the point and the budget, where
/// `within` and `step` are functions: an evaluation can stop with one count
/// only.
pub proof fn lemma_escape_count_unique<Z, W: Fn(&Z) -> bool, S: Fn(Z) -> Z>(
    z0: Z,
    max_iterations: u32,
    within: W,
    step: S,
    n1: u32,
    n2: u32,
)
    requires
        escapes_after(z0, max_iterations, within, step, n1),
        escapes_after(z0, max_iterations, within, step, n2),
        decides_once(within),
        steps_once(step),
    ensures
        n1 == n2,
{
    let first = choose|orbit: Seq<Z>| is_orbit(orbit, z0, max_iterations, within, step, n1);
    let second = choose|orbit: Seq<Z>| is_orbit(orbit, z0, max_iterations, within, step, n2);
    if n1 < n2 {
        lemma_orbits_agree(first, second, z0, max_iterations, within, step, n1, n2, n1 as int);
        assert(within.ensures((&second[n1 as int],), true));
        assert(within.ensures((&first[n1 as int],), false));
    } else if n2 < n1 {
        lemma_orbits_agree(first, second, z0, max_iterations, within, step, n1, n2, n2 as int);
        assert(within.ensures((&first[n2 as int],), true));
        assert(within.ensures((&second[n2 as int],), false));
    }
}

/// The colour of a point is a function of the point and the budget, where
/// `within`, `step` and `gradient` are functions: a point can be given one
/// colour only.
pub proof fn lemma_generates_unique<
    Z,
    W: Fn(&Z) -> bool,
    S: Fn(Z) -> Z,
    G: Fn(u32, u32) -> Shade,
>(z0: Z, max_iterations: u32, within: W, step: S, gradient: G, c1: Color, c2: Color)
    requires
        generates(z0, max_iterations, within, step, gradient, c1),
        generates(z0, max_iterations, within, step, gradient, c2),
        decides_once(within),
        steps_once(step),
        shades_once(gradient),
    ensures
        c1 == c2,
{
    let n1 = choose|n: u32|
        escapes_after(z0, max_iterations, within, step, n) && paints(
            n,
            max_iterations,
            gradient,
            c1,
        );
    let n2 = choose|n: u32|
        escapes_after(z0, max_iterations, within, step, n) && paints(
            n,
            max_iterations,
            gradient,
            c2,
        );
    lemma_escape_count_unique(z0, max_iterations, within, step, n1, n2);
    if n1 != max_iterations {
        let s1 = choose|shade: Shade|
            gradient.ensures((n1, max_iterations), shade) && c1 == shade.color();
        let s2 = choose|shade: Shade|
            gradient.ensures((n1, max_iterations), shade) && c2 == shade.color();
        assert(s1 == s2);
    }
}

/// With a budget of one, a point within the radius is black, and a point
/// outside it has the colour cut from the gradient's shade for a count of
/// zero; nothing else is possible.
pub proof fn lemma_budget_of_one<Z, W: Fn(&Z) -> bool, S: Fn(Z) -> Z, G: Fn(u32, u32) -> Shade>(
    z0: Z,
    within: W,
    step: S,
    gradient: G,
    color: Color,
)
    requires
        generates(z0, 1, within, step, gradient, color),
    ensures
        (within.ensures((&z0,), true) && color == Color::spec_black()) || (within.ensures(
            (&z0,),
            false,
        ) && exists|shade: Shade| gradient.ensures((0u32, 1u32), shade) && color == shade.color()),
{
    let n = choose|n: u32|
        escapes_after(z0, 1, within, step, n) && paints(n, 1, gradient, color);
    let orbit = choose|orbit: Seq<Z>| is_orbit(orbit, z0, 1, within, step, n);
    if n == 1 {
        assert(within.ensures((&orbit[0],), true));
    } else {
        assert(n == 0);
        assert(within.ensures((&orbit[0],), false));
    }
}

/// The shade of the intensities 0.0, 0.0 and 255.0, in red, green and blue.
pub open spec fn shade_of_zero() -> Shade {
    Shade {
        red: Binary64 { bits: 0 },
        green: Binary64 { bits: 0 },
        blue: Binary64 { bits: 0x406f_e000_0000_0000 },
    }
}

/// The shade of the intensities 0.0, 0.0 and 255.0 is cut to the colour
/// (0, 0, 255).
pub proof fn lemma_shade_of_zero()
    ensures
        shade_of_zero().color() == (Color { r: 0, g: 0, b: 255 }),
{
    let zero = Binary64 { bits: 0 };
    let full = Binary64 { bits: 0x406f_e000_0000_0000 };
    zero.lemma_channel_zero();
    assert(zero.exponent() == 0);
    assert(full.exponent() == 1030);
    assert(full.fraction() == 0xf_e000_0000_0000);
    assert(full.scale() == -45);
    lemma2_to64_rest();
    assert(pow2(45) == 0x2000_0000_0000);
    assert(full.significand() == 255 * 0x2000_0000_0000);
    assert(full.magnitude_floor() == 255) by (nonlinear_arith)
        requires
            full.magnitude_floor() == (255 * 0x2000_0000_0000) / 0x2000_0000_0000,
    ;
}

/// With a budget of one, where the gradient gives the intensities 0.0, 0.0
/// and 255.0 for a count of zero, a point within the radius is black and a
/// point outside it is (0, 0, 255); nothing else is possible.
pub proof fn lemma_budget_of_one_colors<
    Z,
    W: Fn(&Z) -> bool,
    S: Fn(Z) -> Z,
    G: Fn(u32, u32) -> Shade,
>(z0: Z, within: W, step: S, gradient: G, color: Color)
    requires
        generates(z0, 1, within, step, gradient, color),
        forall|shade: Shade| #[trigger]
            gradient.ensures((0u32, 1u32), shade) ==> shade == shade_of_zero(),
    ensures
        (within.ensures((&z0,), true) && color == Color::spec_black()) || (within.ensures(
            (&z0,),
            false,
        ) && color == (Color { r: 0, g: 0, b: 255 })),
{
    lemma_budget_of_one(z0, within, step, gradient, color);
    lemma_shade_of_zero();
}

/// A point that escaped is not black, where every shade that the gradient
/// can give for its count has an intensity of one or more.
pub proof fn lemma_escaped_is_not_black<G: Fn(u32, u32) -> Shade>(
    n: u32,
    m: u32,
    gradient: G,
    color: Color,
)
    requires
        n != m,
        paints(n, m, gradient, color),
        forall|shade: Shade| #[trigger]
            gradient.ensures((n, m), shade) ==> !(below_one(shade.red) && below_one(shade.green)
                && below_one(shade.blue)),
    ensures
        color != Color::spec_black(),
{
    let shade = choose|shade: Shade| gradient.ensures((n, m), shade) && color == shade.color();
    lemma_black_shade(shade);
}

/// A point is black exactly where it spent its whole budget, as long as the
/// shade that the gradient gives to a point that escaped is not itself cut
/// to black.
pub proof fn lemma_black_iff_interior(n: u32, m: u32, shade: Shade)
    requires
        shade.color() != Color::spec_black(),
    ensures
        painted_with(n, m, shade) == Color::spec_black() <==> n == m,
{
}

/// The same of the policy as a whole: where no shade that the gradient can
/// give for `n` and `m` is cut to black, a colour of the policy is black
/// exactly where `n` is `m`.
pub proof fn lemma_policy_black_iff_interior<G: Fn(u32, u32) -> Shade>(
    n: u32,
    m: u32,
    gradient: G,
    color: Color,
)
    requires
        paints(n, m, gradient, color),
        forall|shade: Shade| #[trigger]
            gradient.ensures((n, m), shade) ==> shade.color() != Color::spec_black(),
    ensures
        color == Color::spec_black() <==> n == m,
{
}

/// A shade is cut to black exactly where each of its intensities is below
/// one, negative, or no number.
pub proof fn lemma_black_shade(shade: Shade)
    ensures
        shade.color() == Color::spec_black() <==> below_one(shade.red) && below_one(shade.green)
            && below_one(shade.blue),
{
    shade.red.lemma_channel_zero();
    shade.green.lemma_channel_zero();
    shade.blue.lemma_channel_zero();
}

/// The number is below one, negative, or no number.
pub open spec fn below_one(x: Binary64) -> bool {
    x.negative() || x.is_nan() || x.exponent() < EXPONENT_ONE
}

} // verus!
