//! How large particles are: 0.45 times the root of their mass, up to rounding.

use vstd::prelude::*;
use vstd::arithmetic::power2::*;
use crate::binary32::Binary32;
use crate::collision::{particle_radius, PARTICLE_RADIUS_SCALE};
use crate::estimate;
use crate::estimate::Estimate;
use crate::numbers;
use crate::rounding;
use crate::rounding::{product, size, slack};

verus! {

/// A real number is the root of another one.
pub open spec fn is_root(root: real, of: real) -> bool {
    root >= 0 as real && product(root, root) == of
}

/// What is near the square of a root is the square of what is near the root.
proof fn lemma_near_root(r: real, s: real, e: real)
    requires
        r >= 0 as real,
        s >= 0 as real,
        e > 0 as real,
        size(r * r - s * s) <= e * (r + r + e),
    ensures
        size(r - s) <= 3 as real * e,
{
    if s - r > 3 as real * e {
        assert(s * s - r * r > e * (r + r + e)) by (nonlinear_arith)
            requires
                s - r > 3 as real * e,
                r >= 0 as real,
                e > 0 as real,
        ;
    }
    if r - s > 3 as real * e {
        assert(r * r - s * s > e * (r + r + e)) by (nonlinear_arith)
            requires
                r - s > 3 as real * e,
                s >= 0 as real,
                e > 0 as real,
        ;
    }
}

/// The root that is computed, meant to be a real root.
pub open spec fn root_estimate(number: Binary32, root: real) -> Estimate {
    Estimate {
        computed: number.root(),
        exact: root,
        error: 3 as real * slack(number.root()),
    }
}

/// A root that is computed is near the real root.
pub proof fn law_roots_are_near_real_roots(number: Binary32, root: real)
    requires
        number.is_finite(),
        is_root(root, number.number()),
    ensures
        root_estimate(number, root).holds(),
{
    reveal(product);
    let r = number.root();
    rounding::lemma_slack(r);
    if r.is_finite() {
        estimate::lemma_roots_are_near(number);
        let e = slack(r);
        assert(size(r.number() * r.number() - root * root) <= e * (r.number() + r.number() + e));
        lemma_near_root(r.number(), root, e);
    }
}

/// The scale of radii, meant to be 0.45.
pub open spec fn scale_estimate() -> Estimate {
    let scale = Binary32::from_bits(PARTICLE_RADIUS_SCALE);
    Estimate { computed: scale, exact: 45 as real / 100 as real, error: slack(scale) }
}

/// The scale of radii is 0.45, up to rounding.
pub proof fn law_radii_scale_as_documented()
    ensures
        scale_estimate().holds(),
{
    rounding::lemma_least();
    rounding::lemma_slack(Binary32::from_bits(PARTICLE_RADIUS_SCALE));
    lemma2_to64();
    numbers::lemma_bits(PARTICLE_RADIUS_SCALE, 25, 0x200_0000);
}

/// The radius of a particle, meant to be 0.45 times the real root of its mass.
pub open spec fn radius_estimate(mass: Binary32, root: real) -> Estimate {
    scale_estimate().times(root_estimate(mass, root))
}

/// The radius of a particle is 0.45 times the root of its mass, up to rounding.
pub proof fn law_radii_grow_with_the_root_of_the_mass(mass: Binary32, root: real)
    requires
        mass.is_finite(),
        is_root(root, mass.number()),
    ensures
        radius_estimate(mass, root).holds(),
        radius_estimate(mass, root).computed == particle_radius(mass),
        radius_estimate(mass, root).exact == product(45 as real / 100 as real, root),
{
    law_radii_scale_as_documented();
    law_roots_are_near_real_roots(mass, root);
    estimate::law_estimates_hold(scale_estimate(), root_estimate(mass, root));
}

} // verus!
