//! Guiding a lander onto the flat ground of a surface.
//!
//! The surface is a line of sections between consecutive points; the lander
//! aims for the flat section nearest to it. Every turn it moves through four
//! stages (approach, stabilize, slow down, land) and picks a tilt angle and a
//! thrust power. The flight physics (angles, speeds, projected distances)
//! are computed in floating point by the caller and reach these decisions as
//! whole numbers.
use vstd::prelude::*;

verus! {

/// A point of the surface.
#[derive(Clone, Copy, Debug)]
pub struct Point {
    pub x: i32,
    pub y: i32,
}

/// A section of the surface between two consecutive points.
#[derive(Clone, Copy, Debug)]
pub struct LandSection {
    pub left: Point,
    pub right: Point,
    pub flat: bool,
}

/// The stage of the descent.
#[derive(Clone, Copy, Debug, PartialEq, Eq, Structural)]
pub enum Stage {
    Approach,
    Stabilize,
    SlowDown,
    Land,
}

/// What the lander reports every turn.
#[derive(Clone, Copy, Debug)]
pub struct RoverState {
    pub x: i32,
    pub y: i32,
    /// The horizontal speed (in m/s), can be negative.
    pub hs: i32,
    /// The vertical speed (in m/s), can be negative.
    pub vs: i32,
    /// The quantity of remaining fuel in liters.
    pub f: i32,
    /// The rotation angle in degrees (-90 to 90).
    pub r: i32,
    /// The thrust power (0 to 4).
    pub p: i32,
}

/// The decision of one turn: the next stage, the side the lander approaches
/// from, and the command (tilt angle and thrust power).
#[derive(Clone, Copy, Debug)]
pub struct Guidance {
    pub stage: Stage,
    pub approach_from_left: bool,
    pub angle: i32,
    pub thrust: i32,
}

/// The absolute value of an integer.
pub open spec fn abs(v: int) -> int {
    if v < 0 {
        -v
    } else {
        v
    }
}

/// The absolute value of `v`, as `i32::abs` computes it.
pub fn abs_i32(v: i32) -> (r: i32)
    requires
        v != i32::MIN,
    ensures
        r == abs(v as int),
{
    if v < 0 {
        -v
    } else {
        v
    }
}

/// `v` brought into `lo..=hi`, as `i32::clamp` computes it.
pub fn clamp_i32(v: i32, lo: i32, hi: i32) -> (r: i32)
    requires
        lo <= hi,
    ensures
        r == (if v < lo {
            lo
        } else if v > hi {
            hi
        } else {
            v
        }),
{
    if v < lo {
        lo
    } else if v > hi {
        hi
    } else {
        v
    }
}

/// The distance from `x` to the nearer end of the section.
pub open spec fn spec_dst_from(s: LandSection, x: int) -> int {
    let a = abs(x - s.left.x);
    let b = abs(x - s.right.x);
    if a <= b {
        a
    } else {
        b
    }
}

/// The distances to both ends of the section fit in an `i32`.
pub open spec fn dst_fits(s: LandSection, x: int) -> bool {
    abs(x - s.left.x) <= i32::MAX && abs(x - s.right.x) <= i32::MAX
}

impl LandSection {
    /// The section between two points; it is flat when both are at the same height.
    pub fn new(left: Point, right: Point) -> (s: Self)
        ensures
            s.left == left,
            s.right == right,
            s.flat == (left.y == right.y),
    {
        Self { left, right, flat: left.y == right.y }
    }

    /// The distance from `x` to the nearer end of the section.
    pub fn dst_from(&self, x: i32) -> (d: i32)
        requires
            dst_fits(*self, x as int),
        ensures
            d as int == spec_dst_from(*self, x as int),
    {
        let a: i32 = abs_i32(x - self.left.x);
        let b: i32 = abs_i32(x - self.right.x);
        a.min(b)
    }
}

/// Section `i` is the target: flat, no farther from `x` than any flat
/// section, and the first of the flat sections at that distance.
pub open spec fn is_target(land: Seq<LandSection>, x: int, i: int) -> bool {
    &&& 0 <= i < land.len()
    &&& land[i].flat
    &&& forall|j: int|
        0 <= j < land.len() && (#[trigger] land[j]).flat ==> spec_dst_from(land[i], x) <= spec_dst_from(land[j], x)
    &&& forall|j: int|
        0 <= j < i && (#[trigger] land[j]).flat ==> spec_dst_from(land[j], x) > spec_dst_from(land[i], x)
}

/// The index of the flat section nearest to `x`; the first one on a tie.
pub fn nearest_flat_section(land: &Vec<LandSection>, x: i32) -> (i: usize)
    requires
        exists|j: int| 0 <= j < land@.len() && (#[trigger] land@[j]).flat,
        forall|j: int| 0 <= j < land@.len() ==> dst_fits(#[trigger] land@[j], x as int),
    ensures
        is_target(land@, x as int, i as int),
{
    let mut found = false;
    let mut best: usize = 0;
    let mut best_dst: i32 = 0;
    let mut j: usize = 0;
    while j < land.len()
        invariant
            j <= land@.len(),
            forall|k: int| 0 <= k < land@.len() ==> dst_fits(#[trigger] land@[k], x as int),
            found ==> best < j && land@[best as int].flat && best_dst as int == spec_dst_from(land@[best as int], x as int),
            found ==> forall|k: int|
                0 <= k < j && (#[trigger] land@[k]).flat ==> spec_dst_from(land@[best as int], x as int)
                    <= spec_dst_from(land@[k], x as int),
            found ==> forall|k: int|
                0 <= k < best && (#[trigger] land@[k]).flat ==> spec_dst_from(land@[k], x as int)
                    > spec_dst_from(land@[best as int], x as int),
            !found ==> forall|k: int| 0 <= k < j ==> !(#[trigger] land@[k]).flat,
        decreases land@.len() - j,
    {
        if land[j].flat {
            let d = land[j].dst_from(x);
            if !found || d < best_dst {
                found = true;
                best = j;
                best_dst = d;
            }
        }
        j = j + 1;
    }
    best
}

/// The vertical speed as the guidance reads it: a rising speed counts as
/// falling just as fast.
pub fn fold_vertical_speed(vs: i32) -> (r: i32)
    ensures
        r == (if vs > 0 {
            -vs
        } else {
            vs as int
        }),
{
    if vs > 0 {
        -vs
    } else {
        vs
    }
}

/// The tilt of the slow-down stage from the angle `opp_aoa` (in whole
/// degrees) opposite the flight path: brought into 0..360, shifted by half a
/// turn, and clamped to -70..=70.
pub open spec fn slow_down_angle(opp_aoa: int) -> int {
    let a = if opp_aoa < 0 {
        opp_aoa + 360
    } else {
        opp_aoa
    };
    let b = (if a >= 0 {
        a % 360
    } else {
        -((-a) % 360)
    }) - 180;
    if b < -70 {
        -70
    } else if b > 70 {
        70
    } else {
        b
    }
}

/// The decision of one turn.
///
/// `loops` counts the turns so far, this one included. `state` holds the
/// lander's state with its vertical speed folded. `stabilize_dist` is the
/// projected horizontal distance the stabilize stage compares against, and
/// `opp_aoa` the angle, in whole degrees, opposite the flight path.
pub open spec fn spec_guide(
    stage: Stage,
    loops: int,
    approach_from_left: bool,
    state: RoverState,
    target: LandSection,
    stabilize_dist: int,
    opp_aoa: int,
) -> Guidance {
    match stage {
        Stage::Approach => {
            let left = if state.x < target.left.x {
                true
            } else if state.x > target.right.x {
                false
            } else {
                approach_from_left
            };
            let angle: i32 = if state.x < target.left.x {
                -40i32
            } else if state.x > target.right.x {
                40i32
            } else {
                0i32
            };
            Guidance {
                stage: if abs(state.hs as int) > 40 {
                    Stage::Stabilize
                } else {
                    Stage::Approach
                },
                approach_from_left: left,
                angle,
                thrust: 4,
            }
        },
        Stage::Stabilize => {
            let slow = (approach_from_left && stabilize_dist + state.x > target.left.x) || (
            !approach_from_left && stabilize_dist + state.x < target.right.x);
            Guidance {
                stage: if slow {
                    Stage::SlowDown
                } else {
                    Stage::Stabilize
                },
                approach_from_left,
                angle: 0,
                thrust: if loops % 20 == 0 {
                    3i32
                } else {
                    4i32
                },
            }
        },
        Stage::SlowDown => {
            if state.hs > 1 || state.hs < -1 {
                Guidance {
                    stage: Stage::SlowDown,
                    approach_from_left,
                    angle: slow_down_angle(opp_aoa) as i32,
                    thrust: 4,
                }
            } else {
                Guidance { stage: Stage::Land, approach_from_left, angle: 0, thrust: 4 }
            }
        },
        Stage::Land => Guidance {
            stage: Stage::Land,
            approach_from_left,
            angle: 0,
            thrust: if state.vs < -30 {
                4i32
            } else {
                3i32
            },
        },
    }
}

/// The lander's state with its horizontal speed reversed.
pub open spec fn mirrored(s: RoverState) -> RoverState {
    RoverState { hs: -s.hs as i32, ..s }
}

/// `v` clamped to -70..=70.
pub open spec fn within_70(v: int) -> int {
    if v < -70 {
        -70
    } else if v > 70 {
        70
    } else {
        v
    }
}

/// In the slow-down stage the lander keeps slowing down, at full thrust and
/// tilted at most 70 degrees against its flight path, until its horizontal
/// speed is within 1 m/s, and then lands upright; the rule does not depend on
/// the direction it flies in.
pub proof fn lemma_slow_down_until_slow(
    loops: int,
    from_left: bool,
    state: RoverState,
    target: LandSection,
    dist: int,
    opp: int,
)
    ensures
        (state.hs > 1 || state.hs < -1) ==> {
            let g = spec_guide(Stage::SlowDown, loops, from_left, state, target, dist, opp);
            &&& g.stage == Stage::SlowDown
            &&& g.thrust == 4
            &&& -70 <= g.angle <= 70
            &&& -360 <= opp < 360 ==> g.angle == within_70((opp + 360) % 360 - 180)
        },
        -1 <= state.hs <= 1 ==> {
            let g = spec_guide(Stage::SlowDown, loops, from_left, state, target, dist, opp);
            &&& g.stage == Stage::Land
            &&& g.angle == 0
            &&& g.thrust == 4
        },
        state.hs != i32::MIN ==> spec_guide(Stage::SlowDown, loops, from_left, state, target, dist, opp)
            == spec_guide(Stage::SlowDown, loops, from_left, mirrored(state), target, dist, opp),
{
}

/// The decision of one turn: the tilt angle and thrust power to command,
/// the next stage, and the side the lander approaches from.
///
/// Approach: full thrust, tilted towards the target section; once the
/// horizontal speed exceeds 40 m/s, stabilize. Stabilize: full thrust, but 3
/// every twentieth turn; once the projected distance carries the lander past
/// the near end of the target, slow down. Slow down: full thrust against the
/// flight path until the horizontal speed is within 1 m/s, then land. Land:
/// full thrust while falling faster than 30 m/s, 3 otherwise.
pub fn guide(
    stage: Stage,
    loops: i32,
    approach_from_left: bool,
    state: &RoverState,
    target: &LandSection,
    stabilize_dist: i32,
    opp_aoa: i32,
) -> (g: Guidance)
    requires
        stage == Stage::Approach ==> state.hs != i32::MIN,
        stage == Stage::Stabilize ==> i32::MIN <= stabilize_dist + state.x <= i32::MAX,
    ensures
        g == spec_guide(stage, loops as int, approach_from_left, *state, *target, stabilize_dist as int, opp_aoa as int),
{
    let mut desired_angle: i32 = 0;
    let mut desired_thrust: i32 = 0;
    let mut next_stage = stage;
    let mut from_left = approach_from_left;
    match stage {
        Stage::Approach => {
            desired_thrust = 4;
            if state.x < target.left.x {
                from_left = true;
                desired_angle = -40;
            } else if state.x > target.right.x {
                from_left = false;
                desired_angle = 40;
            }
            if abs_i32(state.hs) > 40 {
                next_stage = Stage::Stabilize;
            }
        },
        Stage::Stabilize => {
            if loops % 20 == 0 {
                desired_thrust = 3;
            } else {
                desired_thrust = 4;
            }
            let dist: i32 = stabilize_dist;
            if from_left && dist + state.x > target.left.x {
                next_stage = Stage::SlowDown;
            }
            if !from_left && dist + state.x < target.right.x {
                next_stage = Stage::SlowDown;
            }
        },
        Stage::SlowDown => {
            desired_thrust = 4;
            let mut opp: i32 = opp_aoa;
            if opp < 0 {
                opp = opp + 360;
            }
            opp = opp % 360;
            opp = opp - 180;
            opp = clamp_i32(opp, -70, 70);
            if state.hs > 1 {
                desired_angle = opp;
            } else if state.hs < -1 {
                desired_angle = opp;
            } else {
                desired_angle = 0;
                next_stage = Stage::Land;
            }
        },
        Stage::Land => {
            if state.vs < -30 {
                desired_thrust = 4;
            } else {
                desired_thrust = 3;
            }
        },
    }
    Guidance { stage: next_stage, approach_from_left: from_left, angle: desired_angle, thrust: desired_thrust }
}

} // verus!
