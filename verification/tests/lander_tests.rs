use lib::lander::{
    abs_i32, clamp_i32, fold_vertical_speed, guide, nearest_flat_section, LandSection, Point, RoverState, Stage,
};

fn p(x: i32, y: i32) -> Point {
    Point { x, y }
}

fn state(x: i32, hs: i32, vs: i32) -> RoverState {
    RoverState { x, y: 2500, hs, vs, f: 500, r: 0, p: 0 }
}

fn target() -> LandSection {
    LandSection::new(p(4000, 150), p(5500, 150))
}

#[test]
fn sections_and_distances() {
    let s = LandSection::new(p(1000, 500), p(1500, 100));
    assert!(!s.flat);
    assert!(target().flat);
    assert_eq!(target().dst_from(3000), 1000);
    assert_eq!(target().dst_from(5000), 500);
    assert_eq!(target().dst_from(6000), 500);
}

#[test]
fn nearest_flat_section_is_chosen() {
    let land = vec![
        LandSection::new(p(0, 100), p(1000, 500)),
        LandSection::new(p(1000, 500), p(2000, 500)),
        LandSection::new(p(2000, 500), p(3000, 200)),
        LandSection::new(p(3000, 200), p(4000, 200)),
    ];
    assert_eq!(nearest_flat_section(&land, 500), 1);
    assert_eq!(nearest_flat_section(&land, 3900), 3);
    assert_eq!(nearest_flat_section(&land, 2500), 1);
}

#[test]
fn vertical_speed_is_folded() {
    assert_eq!(fold_vertical_speed(12), -12);
    assert_eq!(fold_vertical_speed(-7), -7);
    assert_eq!(fold_vertical_speed(0), 0);
}

#[test]
fn approach_tilts_towards_target() {
    let g = guide(Stage::Approach, 1, false, &state(2000, 0, -5), &target(), 0, 0);
    assert_eq!(g.stage, Stage::Approach);
    assert!(g.approach_from_left);
    assert_eq!((g.angle, g.thrust), (-40, 4));
    let g = guide(Stage::Approach, 1, true, &state(6500, -41, -5), &target(), 0, 0);
    assert_eq!(g.stage, Stage::Stabilize);
    assert!(!g.approach_from_left);
    assert_eq!((g.angle, g.thrust), (40, 4));
}

#[test]
fn stabilize_until_past_the_edge() {
    let g = guide(Stage::Stabilize, 20, true, &state(3000, 50, -5), &target(), 500, 0);
    assert_eq!(g.stage, Stage::Stabilize);
    assert_eq!((g.angle, g.thrust), (0, 3));
    let g = guide(Stage::Stabilize, 21, true, &state(3000, 50, -5), &target(), 1500, 0);
    assert_eq!(g.stage, Stage::SlowDown);
    assert_eq!(g.thrust, 4);
}

#[test]
fn slow_down_then_land() {
    let g = guide(Stage::SlowDown, 30, true, &state(4200, 30, -5), &target(), 0, 200);
    assert_eq!(g.stage, Stage::SlowDown);
    assert_eq!((g.angle, g.thrust), (20, 4));
    let g = guide(Stage::SlowDown, 30, true, &state(4200, 30, -5), &target(), 0, -100);
    assert_eq!(g.angle, 70);
    let g = guide(Stage::SlowDown, 31, true, &state(4200, 1, -5), &target(), 0, 200);
    assert_eq!(g.stage, Stage::Land);
    assert_eq!((g.angle, g.thrust), (0, 4));
    let g = guide(Stage::Land, 32, true, &state(4200, 0, -35), &target(), 0, 0);
    assert_eq!(g.thrust, 4);
    let g = guide(Stage::Land, 33, true, &state(4200, 0, -10), &target(), 0, 0);
    assert_eq!(g.thrust, 3);
}

#[test]
fn integer_helpers() {
    assert_eq!(abs_i32(-5), 5);
    assert_eq!(abs_i32(i32::MAX), i32::MAX);
    assert_eq!(clamp_i32(100, -70, 70), 70);
    assert_eq!(clamp_i32(-100, -70, 70), -70);
    assert_eq!(clamp_i32(3, -70, 70), 3);
}
