use ant_invaders::enemy::formation::{
    Formation, FormationDraw, FormationMaker, RADIUS_X_MAX, RADIUS_X_MIN, RADIUS_Y,
};
use ant_invaders::resources::{WinSize, BASE_SPEED, FORMATION_MEMBERS_MAX};

fn viewport() -> WinSize {
    WinSize { w: 598_000, h: 676_000 }
}

fn choices(right: bool, y: i32) -> FormationDraw {
    FormationDraw { right, y, pivot: (20_000, 90_000), radius_x: 160_000 }
}

#[test]
fn a_new_formation_follows_the_choices() {
    let mut maker = FormationMaker::new(3);
    let formation = maker.make_from(&viewport(), choices(true, -5_000));
    assert_eq!(
        formation,
        Formation {
            start: (399_000, -5_000),
            radius: (160_000, 100_000),
            pivot: (20_000, 90_000),
            speed: 250_000,
            angle: 0,
        }
    );
    assert_eq!(formation.speed, BASE_SPEED / 2);
    assert_eq!(maker.current_members, 1);
    assert_eq!(maker.current_template, Some(formation));
    let mut other = FormationMaker::new(3);
    let left = other.make_from(&viewport(), choices(false, 7_000));
    assert_eq!(left.start, (-399_000, 7_000));
}

#[test]
fn a_squad_shares_one_template_up_to_the_cap() {
    let mut maker = FormationMaker::new(3);
    let first = maker.make_from(&viewport(), choices(true, 1_000));
    assert_eq!(maker.current_members, 1);
    let second = maker.make_from(&viewport(), choices(false, 2_000));
    assert_eq!(maker.current_members, 2);
    let third = maker.make_from(&viewport(), choices(false, 3_000));
    assert_eq!(maker.current_members, 3);
    assert_eq!(second, first);
    assert_eq!(third, first);
    let fourth = maker.make_from(&viewport(), choices(false, 4_000));
    assert_eq!(maker.current_members, 1);
    assert_ne!(fourth, first);
    assert_eq!(fourth.start, (-399_000, 4_000));
    assert_eq!(maker.current_template, Some(fourth));
    let fifth = maker.make_from(&viewport(), choices(true, 5_000));
    assert_eq!(fifth, fourth);
    assert_eq!(maker.current_members, 2);
}

#[test]
fn the_default_maker_gives_every_enemy_its_own_formation() {
    let mut maker = FormationMaker::default();
    assert_eq!(maker.squad_cap, FORMATION_MEMBERS_MAX);
    assert_eq!(maker.current_members, 0);
    assert_eq!(maker.current_template, None);
    let first = maker.make_from(&viewport(), choices(true, 1_000));
    let second = maker.make_from(&viewport(), choices(true, 2_000));
    assert_eq!(first.start.1, 1_000);
    assert_eq!(second.start.1, 2_000);
    assert_eq!(maker.current_members, 1);
}

#[test]
fn a_maker_with_no_room_in_a_squad_always_starts_anew() {
    let mut maker = FormationMaker::new(0);
    let first = maker.make_from(&viewport(), choices(true, 1_000));
    let second = maker.make_from(&viewport(), choices(true, 2_000));
    assert_ne!(first, second);
    assert_eq!(maker.current_members, 1);
}

#[test]
fn random_choices_fit_the_viewport() {
    let win = viewport();
    let mut seen_right = false;
    let mut seen_left = false;
    let mut first_y: Option<i32> = None;
    let mut y_varies = false;
    let mut radius_varies = false;
    let mut first_radius: Option<i32> = None;
    for _ in 0..400 {
        let draw = FormationMaker::draw(&win);
        assert!(draw.y >= -438_000 && draw.y < 438_000);
        assert!(draw.pivot.0 >= -149_500 && draw.pivot.0 < 149_500);
        assert!(draw.pivot.1 >= 0 && draw.pivot.1 < 275_334);
        assert!(draw.radius_x >= RADIUS_X_MIN && draw.radius_x < RADIUS_X_MAX);
        if draw.right {
            seen_right = true;
        } else {
            seen_left = true;
        }
        match first_y {
            Some(y) => y_varies = y_varies || y != draw.y,
            None => first_y = Some(draw.y),
        }
        match first_radius {
            Some(r) => radius_varies = radius_varies || r != draw.radius_x,
            None => first_radius = Some(draw.radius_x),
        }
    }
    assert!(seen_right && seen_left);
    assert!(y_varies);
    assert!(radius_varies);
}

#[test]
fn random_choices_fit_the_smallest_viewport() {
    let win = WinSize { w: 1, h: 1 };
    let mut highest = i32::MIN;
    let mut lowest = i32::MAX;
    for _ in 0..400 {
        let draw = FormationMaker::draw(&win);
        assert!(-200_001 <= 2 * draw.y && 2 * draw.y < 200_001);
        assert_eq!(draw.pivot.0, 0);
        assert!(0 <= draw.pivot.1 && 3 * draw.pivot.1 < 150_001);
        highest = highest.max(draw.y);
        lowest = lowest.min(draw.y);
    }
    assert!(lowest < 0 && highest > 0);
    let mut maker = FormationMaker::new(1);
    let formation = maker.make(&win);
    assert!(formation.start.0 == 100_000 || formation.start.0 == -100_000);
    assert!(formation.check_valid());
}

#[test]
fn random_choices_reach_the_upper_part_of_a_range_that_does_not_divide() {
    let win = WinSize { w: 7, h: 5 };
    let mut seen = [false; 4];
    for _ in 0..400 {
        let draw = FormationMaker::draw(&win);
        assert!(-7 <= 4 * draw.pivot.0 && 4 * draw.pivot.0 < 7);
        seen[(draw.pivot.0 + 1) as usize] = true;
    }
    assert_eq!(seen, [true, true, true, false]);
}

#[test]
fn a_formation_with_a_negative_speed_cannot_be_followed() {
    let formation = Formation {
        start: (399_000, 0),
        radius: (150_000, 100_000),
        pivot: (0, 0),
        speed: 250_000,
        angle: 0,
    };
    assert!(formation.check_valid());
    assert!(Formation { speed: 0, ..formation }.check_valid());
    assert!(!Formation { speed: -1, ..formation }.check_valid());
    assert!(!Formation { radius: (0, 100_000), ..formation }.check_valid());
    assert!(!Formation { radius: (150_000, -5), ..formation }.check_valid());
    assert_eq!(Formation { speed: -1, ..formation }.advanced_angle(16_667), 0);
}

#[test]
fn a_random_formation_has_positive_radii_and_is_shared() {
    let win = viewport();
    let mut maker = FormationMaker::new(2);
    let first = maker.make(&win);
    assert!(first.radius.0 >= RADIUS_X_MIN && first.radius.0 < RADIUS_X_MAX);
    assert_eq!(first.radius.1, RADIUS_Y);
    assert!(first.start.0 == 399_000 || first.start.0 == -399_000);
    assert_eq!(first.angle, 0);
    assert_eq!(first.speed, 250_000);
    assert!(first.check_valid());
    assert_eq!(maker.current_members, 1);
    let second = maker.make(&win);
    assert_eq!(second, first);
    assert_eq!(maker.current_members, 2);
    let third = maker.make(&win);
    assert_eq!(maker.current_members, 1);
    assert_eq!(maker.current_template, Some(third));
}

#[test]
fn a_made_formation_has_the_makers_shape_and_speed() {
    let win = viewport();
    let mut maker = FormationMaker::new(3);
    for _ in 0..20 {
        let formation = maker.make(&win);
        assert!(formation.radius.0 >= RADIUS_X_MIN && formation.radius.0 < RADIUS_X_MAX);
        assert_eq!(formation.radius.1, RADIUS_Y);
        assert_eq!(formation.speed, BASE_SPEED / 2);
        assert_eq!(maker.current_template, Some(formation));
    }
}
