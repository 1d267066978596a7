use ant_invaders::components::{
    Damage, ExplosionTimer, Health, SpriteSize, EXPLOSION_FRAME_PERIOD,
};
use ant_invaders::fixed::{isqrt, quotient, saturate, saturate64, times, wide};
use ant_invaders::timer::CooldownTimer;

#[test]
fn damage_is_capped_by_the_limit() {
    let damage = Damage { dmg: 10_000, multiplier: 1_000, limit: 5_000 };
    assert_eq!(damage.damage_dealt(), 5_000);
}

#[test]
fn damage_below_the_limit_is_the_scaled_product() {
    let damage = Damage { dmg: 1_000, multiplier: 1_000, limit: 2_000 };
    assert_eq!(damage.damage_dealt(), 1_000);
    let half = Damage { dmg: 3_000, multiplier: 500, limit: 2_000 };
    assert_eq!(half.damage_dealt(), 1_500);
}

#[test]
fn damage_with_negative_numbers_keeps_below_the_limit() {
    let healing = Damage { dmg: -4_000, multiplier: 1_000, limit: 5_000 };
    assert_eq!(healing.damage_dealt(), -4_000);
    let negative_limit = Damage { dmg: 4_000, multiplier: 1_000, limit: -1_000 };
    assert_eq!(negative_limit.damage_dealt(), -1_000);
    let both_negative = Damage { dmg: -4_000, multiplier: -2_000, limit: 6_000 };
    assert_eq!(both_negative.damage_dealt(), 6_000);
    let rounded = Damage { dmg: -1, multiplier: 999, limit: 5 };
    assert_eq!(rounded.damage_dealt(), 0);
}

#[test]
fn damage_at_the_ends_of_the_range_does_not_overflow() {
    let huge = Damage { dmg: i32::MIN, multiplier: i32::MAX, limit: i32::MAX };
    assert_eq!(huge.damage_dealt(), -4_611_686_016_279_904);
    let capped = Damage { dmg: i32::MIN, multiplier: i32::MIN, limit: i32::MAX };
    assert_eq!(capped.damage_dealt(), i32::MAX as i64);
}

#[test]
fn health_goes_down_by_the_damage_dealt() {
    let mut health = Health { hp: 3_000, multiplier: 1_000 };
    assert!(!health.hit(2_000));
    assert_eq!(health, Health { hp: 1_000, multiplier: 1_000 });
    assert!(health.hit(1_000));
    assert_eq!(health.hp, 0);
}

#[test]
fn health_saturates_instead_of_overflowing() {
    let mut health = Health { hp: i32::MAX, multiplier: 0 };
    assert!(!health.hit(-5));
    assert_eq!(health.hp, i32::MAX);
    let mut low = Health { hp: i32::MIN, multiplier: 0 };
    assert!(low.hit(i64::MAX));
    assert_eq!(low.hp, i32::MIN);
}

#[test]
fn sprite_size_is_made_from_a_pair() {
    assert_eq!(SpriteSize::from((144_000, 75_000)), SpriteSize((144_000, 75_000)));
}

#[test]
fn explosion_timer_starts_with_a_full_period() {
    let timer = ExplosionTimer::default();
    assert_eq!(EXPLOSION_FRAME_PERIOD, 50_000);
    assert_eq!(timer.0, CooldownTimer { remaining: 50_000, period: 50_000 });
}

#[test]
fn cooldown_runs_down_and_stays_down() {
    let mut timer = CooldownTimer::new(1_000);
    assert!(!timer.finished());
    assert!(!timer.tick(400));
    assert_eq!(timer.remaining, 600);
    assert!(timer.tick(600));
    assert!(timer.finished());
    assert!(timer.tick(0));
    assert_eq!(timer, CooldownTimer { remaining: 0, period: 1_000 });
    timer.reset();
    assert_eq!(timer, CooldownTimer { remaining: 1_000, period: 1_000 });
    assert!(timer.tick(5_000));
    assert_eq!(timer.remaining, 0);
}

#[test]
fn cooldown_that_has_elapsed_fires_at_once() {
    let mut timer = CooldownTimer::elapsed(2_000_000);
    assert!(timer.finished());
    assert!(timer.tick(1));
}

#[test]
fn repeating_timer_counts_every_period() {
    let mut timer = CooldownTimer::new(50_000);
    assert_eq!(timer.tick_repeating(49_999), 0);
    assert_eq!(timer.remaining, 1);
    assert_eq!(timer.tick_repeating(1), 1);
    assert_eq!(timer.remaining, 50_000);
    assert_eq!(timer.tick_repeating(125_000), 2);
    assert_eq!(timer.remaining, 25_000);
    assert_eq!(timer.tick_repeating(25_000), 1);
    assert_eq!(timer.remaining, 50_000);
}

#[test]
fn repeating_timer_without_a_period_fires_once_a_tick() {
    let mut timer = CooldownTimer::new(0);
    assert_eq!(timer.tick_repeating(0), 1);
    assert_eq!(timer.tick_repeating(1_000_000), 1);
    assert_eq!(timer.remaining, 0);
}

#[test]
fn repeating_timer_counts_beyond_thirty_two_bits() {
    let mut timer = CooldownTimer { remaining: 0, period: 1 };
    assert_eq!(timer.tick_repeating(u32::MAX), 4_294_967_296);
    assert_eq!(timer.remaining, 1);
}

#[test]
fn square_roots_are_rounded_down() {
    assert_eq!(isqrt(0), 0);
    assert_eq!(isqrt(1), 1);
    assert_eq!(isqrt(3), 1);
    assert_eq!(isqrt(4), 2);
    assert_eq!(isqrt(24), 4);
    assert_eq!(isqrt(25), 5);
    assert_eq!(isqrt(25_000_000), 5_000);
    assert_eq!(isqrt(u128::MAX), u64::MAX);
    assert_eq!(isqrt(69_925_340_356), 264_434);
    assert_eq!(isqrt(69_925_340_355), 264_433);
}

#[test]
fn quotients_are_rounded_toward_zero() {
    assert_eq!(quotient(7, 2), 3);
    assert_eq!(quotient(-7, 2), -3);
    assert_eq!(quotient(-1, 1_000), 0);
    assert_eq!(quotient(0, 5), 0);
    assert_eq!(quotient(i128::MIN, 1), i128::MIN);
    assert_eq!(quotient(i128::MIN, 2), i128::MIN / 2);
    assert_eq!(quotient(i128::MIN, i128::MAX), -1);
    assert_eq!(quotient(i128::MIN, 3), i128::MIN / 3);
}

#[test]
fn saturation_stops_at_the_ends() {
    assert_eq!(saturate(5), 5);
    assert_eq!(saturate(i32::MAX as i128 + 1), i32::MAX);
    assert_eq!(saturate(i32::MIN as i128 - 1), i32::MIN);
    assert_eq!(saturate64(-9), -9);
    assert_eq!(saturate64(i128::MAX), i64::MAX);
    assert_eq!(saturate64(i128::MIN), i64::MIN);
}

#[test]
fn wide_products_do_not_overflow() {
    assert_eq!(wide(i64::MIN, i64::MIN), 85_070_591_730_234_615_865_843_651_857_942_052_864);
    assert_eq!(wide(-3, 4), -12);
    assert_eq!(times(i32::MIN, u32::MAX), -9_223_372_034_707_292_160);
    assert_eq!(times(250_000, 16_667), 4_166_750_000);
}
