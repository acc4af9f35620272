use monsters::logic::{beat, Logic};
use monsters::server::{Monster, Ninja};

fn logic(health: i32, attack: i32, wait: i32, level: i32, stars: i32) -> Logic {
    Logic { health, attack, wait, name: "Ninja".to_string(), level, stars }
}

#[test]
fn star_check_caps_level_at_ten_per_star() {
    let mut l = logic(10, 5, 1, 45, 3);
    l.star_check();
    assert_eq!(l.level, 30);
    assert_eq!(l.health, 10);
    assert_eq!(l.stars, 3);
}

#[test]
fn star_check_keeps_a_level_under_the_cap() {
    let mut l = logic(10, 5, 1, 30, 3);
    l.star_check();
    assert_eq!(l.level, 30);
    let mut l = logic(10, 5, 1, 7, 3);
    l.star_check();
    assert_eq!(l.level, 7);
}

#[test]
fn is_dead_at_zero_health_or_less() {
    assert!(logic(0, 1, 1, 1, 1).is_dead());
    assert!(logic(-4, 1, 1, 1, 1).is_dead());
    assert!(!logic(1, 1, 1, 1, 1).is_dead());
}

#[test]
fn hurt_lowers_health() {
    let mut l = logic(30, 5, 1, 30, 3);
    l.hurt(150, 1);
    assert_eq!(l.health, -120);
    assert_eq!(l.attack, 5);
}

#[test]
fn shout_lists_name_health_attack_and_level() {
    let l = logic(30, 150, 1, 30, 3);
    assert_eq!(l.shout(), "Ninja h:(30), a:(150), l(30)");
    let l = logic(-120, 7, 6, 1, 3);
    assert_eq!(l.shout(), "Ninja h:(-120), a:(7), l(1)");
    let l = logic(i32::MIN, 0, 6, 1234567890, 3);
    assert_eq!(l.shout(), "Ninja h:(-2147483648), a:(0), l(1234567890)");
}

#[test]
fn beat_is_divisibility_whatever_the_signs() {
    assert!(beat(6, 6));
    assert!(beat(12, 6));
    assert!(!beat(7, 6));
    assert!(beat(-12, 6));
    assert!(!beat(-7, 6));
    assert!(beat(12, -6));
    assert!(!beat(13, -6));
    assert!(beat(0, 5));
    assert!(beat(i32::MIN, -1));
    assert!(beat(5, 1));
}

#[test]
fn logic_attack_with_a_negative_wait_strikes_on_multiples() {
    let striker = logic(10, 4, -3, 1, 1);
    let mut target = Monster::Ninja(Ninja::new(20));
    striker.attack(&mut target, 7);
    assert_eq!(target.get_logic().health, 20);
    striker.attack(&mut target, 9);
    assert_eq!(target.get_logic().health, 16);
}
