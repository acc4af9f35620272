use monsters::arena::{answer, print, set_up, Golem, Monster, Ninja, Team};
use monsters::logic::Target;

fn team_of(name: &str, monsters: Vec<Monster>) -> Team {
    Team { monsters, name: name.to_string() }
}

#[test]
fn arena_ninja_cloaks_in_every_round() {
    let n = Ninja::new(30);
    for round in -5..20 {
        assert!(n.special(round));
    }
}

#[test]
fn arena_ninja_with_a_longer_wait_cloaks_on_its_beats_when_it_divides_three() {
    let mut n = Ninja::new(1);
    n.logic.wait = 3;
    assert!(n.special(3));
    assert!(n.special(6));
    assert!(!n.special(4));
    n.logic.wait = 2;
    assert!(!n.special(2));
    assert!(!n.special(3));
}

#[test]
fn arena_golem_never_cloaks() {
    let g = Golem::new(1);
    for round in 0..20 {
        assert!(!g.special(round));
    }
}

#[test]
fn cloaked_ninja_takes_no_blow_but_a_golem_does() {
    let mut n = Monster::Ninja(Ninja::new(30));
    n.hurt(150, 1);
    assert_eq!(n.get_logic().health, 30);
    let mut g = Monster::Golem(Golem::new(1));
    g.hurt(10, 1);
    assert_eq!(g.get_logic().health, 45);
}

#[test]
fn ninja_volley_against_ninjas_changes_nothing() {
    let a = set_up();
    let mut b = team_of("you", vec![Monster::Ninja(Ninja::new(1))]);
    for round in 1..10 {
        a.attack(&mut b, round);
        b.attack(&mut team_of("x", vec![Monster::Ninja(Ninja::new(2))]), round);
    }
    assert_eq!(b.monsters.len(), 1);
    assert_eq!(b.monsters[0].get_logic().health, 1);
}

#[test]
fn arena_team_attack_kills_golems() {
    let a = team_of("a", vec![Monster::Ninja(Ninja::new(30))]);
    let mut b = team_of("b", vec![Monster::Golem(Golem::new(1)), Monster::Ninja(Ninja::new(1))]);
    a.attack(&mut b, 1);
    assert_eq!(b.monsters.len(), 1);
    assert!(matches!(b.monsters[0], Monster::Ninja(_)));
    assert_eq!(b.name, "b");
}

#[test]
fn arena_cleanup_removes_the_dead() {
    let mut g = Golem::new(1);
    g.logic.health = 0;
    let mut t = team_of("t", vec![Monster::Golem(g), Monster::Ninja(Ninja::new(2))]);
    t.cleanup();
    assert_eq!(t.monsters.len(), 1);
    assert!(!t.is_dead());
}

#[test]
fn arena_set_up_is_the_enemy_squad() {
    let t = set_up();
    assert_eq!(t.name, "enemy");
    assert_eq!(t.monsters.len(), 5);
    for m in &t.monsters {
        assert_eq!(m.get_logic().health, 30);
    }
}

#[test]
fn arena_battle_with_an_empty_side_ends_at_once() {
    let mut a = Team::new("you".to_string());
    let mut b = set_up();
    assert!(monsters::arena::battle(&mut a, &mut b));
}

#[test]
fn arena_battle_between_golems_is_won_by_the_first() {
    let mut a = team_of("a", vec![Monster::Golem(Golem::new(1))]);
    let mut b = team_of("b", vec![Monster::Golem(Golem::new(1))]);
    assert!(!monsters::arena::battle(&mut a, &mut b));
    assert!(b.is_dead());
}

#[test]
fn print_heads_the_roster_with_the_names() {
    let a = team_of("you", vec![Monster::Ninja(Ninja::new(1))]);
    let b = team_of("enemy", vec![Monster::Golem(Golem::new(1))]);
    let blank = " ".repeat(40);
    let expected = format!(
        "{:<40}{:>40}{:<40}{:>40}\n{}{}",
        "you", "enemy", "Ninja h:(1), a:(5), l(1)", "Golem h:(55), a:(7), l(1)", blank, blank
    );
    assert_eq!(print(&a, &b), expected);
}

#[test]
fn answer_to_a_battle_without_a_huge_team_is_a_loss_for_want_of_monsters() {
    let mut t = Team::new("you".to_string());
    let r = answer(&mut t, 1, 0);
    assert_eq!(r, vec!["you lose".to_string(), "you have no monsters, go buy some".to_string()]);
    answer(&mut t, 2, 1);
    let r = answer(&mut t, 1, 0);
    assert_eq!(r, vec!["you lose".to_string(), "you have no monsters, go buy some".to_string()]);
    assert_eq!(t.monsters.len(), 1);
}

#[test]
fn answer_to_purchases_adds_ninjas_up_to_five() {
    let mut t = Team::new("you".to_string());
    assert_eq!(answer(&mut t, 2, 2), vec!["added".to_string()]);
    assert!(matches!(t.monsters[0], Monster::Ninja(_)));
    assert_eq!(t.monsters[0].get_logic().level, 30);
    assert_eq!(answer(&mut t, 2, 7), vec!["added".to_string()]);
    assert_eq!(t.monsters.len(), 1);
    for _ in 0..4 {
        answer(&mut t, 2, 1);
    }
    assert_eq!(t.monsters.len(), 5);
    assert_eq!(answer(&mut t, 2, 1), vec!["you have 5 please battle".to_string()]);
    assert_eq!(t.monsters.len(), 5);
}

#[test]
fn answer_to_an_unknown_choice() {
    let mut t = Team::new("you".to_string());
    assert_eq!(answer(&mut t, 3, 0), vec!["HOW!?!?!?!".to_string()]);
}

#[test]
fn print_pads_names_with_tabs_and_accents() {
    let a = team_of("y\u{f6}u", vec![]);
    let b = team_of("en\temy", vec![]);
    let blank = " ".repeat(40);
    let expected = format!("{:<40}{:>40}{}{}", "y\u{f6}u", "en\temy", blank, blank);
    assert_eq!(print(&a, &b), expected);
}
