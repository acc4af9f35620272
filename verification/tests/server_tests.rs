use monsters::server::{
    battle, display, process_request, set_up, Golem, Monster, Ninja, Player, Request, Response, Team,
};

fn team_of(monsters: Vec<Monster>) -> Team {
    Team { monsters }
}

#[test]
fn ninja_new_sets_its_numbers() {
    let n = Ninja::new(30);
    assert_eq!(n.logic.health, 30);
    assert_eq!(n.logic.attack, 150);
    assert_eq!(n.logic.wait, 1);
    assert_eq!(n.logic.stars, 3);
    assert_eq!(n.logic.level, 30);
    assert_eq!(n.logic.name, "Ninja");
}

#[test]
fn golem_new_sets_its_numbers() {
    let g = Golem::new(2);
    assert_eq!(g.logic.health, 110);
    assert_eq!(g.logic.attack, 14);
    assert_eq!(g.logic.wait, 6);
    assert_eq!(g.logic.stars, 3);
    assert_eq!(g.logic.level, 2);
    assert_eq!(g.logic.name, "Golem");
}

#[test]
fn online_monsters_never_dodge() {
    let n = Monster::Ninja(Ninja::new(1));
    let g = Monster::Golem(Golem::new(1));
    for round in 0..20 {
        assert!(!n.special(round));
        assert!(!g.special(round));
    }
}

#[test]
fn monster_attack_lands_on_its_beats_only() {
    let golem = Monster::Golem(Golem::new(1));
    let mut target = Monster::Ninja(Ninja::new(30));
    golem.attack(&mut target, 5);
    assert_eq!(target.get_logic().health, 30);
    golem.attack(&mut target, 6);
    assert_eq!(target.get_logic().health, 23);
    golem.attack(&mut target, 12);
    assert_eq!(target.get_logic().health, 16);
    assert!(!target.is_dead());
}

#[test]
fn monster_star_check_and_shout() {
    let mut g = Monster::Golem(Golem::new(40));
    g.star_check();
    assert_eq!(g.get_logic().level, 30);
    assert_eq!(g.shout(), "Golem h:(2200), a:(280), l(30)");
}

#[test]
fn set_up_is_five_ninjas_of_level_30() {
    let t = set_up();
    assert_eq!(t.monsters.len(), 5);
    for m in &t.monsters {
        assert!(matches!(m, Monster::Ninja(_)));
        assert_eq!(m.get_logic().health, 30);
        assert_eq!(m.get_logic().attack, 150);
    }
}

#[test]
fn cleanup_removes_the_dead_and_keeps_the_order() {
    let mut a = Ninja::new(5);
    a.logic.health = 0;
    let b = Golem::new(1);
    let mut c = Ninja::new(7);
    c.logic.health = -3;
    let d = Ninja::new(9);
    let mut t = team_of(vec![Monster::Ninja(a), Monster::Golem(b), Monster::Ninja(c), Monster::Ninja(d)]);
    t.cleanup();
    assert_eq!(t.monsters.len(), 2);
    assert_eq!(t.monsters[0].get_logic().name, "Golem");
    assert_eq!(t.monsters[1].get_logic().level, 9);
    assert!(!t.is_dead());
    let mut e = Team::new();
    e.cleanup();
    assert!(e.is_dead());
}

#[test]
fn team_attack_strikes_the_front_and_stops_when_the_other_side_is_gone() {
    // Two ninjas of level 1 (attack 5) strike a ninja of level 6 (health 6) in round 1.
    let attackers = team_of(vec![Monster::Ninja(Ninja::new(1)), Monster::Ninja(Ninja::new(1))]);
    let mut other = team_of(vec![Monster::Ninja(Ninja::new(6)), Monster::Golem(Golem::new(1))]);
    attackers.attack(&mut other, 1);
    assert_eq!(other.monsters.len(), 1);
    assert_eq!(other.monsters[0].get_logic().health, 55);

    // The first blow kills the only defender; the rest of the team does not strike.
    let attackers = team_of(vec![Monster::Ninja(Ninja::new(30)), Monster::Ninja(Ninja::new(30))]);
    let mut other = team_of(vec![Monster::Golem(Golem::new(1))]);
    attackers.attack(&mut other, 1);
    assert!(other.is_dead());
}

#[test]
fn golems_only_strike_every_sixth_round() {
    let attackers = team_of(vec![Monster::Golem(Golem::new(1))]);
    let mut other = team_of(vec![Monster::Golem(Golem::new(1))]);
    for round in 1..6 {
        attackers.attack(&mut other, round);
        assert_eq!(other.monsters[0].get_logic().health, 55);
    }
    attackers.attack(&mut other, 6);
    assert_eq!(other.monsters[0].get_logic().health, 48);
}

#[test]
fn battle_against_the_squad_is_lost_in_the_first_round() {
    let mut mine = team_of(vec![Monster::Ninja(Ninja::new(1)), Monster::Golem(Golem::new(1))]);
    let mut enemy = set_up();
    assert!(battle(&mut mine, &mut enemy));
    assert!(mine.is_dead());
    assert_eq!(enemy.monsters.len(), 5);
    assert_eq!(enemy.monsters[0].get_logic().health, 25);
}

#[test]
fn battle_of_golems_ends_with_the_first_team_winning() {
    // Both golems strike every sixth round; the first team strikes first.
    let mut a = team_of(vec![Monster::Golem(Golem::new(1))]);
    let mut b = team_of(vec![Monster::Golem(Golem::new(1))]);
    assert!(!battle(&mut a, &mut b));
    assert!(b.is_dead());
    assert_eq!(a.monsters[0].get_logic().health, 6);
}

#[test]
fn battle_with_an_empty_team_needs_no_round() {
    let mut a = Team::new();
    let mut b = set_up();
    assert!(battle(&mut a, &mut b));
    assert_eq!(b.monsters.len(), 5);
    let mut c = set_up();
    let mut d = Team::new();
    assert!(!battle(&mut c, &mut d));
}

#[test]
fn player_new_starts_with_no_monster() {
    let p = Player::new("blaise".to_string(), 100, 7);
    assert!(p.team().is_dead());
    assert_eq!(p.money(), 100);
    assert_eq!(p.name(), "blaise");
    assert_eq!(p.level(), 1);
    assert_eq!(p.id(), 7);
}

#[test]
fn battle_request_without_monsters_is_refused() {
    let mut p = Player::new("blaise".to_string(), 100, 1);
    let r = process_request(Request::Battle, &mut p);
    assert_eq!(r, Response::Battle(Err("you have no monsters go buy some!".to_string())));
}

#[test]
fn add_monster_requests_fill_the_team_up_to_five() {
    let mut p = Player::new("blaise".to_string(), 100, 1);
    assert_eq!(process_request(Request::AddMonster(1), &mut p), Response::AddMonster(Ok(())));
    assert_eq!(process_request(Request::AddMonster(2), &mut p), Response::AddMonster(Ok(())));
    assert_eq!(process_request(Request::AddMonster(9), &mut p), Response::AddMonster(Ok(())));
    assert_eq!(p.team().monsters.len(), 2);
    assert!(matches!(p.team().monsters[0], Monster::Ninja(_)));
    assert!(matches!(p.team().monsters[1], Monster::Golem(_)));
    assert_eq!(p.team().monsters[1].get_logic().health, 55);
    for _ in 0..3 {
        assert_eq!(process_request(Request::AddMonster(2), &mut p), Response::AddMonster(Ok(())));
    }
    assert_eq!(p.team().monsters.len(), 5);
    assert_eq!(
        process_request(Request::AddMonster(1), &mut p),
        Response::AddMonster(Err("you have 5 please battle".to_string()))
    );
    assert_eq!(p.team().monsters.len(), 5);
}

#[test]
fn battle_request_is_lost_and_empties_the_team() {
    let mut p = Player::new("blaise".to_string(), 100, 1);
    for _ in 0..5 {
        process_request(Request::AddMonster(1), &mut p);
    }
    assert_eq!(process_request(Request::Battle, &mut p), Response::Battle(Ok(false)));
    assert!(p.team().is_dead());
    assert_eq!(process_request(Request::AddMonster(2), &mut p), Response::AddMonster(Ok(())));
    assert_eq!(process_request(Request::Battle, &mut p), Response::Battle(Ok(false)));
    assert!(p.team().is_dead());
    assert_eq!(p.money(), 100);
}

#[test]
fn display_shows_both_teams_side_by_side() {
    let a = team_of(vec![Monster::Ninja(Ninja::new(1))]);
    let b = team_of(vec![]);
    let blank = " ".repeat(40);
    let expected = format!(
        "round: 1{}{}round: 2{}{}round: 3{}{}",
        blank,
        format!("{:<40}", "Ninja h:(1), a:(5), l(1)"),
        blank,
        blank,
        blank,
        blank
    );
    assert_eq!(display(&a, &b), expected);
}

#[test]
fn display_right_aligns_the_second_team() {
    let a = team_of(vec![]);
    let b = team_of(vec![Monster::Golem(Golem::new(1))]);
    let blank = " ".repeat(40);
    let expected = format!(
        "round: 1{}{}{}\nround: 2{}{}round: 3{}{}",
        blank,
        blank,
        format!("{:>40}", "Golem h:(55), a:(7), l(1)"),
        blank,
        blank,
        blank,
        blank
    );
    assert_eq!(display(&a, &b), expected);
}

#[test]
fn display_cuts_long_lines_to_forty_columns() {
    let mut n = Ninja::new(1);
    n.logic.name = "A very long ninja name that will not fit".to_string();
    let a = team_of(vec![Monster::Ninja(n)]);
    let b = team_of(vec![]);
    let out = display(&a, &b);
    let first = &out["round: 1".len() + 40..];
    assert_eq!(&first[..40], "A very long ninja name that will not fit");
    assert!(out.starts_with("round: 1"));
}

#[test]
fn cleanup_twice_is_cleanup_once() {
    let mut a = Ninja::new(5);
    a.logic.health = -1;
    let mut t = team_of(vec![Monster::Ninja(a), Monster::Golem(Golem::new(1)), Monster::Ninja(Ninja::new(2))]);
    t.cleanup();
    let once: Vec<i32> = t.monsters.iter().map(|m| m.get_logic().health).collect();
    t.cleanup();
    let twice: Vec<i32> = t.monsters.iter().map(|m| m.get_logic().health).collect();
    assert_eq!(once, twice);
    assert_eq!(once, vec![55, 2]);
}

#[test]
fn survivors_of_a_battle_keep_their_numbers_but_health() {
    let mut a = team_of(vec![Monster::Ninja(Ninja::new(3)), Monster::Golem(Golem::new(1))]);
    let mut b = team_of(vec![Monster::Golem(Golem::new(1))]);
    assert!(!battle(&mut a, &mut b));
    assert!(a.monsters.len() <= 2);
    for m in &a.monsters {
        assert!(m.get_logic().health >= 1);
        assert!(m.get_logic().wait == 1 || m.get_logic().wait == 6);
    }
}

#[test]
fn display_pads_names_with_tabs_and_accents() {
    let mut n = Ninja::new(1);
    n.logic.name = "Zo\u{eb}".to_string();
    let mut g = Golem::new(1);
    g.logic.name = "Go\tlem".to_string();
    let a = team_of(vec![Monster::Ninja(n)]);
    let b = team_of(vec![Monster::Golem(g)]);
    let blank = " ".repeat(40);
    let expected = format!(
        "round: 1{}{}{}\nround: 2{}{}round: 3{}{}",
        blank,
        format!("{:<40}", "Zo\u{eb} h:(1), a:(5), l(1)"),
        format!("{:>40}", "Go\tlem h:(55), a:(7), l(1)"),
        blank,
        blank,
        blank,
        blank
    );
    assert_eq!(display(&a, &b), expected);
}

#[test]
fn unknown_purchase_leaves_the_team_alone() {
    let mut p = Player::new("blaise".to_string(), 100, 1);
    process_request(Request::AddMonster(2), &mut p);
    assert_eq!(process_request(Request::AddMonster(0), &mut p), Response::AddMonster(Ok(())));
    assert_eq!(p.team().monsters.len(), 1);
    assert_eq!(p.team().monsters[0].get_logic().name, "Golem");
}
