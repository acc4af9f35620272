//! Why an online battle always ends: every round either wears some health off a team or
//! brings the first monster of the first team one round closer to its next blow.
use vstd::prelude::*;
use crate::logic::on_beat;
use crate::server::{Monster, living, volley, volley_ok, strike, round_of, round_ok, fight, finished, ends_after, battle_ends,
    recruit, enemy_squad, is_ninja};

verus! {

/// The part of a health above zero.
pub open spec fn above_zero(x: int) -> int {
    if x > 0 {
        x
    } else {
        0
    }
}

/// The health left in a team, counting only the living.
pub open spec fn power(s: Seq<Monster>) -> int
    decreases s.len(),
{
    if s.len() == 0 {
        0
    } else {
        power(s.drop_last()) + above_zero(s.last().stats().health as int)
    }
}

/// A monster that is alive, strikes with at least one point, waits between 1 and `w`
/// rounds between blows, and has at most `h` health.
pub open spec fn sound(m: Monster, w: int, h: int) -> bool {
    &&& 1 <= m.stats().wait <= w
    &&& 1 <= m.stats().attack
    &&& 1 <= m.stats().health <= h
}

pub open spec fn all_sound(s: Seq<Monster>, w: int, h: int) -> bool {
    forall|k: int| 0 <= k < s.len() ==> sound(#[trigger] s[k], w, h)
}

/// Like `sound`, but maybe dead.
pub open spec fn sound_or_dead(m: Monster, w: int, h: int) -> bool {
    &&& 1 <= m.stats().wait <= w
    &&& 1 <= m.stats().attack
    &&& m.stats().health <= h
}

/// How far a battle at most has still to go: the health left on both sides, weighted by
/// the longest wait, plus the rounds until the first monster of the first team strikes.
pub open spec fn pace(teams: (Seq<Monster>, Seq<Monster>), round: int, w: int) -> int {
    (power(teams.0) + power(teams.1)) * (w + 1) + if teams.0.len() > 0 {
        teams.0[0].stats().wait - round % (teams.0[0].stats().wait as int)
    } else {
        0
    }
}

proof fn lemma_power_nonneg(s: Seq<Monster>)
    ensures
        power(s) >= 0,
    decreases s.len(),
{
    if s.len() > 0 {
        lemma_power_nonneg(s.drop_last());
    }
}

proof fn lemma_power_push(s: Seq<Monster>, m: Monster)
    ensures
        power(s.push(m)) == power(s) + above_zero(m.stats().health as int),
{
    assert(s.push(m).drop_last() =~= s);
}

proof fn lemma_power_update(s: Seq<Monster>, k: int, m: Monster)
    requires
        0 <= k < s.len(),
    ensures
        power(s.update(k, m)) == power(s) - above_zero(s[k].stats().health as int) + above_zero(m.stats().health as int),
    decreases s.len(),
{
    let u = s.update(k, m);
    if k == s.len() - 1 {
        assert(u.drop_last() =~= s.drop_last());
    } else {
        assert(u.drop_last() =~= s.drop_last().update(k, m));
        lemma_power_update(s.drop_last(), k, m);
    }
}

/// The monsters that `living` keeps are alive.
proof fn lemma_living_members_alive(s: Seq<Monster>)
    ensures
        forall|k: int| 0 <= k < living(s).len() ==> !(#[trigger] living(s)[k]).stats().dead(),
    decreases s.len(),
{
    if s.len() > 0 {
        let d = s.drop_last();
        lemma_living_members_alive(d);
        if !s.last().stats().dead() {
            let l = living(d);
            assert forall|k: int| 0 <= k < l.push(s.last()).len() implies !(#[trigger] l.push(s.last())[k]).stats().dead() by {
                if k < l.len() {
                    assert(l.push(s.last())[k] == l[k]);
                }
            }
        }
    }
}

/// Clearing the dead twice clears no more than once: `cleanup` right after `cleanup`
/// changes nothing.
pub proof fn lemma_cleanup_idempotent(s: Seq<Monster>)
    ensures
        living(living(s)) == living(s),
{
    lemma_living_members_alive(s);
    lemma_living_alive(living(s));
}

proof fn lemma_living_alive(s: Seq<Monster>)
    requires
        forall|k: int| 0 <= k < s.len() ==> !(#[trigger] s[k]).stats().dead(),
    ensures
        living(s) == s,
    decreases s.len(),
{
    if s.len() > 0 {
        let d = s.drop_last();
        assert forall|k: int| 0 <= k < d.len() implies !(#[trigger] d[k]).stats().dead() by {
            assert(d[k] == s[k]);
        }
        lemma_living_alive(d);
        assert(!s[s.len() - 1].stats().dead());
        assert(d.push(s.last()) =~= s);
    }
}

proof fn lemma_living_sound(s: Seq<Monster>, w: int, h: int)
    requires
        forall|k: int| 0 <= k < s.len() ==> sound_or_dead(#[trigger] s[k], w, h),
    ensures
        all_sound(living(s), w, h),
        power(living(s)) == power(s),
        living(s).len() <= s.len(),
    decreases s.len(),
{
    if s.len() > 0 {
        let d = s.drop_last();
        assert forall|k: int| 0 <= k < d.len() implies sound_or_dead(#[trigger] d[k], w, h) by {
            assert(d[k] == s[k]);
        }
        lemma_living_sound(d, w, h);
        assert(sound_or_dead(s[s.len() - 1], w, h));
        if !s.last().stats().dead() {
            let l = living(d);
            lemma_power_push(l, s.last());
            assert forall|k: int| 0 <= k < l.push(s.last()).len() implies sound(#[trigger] l.push(s.last())[k], w, h) by {
                if k < l.len() {
                    assert(l.push(s.last())[k] == l[k]);
                }
            }
        }
    }
}

pub(crate) proof fn lemma_volley(att: Seq<Monster>, i: int, def: Seq<Monster>, round: int, w: int, h: int)
    requires
        0 <= i <= att.len(),
        all_sound(att, w, h),
        all_sound(def, w, h),
        def.len() > 0,
    ensures
        volley_ok(att, i, def, round),
        all_sound(volley(att, i, def, round), w, h),
        volley(att, i, def, round).len() <= def.len(),
        power(volley(att, i, def, round)) <= power(def),
        power(volley(att, i, def, round)) == power(def) ==> volley(att, i, def, round) == def,
        i < att.len() && on_beat(round, att[i].stats().wait as int) ==> power(volley(att, i, def, round)) < power(def),
    decreases att.len() - i,
{
    if i < att.len() {
        let a = att[i];
        assert(sound(a, w, h));
        assert(sound(def[0], w, h));
        let x = strike(a, def[0], round);
        let u = def.update(0, x);
        let d = living(u);
        assert forall|k: int| 0 <= k < u.len() implies sound_or_dead(#[trigger] u[k], w, h) by {
            if k != 0 {
                assert(u[k] == def[k]);
                assert(sound(def[k], w, h));
            }
        }
        lemma_living_sound(u, w, h);
        lemma_power_update(def, 0, x);
        if !on_beat(round, a.stats().wait as int) {
            assert(u =~= def);
            assert forall|k: int| 0 <= k < def.len() implies !(#[trigger] def[k]).stats().dead() by {
                assert(sound(def[k], w, h));
            }
            lemma_living_alive(def);
        }
        if d.len() > 0 {
            lemma_volley(att, i + 1, d, round, w, h);
        }
    }
}

proof fn lemma_round(teams: (Seq<Monster>, Seq<Monster>), round: int, w: int, h: int)
    requires
        all_sound(teams.0, w, h),
        all_sound(teams.1, w, h),
        !finished(teams),
    ensures
        round_ok(teams, round),
        all_sound(round_of(teams, round).0, w, h),
        all_sound(round_of(teams, round).1, w, h),
        round_of(teams, round).0.len() <= teams.0.len(),
        round_of(teams, round).1.len() <= teams.1.len(),
        power(round_of(teams, round).0) + power(round_of(teams, round).1) <= power(teams.0) + power(teams.1),
        power(round_of(teams, round).0) + power(round_of(teams, round).1) == power(teams.0) + power(teams.1)
            ==> round_of(teams, round) == teams,
        on_beat(round, teams.0[0].stats().wait as int)
            ==> power(round_of(teams, round).0) + power(round_of(teams, round).1) < power(teams.0) + power(teams.1),
{
    let v = volley(teams.0, 0, teams.1, round);
    lemma_volley(teams.0, 0, teams.1, round, w, h);
    if v.len() > 0 {
        lemma_volley(v, 0, teams.0, round, w, h);
    }
}

proof fn lemma_next_beat(r: int, w0: int)
    requires
        w0 >= 1,
        r >= 0,
        (r + 1) % w0 != 0,
    ensures
        (r + 1) % w0 == r % w0 + 1,
{
    let k = r % w0;
    let q = r / w0;
    vstd::arithmetic::div_mod::lemma_fundamental_div_mod(r, w0);
    assert(0 <= k < w0);
    assert(r == q * w0 + k) by (nonlinear_arith)
        requires
            r == w0 * q + k,
    ;
    if k + 1 == w0 {
        assert(r + 1 == (q + 1) * w0 + 0) by (nonlinear_arith)
            requires
                r == q * w0 + k,
                k + 1 == w0,
        ;
        vstd::arithmetic::div_mod::lemma_fundamental_div_mod_converse(r + 1, w0, q + 1, 0);
    } else {
        vstd::arithmetic::div_mod::lemma_fundamental_div_mod_converse(r + 1, w0, q, k + 1);
    }
}

proof fn lemma_pace_nonneg(teams: (Seq<Monster>, Seq<Monster>), round: int, w: int, h: int)
    requires
        all_sound(teams.0, w, h),
        round >= 0,
        w >= 1,
    ensures
        pace(teams, round, w) >= 0,
        teams.0.len() > 0 ==> pace(teams, round, w) >= 1,
{
    lemma_power_nonneg(teams.0);
    lemma_power_nonneg(teams.1);
    let p = power(teams.0) + power(teams.1);
    assert(p * (w + 1) >= 0) by (nonlinear_arith)
        requires
            p >= 0,
            w >= 1,
    ;
    if teams.0.len() > 0 {
        assert(sound(teams.0[0], w, h));
        let w0 = teams.0[0].stats().wait as int;
        vstd::arithmetic::div_mod::lemma_mod_bound(round, w0);
    }
}

proof fn lemma_ends(teams: (Seq<Monster>, Seq<Monster>), round: int, w: int, h: int)
    requires
        all_sound(teams.0, w, h),
        all_sound(teams.1, w, h),
        w >= 1,
        round >= 0,
        round + pace(teams, round, w) <= i32::MAX,
    ensures
        exists|n: nat| ends_after(teams, round, n),
    decreases pace(teams, round, w),
{
    lemma_pace_nonneg(teams, round, w, h);
    if finished(teams) {
        assert(fight(teams, round, 0) == teams);
        assert(ends_after(teams, round, 0));
    } else {
        let next = round_of(teams, round + 1);
        lemma_round(teams, round + 1, w, h);
        let n: nat;
        if finished(next) {
            assert(fight(next, round + 1, 0) == next);
            assert(ends_after(next, round + 1, 0));
            n = 0;
        } else {
            let p = power(teams.0) + power(teams.1);
            let p2 = power(next.0) + power(next.1);
            let w0 = teams.0[0].stats().wait as int;
            let w1 = next.0[0].stats().wait as int;
            assert(sound(teams.0[0], w, h));
            assert(sound(next.0[0], w, h));
            vstd::arithmetic::div_mod::lemma_mod_bound(round, w0);
            vstd::arithmetic::div_mod::lemma_mod_bound(round + 1, w1);
            if p2 < p {
                assert(p2 * (w + 1) <= (p - 1) * (w + 1)) by (nonlinear_arith)
                    requires
                        p2 <= p - 1,
                        w >= 1,
                ;
                assert((p - 1) * (w + 1) == p * (w + 1) - w - 1) by (nonlinear_arith);
            } else {
                assert(next == teams);
                assert(!on_beat(round + 1, w0));
                lemma_next_beat(round, w0);
            }
            assert(pace(next, round + 1, w) < pace(teams, round, w));
            lemma_pace_nonneg(next, round + 1, w, h);
            lemma_ends(next, round + 1, w, h);
            n = choose|n: nat| #[trigger] ends_after(next, round + 1, n);
        }
        assert(fight(teams, round, n + 1) == fight(next, round + 1, n));
        assert forall|j: nat| j < n + 1 implies !finished(#[trigger] fight(teams, round, j))
            && round_ok(fight(teams, round, j), round + j + 1) by {
            if j == 0 {
                assert(fight(teams, round, 0) == teams);
            } else {
                assert(fight(teams, round, j) == fight(next, round + 1, (j - 1) as nat));
            }
        }
        assert(ends_after(teams, round, n + 1));
    }
}

/// A battle between teams of sound monsters always ends, without a fault, when the health
/// on both sides is small enough for the rounds to be counted in an `i32`.
pub proof fn lemma_battle_ends(team1: Seq<Monster>, team2: Seq<Monster>, w: int, h: int)
    requires
        all_sound(team1, w, h),
        all_sound(team2, w, h),
        w >= 1,
        (power(team1) + power(team2) + 1) * (w + 1) <= i32::MAX,
    ensures
        battle_ends(team1, team2),
{
    let teams = (team1, team2);
    lemma_power_nonneg(team1);
    lemma_power_nonneg(team2);
    if team1.len() > 0 {
        assert(sound(team1[0], w, h));
        vstd::arithmetic::div_mod::lemma_mod_bound(0, team1[0].stats().wait as int);
    }
    let p = power(team1) + power(team2);
    assert((p + 1) * (w + 1) == p * (w + 1) + w + 1) by (nonlinear_arith);
    lemma_ends(teams, 0, w, h);
}

/// Sound monsters stay sound through a battle, and no team grows.
pub proof fn lemma_fight_sound(teams: (Seq<Monster>, Seq<Monster>), round: int, n: nat, w: int, h: int)
    requires
        all_sound(teams.0, w, h),
        all_sound(teams.1, w, h),
        ends_after(teams, round, n),
    ensures
        all_sound(fight(teams, round, n).0, w, h),
        all_sound(fight(teams, round, n).1, w, h),
        fight(teams, round, n).0.len() <= teams.0.len(),
        fight(teams, round, n).1.len() <= teams.1.len(),
    decreases n,
{
    if n > 0 {
        assert(fight(teams, round, 0) == teams);
        assert(!finished(teams));
        let next = round_of(teams, round + 1);
        lemma_round(teams, round + 1, w, h);
        assert forall|j: nat| j < (n - 1) as nat implies !finished(#[trigger] fight(next, round + 1, j))
            && round_ok(fight(next, round + 1, j), round + 1 + j + 1) by {
            assert(fight(teams, round, j + 1) == fight(next, round + 1, j));
        }
        assert(fight(teams, round, n) == fight(next, round + 1, (n - 1) as nat));
        lemma_fight_sound(next, round + 1, (n - 1) as nat, w, h);
    }
}

/// A ninja of the enemy squad, maybe wounded: strikes for 150 every round, still alive.
pub open spec fn striker(m: Monster) -> bool {
    &&& m is Ninja
    &&& m.stats().attack == 150
    &&& m.stats().wait == 1
    &&& 1 <= m.stats().health <= 30
}

pub open spec fn all_strikers(s: Seq<Monster>) -> bool {
    forall|k: int| 0 <= k < s.len() ==> striker(#[trigger] s[k])
}

pub open spec fn all_recruits(s: Seq<Monster>) -> bool {
    forall|k: int| 0 <= k < s.len() ==> recruit(#[trigger] s[k])
}

proof fn lemma_recruit_sound(m: Monster)
    requires
        recruit(m),
    ensures
        sound(m, 6, 55),
{
}

proof fn lemma_recruits_sound(s: Seq<Monster>)
    requires
        all_recruits(s),
    ensures
        all_sound(s, 6, 55),
{
    assert forall|k: int| 0 <= k < s.len() implies sound(#[trigger] s[k], 6, 55) by {
        lemma_recruit_sound(s[k]);
    }
}

/// In round 1 the recruits' volley leaves the five strikers standing: only ninjas strike
/// (golems wait six rounds), five points each, and the first striker has more health left
/// than five points per remaining blow.
proof fn lemma_recruit_volley(att: Seq<Monster>, i: int, def: Seq<Monster>)
    requires
        0 <= i <= att.len() <= 5,
        all_recruits(att),
        def.len() == 5,
        all_strikers(def),
        def[0].stats().health >= 5 * (att.len() - i) + 1,
    ensures
        volley(att, i, def, 1).len() == 5,
        all_strikers(volley(att, i, def, 1)),
    decreases att.len() - i,
{
    if i < att.len() {
        let a = att[i];
        assert(recruit(a));
        assert(striker(def[0]));
        let x = strike(a, def[0], 1);
        let u = def.update(0, x);
        assert(on_beat(1, 1));
        vstd::arithmetic::div_mod::lemma_small_mod(1, 6);
        assert(!on_beat(1, 6));
        assert forall|k: int| 0 <= k < u.len() implies !(#[trigger] u[k]).stats().dead() by {
            assert(striker(def[k]));
        }
        lemma_living_alive(u);
        assert forall|k: int| 0 <= k < u.len() implies striker(#[trigger] u[k]) by {
            assert(striker(def[k]));
        }
        lemma_recruit_volley(att, i + 1, u);
    }
}

proof fn lemma_living_first_dead(u: Seq<Monster>)
    requires
        u.len() >= 1,
        u[0].stats().dead(),
        forall|k: int| 1 <= k < u.len() ==> !(#[trigger] u[k]).stats().dead(),
    ensures
        living(u) == u.drop_first(),
    decreases u.len(),
{
    let d = u.drop_last();
    if u.len() == 1 {
        assert(d.len() == 0);
        assert(living(u) == living(d));
        assert(u.drop_first() =~= Seq::<Monster>::empty());
    } else {
        assert(!u[u.len() - 1].stats().dead());
        assert forall|k: int| 1 <= k < d.len() implies !(#[trigger] d[k]).stats().dead() by {
            assert(d[k] == u[k]);
        }
        lemma_living_first_dead(d);
        assert(d.drop_first().push(u.last()) =~= u.drop_first());
    }
}

/// In round 1 each striker kills the recruit in front of it, one per blow.
proof fn lemma_squad_volley(att: Seq<Monster>, j: int, def: Seq<Monster>)
    requires
        0 <= j <= att.len(),
        all_strikers(att),
        def.len() <= att.len() - j,
        forall|k: int| 0 <= k < def.len() ==> 1 <= (#[trigger] def[k]).stats().health <= 55,
    ensures
        volley(att, j, def, 1).len() == 0,
    decreases att.len() - j,
{
    if def.len() > 0 {
        let a = att[j];
        assert(striker(a));
        let x = strike(a, def[0], 1);
        let u = def.update(0, x);
        assert(on_beat(1, 1));
        assert(u[0].stats().dead());
        assert forall|k: int| 1 <= k < u.len() implies !(#[trigger] u[k]).stats().dead() by {
            assert(u[k] == def[k]);
        }
        lemma_living_first_dead(u);
        let d = living(u);
        assert forall|k: int| 0 <= k < d.len() implies 1 <= (#[trigger] d[k]).stats().health <= 55 by {
            assert(d[k] == def[k + 1]);
        }
        if d.len() > 0 {
            lemma_squad_volley(att, j + 1, d);
        }
    }
}

/// A player's team of at most five fresh level-1 monsters always loses to the squad of
/// five level-30 ninjas, in the first round.
pub proof fn lemma_player_loses(team: Seq<Monster>, enemy: Seq<Monster>)
    requires
        0 < team.len() <= 5,
        all_recruits(team),
        enemy_squad(enemy),
    ensures
        ends_after((team, enemy), 0, 1),
        fight((team, enemy), 0, 1).0.len() == 0,
{
    assert forall|k: int| 0 <= k < enemy.len() implies striker(#[trigger] enemy[k]) by {
        assert(is_ninja(enemy[k], 30));
    }
    lemma_recruit_volley(team, 0, enemy);
    let v = volley(team, 0, enemy, 1);
    assert forall|k: int| 0 <= k < team.len() implies 1 <= (#[trigger] team[k]).stats().health <= 55 by {
        assert(recruit(team[k]));
    }
    lemma_squad_volley(v, 0, team);
    lemma_recruits_sound(team);
    assert forall|k: int| 0 <= k < enemy.len() implies sound(#[trigger] enemy[k], 6, 55) by {
        assert(striker(enemy[k]));
    }
    assert forall|k: int| 0 <= k < v.len() implies sound(#[trigger] v[k], 6, 55) by {
        assert(striker(v[k]));
    }
    lemma_volley(team, 0, enemy, 1, 6, 55);
    lemma_volley(v, 0, team, 1, 6, 55);
    assert(fight((team, enemy), 0, 0) == (team, enemy));
    assert(fight((team, enemy), 0, 1) == fight(round_of((team, enemy), 1), 1, 0));
}

/// Every monster of `s` is alive.
pub open spec fn all_alive(s: Seq<Monster>) -> bool {
    forall|k: int| 0 <= k < s.len() ==> !(#[trigger] s[k]).stats().dead()
}

/// In `round`, every blow that a monster of `att` deals to a monster of `def` kills it.
pub open spec fn lethal(att: Seq<Monster>, def: Seq<Monster>, round: int) -> bool {
    forall|a: int, d: int| 0 <= a < att.len() && 0 <= d < def.len() ==> (#[trigger] strike(att[a], def[d], round)).stats().dead()
}

proof fn lemma_living_front_dead(u: Seq<Monster>)
    requires
        u.len() >= 1,
        u[0].stats().dead(),
        forall|k: int| 1 <= k < u.len() ==> !(#[trigger] u[k]).stats().dead(),
    ensures
        living(u) == u.drop_first(),
    decreases u.len(),
{
    let d = u.drop_last();
    if u.len() == 1 {
        assert(d.len() == 0);
        assert(living(u) == living(d));
        assert(u.drop_first() =~= Seq::<Monster>::empty());
    } else {
        assert(!u[u.len() - 1].stats().dead());
        assert forall|k: int| 1 <= k < d.len() implies !(#[trigger] d[k]).stats().dead() by {
            assert(d[k] == u[k]);
        }
        lemma_living_front_dead(d);
        assert(d.drop_first().push(u.last()) =~= u.drop_first());
    }
}

/// When every blow kills, a volley goes on after each kill with the next attacker and
/// stops only when the defenders are all gone: the attackers from the `i`-th on kill one
/// defender each, from the front, as long as any is left.
pub proof fn lemma_lethal_volley(att: Seq<Monster>, i: int, def: Seq<Monster>, round: int)
    requires
        0 <= i <= att.len(),
        all_alive(def),
        lethal(att, def, round),
    ensures
        volley(att, i, def, round) == if def.len() > att.len() - i {
            def.skip(att.len() - i)
        } else {
            Seq::<Monster>::empty()
        },
    decreases att.len() - i,
{
    if i == att.len() || def.len() == 0 {
        assert(def.skip(0) =~= def);
        assert(def.len() == 0 ==> def =~= Seq::<Monster>::empty());
    } else {
        let x = strike(att[i], def[0], round);
        assert(x.stats().dead());
        let u = def.update(0, x);
        assert forall|k: int| 1 <= k < u.len() implies !(#[trigger] u[k]).stats().dead() by {
            assert(u[k] == def[k]);
        }
        lemma_living_front_dead(u);
        let d = living(u);
        assert(d =~= def.drop_first());
        if d.len() > 0 {
            assert forall|k: int| 0 <= k < d.len() implies !(#[trigger] d[k]).stats().dead() by {
                assert(d[k] == def[k + 1]);
            }
            assert forall|a: int, k: int| 0 <= a < att.len() && 0 <= k < d.len() implies (#[trigger] strike(att[a], d[k], round)).stats().dead() by {
                assert(d[k] == def[k + 1]);
            }
            lemma_lethal_volley(att, i + 1, d, round);
            if def.len() > att.len() - i {
                assert(d.skip(att.len() - i - 1) =~= def.skip(att.len() - i));
            }
        } else {
            assert(d =~= Seq::<Monster>::empty());
        }
    }
}

/// When every blow of the round kills, on both sides: the first team's monsters kill one
/// monster each from the front of the second team, and the second team's survivors, if
/// any, strike back in the same round and kill one each from the front of the first team.
pub proof fn lemma_lethal_round(t1: Seq<Monster>, t2: Seq<Monster>, round: int)
    requires
        all_alive(t1),
        all_alive(t2),
        lethal(t1, t2, round),
        lethal(t2, t1, round),
    ensures
        round_of((t1, t2), round).1 == if t2.len() > t1.len() {
            t2.skip(t1.len() as int)
        } else {
            Seq::<Monster>::empty()
        },
        round_of((t1, t2), round).0 == if t2.len() > t1.len() {
            if t1.len() > t2.len() - t1.len() {
                t1.skip(t2.len() - t1.len())
            } else {
                Seq::<Monster>::empty()
            }
        } else {
            t1
        },
{
    lemma_lethal_volley(t1, 0, t2, round);
    let s = volley(t1, 0, t2, round);
    if t2.len() > t1.len() {
        assert forall|a: int, k: int| 0 <= a < s.len() && 0 <= k < t1.len() implies (#[trigger] strike(s[a], t1[k], round)).stats().dead() by {
            assert(s[a] == t2[a + t1.len()]);
        }
        lemma_lethal_volley(s, 0, t1, round);
    } else {
        assert(s.len() == 0);
    }
}

/// A battle whose first round is deadly on both sides and runs without a fault is decided
/// in that round when the first team is at least as large as the second (it wins, with no
/// loss) or the second is at least twice as large (the first team loses every monster).
pub proof fn lemma_lethal_battle(t1: Seq<Monster>, t2: Seq<Monster>)
    requires
        t1.len() > 0,
        t2.len() > 0,
        all_alive(t1),
        all_alive(t2),
        lethal(t1, t2, 1),
        lethal(t2, t1, 1),
        round_ok((t1, t2), 1),
        t1.len() >= t2.len() || t2.len() >= 2 * t1.len(),
    ensures
        ends_after((t1, t2), 0, 1),
        forall|n: nat| ends_after((t1, t2), 0, n) ==> n == 1,
        t1.len() >= t2.len() ==> fight((t1, t2), 0, 1) == (t1, Seq::<Monster>::empty()),
        t2.len() >= 2 * t1.len() ==> fight((t1, t2), 0, 1) == (Seq::<Monster>::empty(), t2.skip(t1.len() as int)),
{
    lemma_lethal_round(t1, t2, 1);
    assert(fight((t1, t2), 0, 0) == (t1, t2));
    assert(fight((t1, t2), 0, 1) == fight(round_of((t1, t2), 1), 1, 0));
    assert(ends_after((t1, t2), 0, 1));
    assert forall|n: nat| ends_after((t1, t2), 0, n) implies n == 1 by {
        if n == 0 {
            assert(!finished(fight((t1, t2), 0, 0)));
        } else if n > 1 {
            assert(!finished(#[trigger] fight((t1, t2), 0, 1)));
        }
    }
}

} // verus!
