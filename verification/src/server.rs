//! The rules of the online game: monsters never dodge, and a player's team fights a
//! squad of five ninjas.
use vstd::prelude::*;
use crate::logic::{Logic, Target, on_beat, beat_defined, ninja_name, golem_name, ninja_stats, golem_stats};
use crate::text::{Side, column, cut_safe, decimal, fill, pad_column, pad_text, push_decimal};
use crate::server_laws::{all_recruits, lemma_player_loses};

verus! {

pub struct Ninja {
    pub logic: Logic,
}

pub struct Golem {
    pub logic: Logic,
}

/// A monster of either kind.
pub enum Monster {
    Ninja(Ninja),
    Golem(Golem),
}

impl Ninja {
    pub fn new(level: i32) -> (r: Ninja)
        requires
            i32::MIN <= level * 5 <= i32::MAX,
        ensures
            ninja_stats(r.logic, level as int),
    {
        let name = String::from_str("Ninja");
        proof {
            reveal_strlit("Ninja");
            assert(name@ =~= ninja_name());
        }
        let logic = Logic {
            stars: 3,
            level: level,
            health: level * 1,
            attack: level * 5,
            wait: 1,
            name: name,
        };
        Ninja { logic }
    }

    pub fn get_logic(&self) -> (r: &Logic)
        ensures
            *r == self.logic,
    {
        &self.logic
    }

    pub fn get_mut_logic(&mut self) -> (r: &mut Logic)
        ensures
            *r == old(self).logic,
            final(self).logic == *final(r),
    {
        &mut self.logic
    }

    /// Online ninjas have no special move.
    pub fn special(&self, round: i32) -> (r: bool)
        ensures
            !r,
    {
        false
    }
}

impl Golem {
    pub fn new(level: i32) -> (r: Golem)
        requires
            i32::MIN <= level * 55 <= i32::MAX,
        ensures
            golem_stats(r.logic, level as int),
    {
        let name = String::from_str("Golem");
        proof {
            reveal_strlit("Golem");
            assert(name@ =~= golem_name());
        }
        let logic = Logic {
            stars: 3,
            level: level,
            health: level * 55,
            attack: level * 7,
            wait: 6,
            name: name,
        };
        Golem { logic }
    }

    pub fn get_logic(&self) -> (r: &Logic)
        ensures
            *r == self.logic,
    {
        &self.logic
    }

    pub fn get_mut_logic(&mut self) -> (r: &mut Logic)
        ensures
            *r == old(self).logic,
            final(self).logic == *final(r),
    {
        &mut self.logic
    }

    /// Golems have no special move.
    pub fn special(&self, round: i32) -> (r: bool)
        ensures
            !r,
    {
        false
    }
}

impl Monster {
    /// The numbers of the monster, whatever its kind.
    pub open spec fn stats(self) -> Logic {
        match self {
            Monster::Ninja(n) => n.logic,
            Monster::Golem(g) => g.logic,
        }
    }

    /// The same kind of monster with the numbers `l`.
    pub open spec fn with_stats(self, l: Logic) -> Monster {
        match self {
            Monster::Ninja(_) => Monster::Ninja(Ninja { logic: l }),
            Monster::Golem(_) => Monster::Golem(Golem { logic: l }),
        }
    }

    pub fn get_logic(&self) -> (r: &Logic)
        ensures
            *r == self.stats(),
    {
        match self {
            Monster::Ninja(n) => n.get_logic(),
            Monster::Golem(g) => g.get_logic(),
        }
    }

    pub fn get_mut_logic(&mut self) -> (r: &mut Logic)
        ensures
            *r == old(self).stats(),
            *final(self) == old(self).with_stats(*final(r)),
    {
        match self {
            Monster::Ninja(n) => n.get_mut_logic(),
            Monster::Golem(g) => g.get_mut_logic(),
        }
    }

    /// No monster of the online game dodges a blow.
    pub fn special(&self, round: i32) -> (r: bool)
        ensures
            !r,
    {
        match self {
            Monster::Ninja(n) => n.special(round),
            Monster::Golem(g) => g.special(round),
        }
    }

    pub fn shout(&self) -> (r: String)
        ensures
            r@ == crate::logic::shout_text(
                self.stats().name@,
                self.stats().health as int,
                self.stats().attack as int,
                self.stats().level as int,
            ),
    {
        self.get_logic().shout()
    }

    /// Strikes `other` when `round` is one of this monster's beats.
    pub fn attack(&self, other: &mut Monster, round: i32)
        requires
            strike_ok(*self, *old(other), round as int),
        ensures
            *final(other) == strike(*self, *old(other), round as int),
    {
        self.get_logic().attack(other, round)
    }

    pub fn is_dead(&self) -> (r: bool)
        ensures
            r == self.stats().dead(),
    {
        self.get_logic().is_dead()
    }

    /// Caps the monster's level at ten per star.
    pub fn star_check(&mut self)
        requires
            i32::MIN <= old(self).stats().star_cap() <= i32::MAX,
        ensures
            *final(self) == old(self).with_stats(
                Logic {
                    level: if old(self).stats().level > old(self).stats().star_cap() {
                        old(self).stats().star_cap() as i32
                    } else {
                        old(self).stats().level
                    },
                    ..old(self).stats()
                },
            ),
    {
        self.get_mut_logic().star_check()
    }
}

impl Target for Monster {
    open spec fn can_take(&self, amount: int, round: int) -> bool {
        i32::MIN <= self.stats().health - amount <= i32::MAX
    }

    open spec fn took(&self, amount: int, round: int) -> Monster {
        self.with_stats(self.stats().lowered(amount))
    }

    /// Takes a blow, unless the monster's special move saves it.
    fn hurt(&mut self, amount: i32, round: i32) {
        if !self.special(round) {
            self.get_mut_logic().hurt(amount, round)
        }
    }
}

/// What `t` becomes when `a` strikes it in `round`.
pub open spec fn strike(a: Monster, t: Monster, round: int) -> Monster {
    if on_beat(round, a.stats().wait as int) {
        t.took(a.stats().attack as int, round)
    } else {
        t
    }
}

/// `a` can strike `t` in `round` without a fault.
pub open spec fn strike_ok(a: Monster, t: Monster, round: int) -> bool {
    &&& beat_defined(round, a.stats().wait as int)
    &&& on_beat(round, a.stats().wait as int) ==> t.can_take(a.stats().attack as int, round)
}

/// The monsters of `s` that are still alive, in their order.
pub open spec fn living(s: Seq<Monster>) -> Seq<Monster>
    decreases s.len(),
{
    if s.len() == 0 {
        s
    } else if s.last().stats().dead() {
        living(s.drop_last())
    } else {
        living(s.drop_last()).push(s.last())
    }
}

/// What the defenders `def` become when the attackers `att`, from the `i`-th on, strike
/// in turn the first of them, the dead being cleared after each blow and the volley
/// stopping when no defender is left.
pub open spec fn volley(att: Seq<Monster>, i: int, def: Seq<Monster>, round: int) -> Seq<Monster>
    decreases att.len() - i,
{
    if i < 0 || i >= att.len() || def.len() == 0 {
        def
    } else {
        let d = living(def.update(0, strike(att[i], def[0], round)));
        if d.len() == 0 {
            d
        } else {
            volley(att, i + 1, d, round)
        }
    }
}

/// Every blow of that volley finds a defender and strikes it without a fault.
pub open spec fn volley_ok(att: Seq<Monster>, i: int, def: Seq<Monster>, round: int) -> bool
    decreases att.len() - i,
{
    if i < 0 || i >= att.len() {
        true
    } else {
        &&& def.len() > 0
        &&& strike_ok(att[i], def[0], round)
        &&& ({
            let d = living(def.update(0, strike(att[i], def[0], round)));
            d.len() == 0 || volley_ok(att, i + 1, d, round)
        })
    }
}

pub struct Team {
    pub monsters: Vec<Monster>,
}

proof fn lemma_living_step(s: Seq<Monster>, j: int)
    requires
        0 <= j < s.len(),
    ensures
        living(s.take(j + 1)) == if s[j].stats().dead() {
            living(s.take(j))
        } else {
            living(s.take(j)).push(s[j])
        },
{
    assert(s.take(j + 1).drop_last() =~= s.take(j));
    assert(s.take(j + 1).last() == s[j]);
}

impl Team {
    pub fn new() -> (r: Team)
        ensures
            r.monsters@.len() == 0,
    {
        Team { monsters: Vec::new() }
    }

    /// Removes the dead monsters.
    pub fn cleanup(&mut self)
        ensures
            final(self).monsters@ == living(old(self).monsters@),
    {
        let ghost orig = self.monsters@;
        let mut i: usize = 0;
        let ghost mut j: int = 0;
        assert(orig.take(0) =~= Seq::<Monster>::empty());
        assert(orig.skip(0) =~= orig);
        while i < self.monsters.len()
            invariant
                0 <= j <= orig.len(),
                self.monsters@ =~= living(orig.take(j)) + orig.skip(j),
                i == living(orig.take(j)).len(),
            decreases self.monsters.len() - i,
        {
            proof {
                lemma_living_step(orig, j);
                assert(self.monsters@[i as int] == orig[j]);
            }
            if self.monsters[i].is_dead() {
                self.monsters.remove(i);
                proof {
                    assert(orig.skip(j).drop_first() =~= orig.skip(j + 1));
                    j = j + 1;
                }
            } else {
                i = i + 1;
                proof {
                    assert(orig.skip(j).drop_first() =~= orig.skip(j + 1));
                    j = j + 1;
                }
            }
        }
        proof {
            assert(orig.skip(j).len() == 0);
            assert(orig.take(j) =~= orig);
        }
    }

    pub fn is_dead(&self) -> (r: bool)
        ensures
            r == (self.monsters@.len() == 0),
    {
        self.monsters.is_empty()
    }

    /// Each monster of this team in turn strikes the first monster of `other`; the dead
    /// of `other` are cleared after each blow, and the volley stops when `other` is empty.
    pub fn attack(&self, other: &mut Team, round: i32)
        requires
            volley_ok(self.monsters@, 0, old(other).monsters@, round as int),
        ensures
            final(other).monsters@ == volley(self.monsters@, 0, old(other).monsters@, round as int),
    {
        let n = self.monsters.len();
        let mut i: usize = 0;
        while i < n
            invariant
                i <= n,
                n == self.monsters@.len(),
                volley(self.monsters@, i as int, other.monsters@, round as int)
                    == volley(self.monsters@, 0, old(other).monsters@, round as int),
                volley_ok(self.monsters@, i as int, other.monsters@, round as int),
            decreases n - i,
        {
            self.monsters[i].attack(&mut other.monsters[0], round);
            other.cleanup();
            if other.is_dead() {
                return;
            }
            i = i + 1;
        }
    }
}

/// One of the two teams has no monster left.
pub open spec fn finished(teams: (Seq<Monster>, Seq<Monster>)) -> bool {
    teams.0.len() == 0 || teams.1.len() == 0
}

/// Round `round` of a battle: the first team strikes the second, then what is left of the
/// second strikes the first.
pub open spec fn round_of(teams: (Seq<Monster>, Seq<Monster>), round: int) -> (Seq<Monster>, Seq<Monster>) {
    let second = volley(teams.0, 0, teams.1, round);
    (volley(second, 0, teams.0, round), second)
}

/// Round `round` runs without a fault.
pub open spec fn round_ok(teams: (Seq<Monster>, Seq<Monster>), round: int) -> bool {
    &&& volley_ok(teams.0, 0, teams.1, round)
    &&& volley_ok(volley(teams.0, 0, teams.1, round), 0, teams.0, round)
}

/// The teams after `n` more rounds, the last round played so far being `round`.
pub open spec fn fight(teams: (Seq<Monster>, Seq<Monster>), round: int, n: nat) -> (Seq<Monster>, Seq<Monster>)
    decreases n,
{
    if n == 0 {
        teams
    } else {
        fight(round_of(teams, round + 1), round + 1, (n - 1) as nat)
    }
}

/// Played on from `round`, the battle ends after exactly `n` more rounds, each of which
/// runs without a fault, and round numbers stay within `i32`.
pub open spec fn ends_after(teams: (Seq<Monster>, Seq<Monster>), round: int, n: nat) -> bool {
    &&& round + n <= i32::MAX
    &&& finished(fight(teams, round, n))
    &&& forall|j: nat| j < n ==> !finished(#[trigger] fight(teams, round, j)) && round_ok(fight(teams, round, j), round + j + 1)
}

/// The battle from these teams ends, without a fault, within the rounds an `i32` counts.
pub open spec fn battle_ends(team1: Seq<Monster>, team2: Seq<Monster>) -> bool {
    exists|n: nat| ends_after((team1, team2), 0, n)
}

proof fn lemma_ends_unique(teams: (Seq<Monster>, Seq<Monster>), round: int, n: nat, m: nat)
    requires
        ends_after(teams, round, n),
        ends_after(teams, round, m),
    ensures
        n == m,
{
    if n < m {
        assert(!finished(fight(teams, round, n)));
    }
    if m < n {
        assert(!finished(fight(teams, round, m)));
    }
}

proof fn lemma_ends_step(teams: (Seq<Monster>, Seq<Monster>), round: int, n: nat)
    requires
        ends_after(teams, round, n),
        !finished(teams),
    ensures
        n > 0,
        round_ok(teams, round + 1),
        ends_after(round_of(teams, round + 1), round + 1, (n - 1) as nat),
        fight(teams, round, n) == fight(round_of(teams, round + 1), round + 1, (n - 1) as nat),
{
    assert(fight(teams, round, 0) == teams);
    let next = round_of(teams, round + 1);
    assert forall|j: nat| j < (n - 1) as nat implies !finished(#[trigger] fight(next, round + 1, j))
        && round_ok(fight(next, round + 1, j), round + 1 + j + 1) by {
        assert(fight(teams, round, j + 1) == fight(next, round + 1, j));
    }
}

/// Two teams fight round after round until one of them has no monster left; answers
/// whether the first team lost.
pub fn battle(team1: &mut Team, team2: &mut Team) -> (lost: bool)
    requires
        battle_ends(old(team1).monsters@, old(team2).monsters@),
    ensures
        exists|n: nat|
            {
                &&& ends_after((old(team1).monsters@, old(team2).monsters@), 0, n)
                &&& (final(team1).monsters@, final(team2).monsters@)
                    == fight((old(team1).monsters@, old(team2).monsters@), 0, n)
            },
        lost == (final(team1).monsters@.len() == 0),
{
    let ghost start = (team1.monsters@, team2.monsters@);
    let ghost n = choose|n: nat| ends_after(start, 0, n);
    let mut round: i32 = 0;
    while !team1.is_dead() && !team2.is_dead()
        invariant
            0 <= round <= n,
            ends_after((team1.monsters@, team2.monsters@), round as int, (n - round) as nat),
            fight(start, 0, n) == fight((team1.monsters@, team2.monsters@), round as int, (n - round) as nat),
            ends_after(start, 0, n),
        decreases n - round,
    {
        proof {
            lemma_ends_step((team1.monsters@, team2.monsters@), round as int, (n - round) as nat);
        }
        round = round + 1;
        team1.attack(team2, round);
        team2.attack(team1, round);
    }
    proof {
        let m = (n - round) as nat;
        let cur = (team1.monsters@, team2.monsters@);
        assert(fight(cur, round as int, 0) == cur);
        if m > 0 {
            assert(!finished(fight(cur, round as int, 0)));
        }
    }
    team1.is_dead()
}

/// `m` is a fresh ninja of `level`.
pub open spec fn is_ninja(m: Monster, level: int) -> bool {
    m is Ninja && ninja_stats(m.stats(), level)
}

/// `m` is a fresh golem of `level`.
pub open spec fn is_golem(m: Monster, level: int) -> bool {
    m is Golem && golem_stats(m.stats(), level)
}

/// A monster the shop sells: a fresh ninja or golem of level 1.
pub open spec fn recruit(m: Monster) -> bool {
    is_ninja(m, 1) || is_golem(m, 1)
}

/// Five fresh ninjas of level 30.
pub open spec fn enemy_squad(s: Seq<Monster>) -> bool {
    s.len() == 5 && forall|k: int| 0 <= k < 5 ==> is_ninja(#[trigger] s[k], 30)
}

/// The squad that every player fights: five ninjas of level 30.
pub fn set_up() -> (team: Team)
    ensures
        enemy_squad(team.monsters@),
{
    let mut team = Team::new();
    team.monsters.push(Monster::Ninja(Ninja::new(30)));
    team.monsters.push(Monster::Ninja(Ninja::new(30)));
    team.monsters.push(Monster::Ninja(Ninja::new(30)));
    team.monsters.push(Monster::Ninja(Ninja::new(30)));
    team.monsters.push(Monster::Ninja(Ninja::new(30)));
    team
}

/// What a player asks the server for.
#[derive(Clone, Copy, Debug, PartialEq, Eq, Structural)]
pub enum Request {
    Battle,
    AddMonster(u32),
}

/// What the server answers: whether the player won, or why nothing happened.
#[derive(Debug, PartialEq, Eq)]
pub enum Response {
    Battle(Result<bool, String>),
    AddMonster(Result<(), String>),
}

/// The most monsters a team may hold.
pub const TEAM_SIZE: usize = 5;

/// A player of the online game, with the team it has bought.
pub struct Player {
    team: Team,
    money: u32,
    name: String,
    level: u32,
    id: u128,
}

/// A monster the shop sells for the choice `data`: 1 for a ninja, 2 for a golem.
pub open spec fn bought(m: Monster, data: u32) -> bool {
    ||| data == 1 && is_ninja(m, 1)
    ||| data == 2 && is_golem(m, 1)
}

/// The answer to a battle request from a player with no monster.
pub open spec fn no_monsters_text() -> Seq<char> {
    seq!['y', 'o', 'u', ' ', 'h', 'a', 'v', 'e', ' ', 'n', 'o', ' ', 'm', 'o', 'n', 's', 't', 'e', 'r', 's', ' ',
        'g', 'o', ' ', 'b', 'u', 'y', ' ', 's', 'o', 'm', 'e', '!']
}

/// The answer to a purchase from a player whose team is full.
pub open spec fn team_full_text() -> Seq<char> {
    seq!['y', 'o', 'u', ' ', 'h', 'a', 'v', 'e', ' ', '5', ' ', 'p', 'l', 'e', 'a', 's', 'e', ' ',
        'b', 'a', 't', 't', 'l', 'e']
}

impl Player {
    /// A player's team holds at most five monsters, each a fresh one from the shop.
    #[verifier::type_invariant]
    spec fn well_formed(self) -> bool {
        &&& self.team.monsters@.len() <= TEAM_SIZE
        &&& all_recruits(self.team.monsters@)
    }

    pub closed spec fn roster(self) -> Seq<Monster> {
        self.team.monsters@
    }

    pub closed spec fn purse(self) -> u32 {
        self.money
    }

    pub closed spec fn title(self) -> Seq<char> {
        self.name@
    }

    pub closed spec fn rank(self) -> u32 {
        self.level
    }

    pub closed spec fn number(self) -> u128 {
        self.id
    }

    /// A new player of level 1 with no monster.
    pub fn new(name: String, money: u32, id: u128) -> (p: Player)
        ensures
            p.roster().len() == 0,
            p.purse() == money,
            p.title() == name@,
            p.rank() == 1,
            p.number() == id,
    {
        Player { team: Team::new(), money, name, id, level: 1 }
    }

    /// The player's team, which never holds more than five monsters.
    pub fn team(&self) -> (r: &Team)
        ensures
            r.monsters@ == self.roster(),
            r.monsters@.len() <= TEAM_SIZE,
    {
        proof {
            use_type_invariant(self);
        }
        &self.team
    }

    pub fn money(&self) -> (r: u32)
        ensures
            r == self.purse(),
    {
        self.money
    }

    pub fn name(&self) -> (r: &String)
        ensures
            r@ == self.title(),
    {
        &self.name
    }

    pub fn level(&self) -> (r: u32)
        ensures
            r == self.rank(),
    {
        self.level
    }

    pub fn id(&self) -> (r: u128)
        ensures
            r == self.number(),
    {
        self.id
    }
}

/// Serves one request of `player`. A battle pits the player's team against five ninjas of
/// level 30 and answers whether the player won, which never happens: the squad wipes out
/// the team in the first round. A player with no monster is told to buy some. A purchase adds a level-1 ninja (choice 1) or golem (choice 2) to a team of fewer
/// than five, and any other choice adds nothing; a full team is told to battle.
pub fn process_request(request: Request, player: &mut Player) -> (response: Response)
    ensures
        final(player).roster().len() <= TEAM_SIZE,
        final(player).purse() == old(player).purse(),
        final(player).title() == old(player).title(),
        final(player).rank() == old(player).rank(),
        final(player).number() == old(player).number(),
        request == Request::Battle && old(player).roster().len() == 0 ==> {
            &&& response matches Response::Battle(Err(e)) && e@ == no_monsters_text()
            &&& final(player).roster() == old(player).roster()
        },
        request == Request::Battle && old(player).roster().len() > 0 ==> {
            &&& response == Response::Battle(Ok(false))
            &&& final(player).roster().len() == 0
        },
        request matches Request::AddMonster(data) ==> old(player).roster().len() != TEAM_SIZE ==> {
            &&& response == Response::AddMonster(Ok(()))
            &&& final(player).roster().len() <= old(player).roster().len() + 1
            &&& final(player).roster().take(old(player).roster().len() as int) == old(player).roster()
            &&& (data == 1 || data == 2) == (final(player).roster().len() == old(player).roster().len() + 1)
            &&& (data == 1 || data == 2) ==> bought(final(player).roster().last(), data)
            &&& !(data == 1 || data == 2) ==> final(player).roster() == old(player).roster()
        },
        request is AddMonster && old(player).roster().len() == TEAM_SIZE ==> {
            &&& response matches Response::AddMonster(Err(e)) && e@ == team_full_text()
            &&& final(player).roster() == old(player).roster()
        },
{
    proof {
        use_type_invariant(&*player);
    }
    match request {
        Request::Battle => {
            let mut team2 = set_up();
            if !player.team.monsters.is_empty() {
                let mut team1 = Team::new();
                std::mem::swap(&mut team1, &mut player.team);
                let ghost t1 = team1.monsters@;
                let ghost t2 = team2.monsters@;
                proof {
                    lemma_player_loses(t1, t2);
                }
                let lost = battle(&mut team1, &mut team2);
                proof {
                    let n = choose|n: nat| {
                        &&& ends_after((t1, t2), 0, n)
                        &&& (team1.monsters@, team2.monsters@) == fight((t1, t2), 0, n)
                    };
                    lemma_ends_unique((t1, t2), 0, n, 1);
                }
                player.team = team1;
                if lost {
                    Response::Battle(Ok(false))
                } else {
                    Response::Battle(Ok(true))
                }
            } else {
                let text = String::from_str("you have no monsters go buy some!");
                proof {
                    reveal_strlit("you have no monsters go buy some!");
                    assert(text@ =~= no_monsters_text());
                }
                Response::Battle(Err(text))
            }
        },
        Request::AddMonster(data) => {
            if player.team.monsters.len() != TEAM_SIZE {
                let mut team = Team::new();
                std::mem::swap(&mut team, &mut player.team);
                let ghost before = team.monsters@;
                match data {
                    1 => team.monsters.push(Monster::Ninja(Ninja::new(1))),
                    2 => team.monsters.push(Monster::Golem(Golem::new(1))),
                    _ => {},
                };
                proof {
                    assert(team.monsters@.take(before.len() as int) =~= before);
                    assert forall|k: int| 0 <= k < team.monsters@.len() implies recruit(#[trigger] team.monsters@[k]) by {
                        if k < before.len() {
                            assert(team.monsters@[k] == before[k]);
                        }
                    }
                }
                player.team = team;
                Response::AddMonster(Ok(()))
            } else {
                let text = String::from_str("you have 5 please battle");
                proof {
                    reveal_strlit("you have 5 please battle");
                    assert(text@ =~= team_full_text());
                }
                Response::AddMonster(Err(text))
            }
        },
    }
}

/// The line `m` shouts.
pub open spec fn shout_of(m: Monster) -> Seq<char> {
    crate::logic::shout_text(m.stats().name@, m.stats().health as int, m.stats().attack as int, m.stats().level as int)
}

/// The line of every monster of `s` can be cut at 40 bytes (see `cut_safe`); so can every
/// line of plain ASCII.
pub open spec fn shouts_fit(s: Seq<Monster>) -> bool {
    forall|k: int| 0 <= k < s.len() ==> cut_safe(shout_of(#[trigger] s[k]), 40)
}

/// Line `i` of the battle board: the round number, then the `i`-th monster of each team in
/// a column of 40 characters, the first on the left, the second on the right.
pub open spec fn board_line(t1: Seq<Monster>, t2: Seq<Monster>, i: int) -> Seq<char> {
    seq!['r', 'o', 'u', 'n', 'd', ':', ' '] + decimal((i + 1) as nat) + fill(' ', 40) + (if i < t1.len() {
        pad_text(shout_of(t1[i]), 40, ' ', true, true)
    } else {
        fill(' ', 40)
    }) + (if i < t2.len() {
        pad_text(shout_of(t2[i]), 40, ' ', false, true) + seq!['\n']
    } else {
        Seq::empty()
    })
}

/// The first `k` lines of the board.
pub open spec fn board_lines(t1: Seq<Monster>, t2: Seq<Monster>, k: nat) -> Seq<char>
    decreases k,
{
    if k == 0 {
        Seq::empty()
    } else {
        board_lines(t1, t2, (k - 1) as nat) + board_line(t1, t2, k - 1)
    }
}

/// The board shows lines up to one past the longer team.
pub open spec fn board(t1: Seq<Monster>, t2: Seq<Monster>) -> Seq<char> {
    board_lines(t1, t2, (if t1.len() > t2.len() { t1.len() } else { t2.len() }) + 2)
}

proof fn lemma_board_lines_grow(t1: Seq<Monster>, t2: Seq<Monster>, m: nat, n: nat)
    requires
        m <= n,
    ensures
        board_lines(t1, t2, m).len() <= board_lines(t1, t2, n).len(),
        board_lines(t1, t2, n).take(board_lines(t1, t2, m).len() as int) == board_lines(t1, t2, m),
    decreases n,
{
    if m < n {
        lemma_board_lines_grow(t1, t2, m, (n - 1) as nat);
        let a = board_lines(t1, t2, (n - 1) as nat);
        assert(board_lines(t1, t2, n) == a + board_line(t1, t2, n - 1));
        assert((a + board_line(t1, t2, n - 1)).take(board_lines(t1, t2, m).len() as int)
            =~= a.take(board_lines(t1, t2, m).len() as int));
    } else {
        assert(board_lines(t1, t2, n).take(board_lines(t1, t2, n).len() as int) =~= board_lines(t1, t2, n));
    }
}

/// The board shows, for each `i` up to the longer team, right after the lines before it,
/// a line labelled `round: <i + 1>` with the `i`-th monster of the first team in the left
/// column and the `i`-th monster of the second team in the right column: the front
/// monsters on the first line, and each team in its order.
pub proof fn lemma_board_shows(t1: Seq<Monster>, t2: Seq<Monster>, i: int)
    requires
        0 <= i,
        i < t1.len() || i < t2.len(),
    ensures
        ({
            let before = board_lines(t1, t2, i as nat);
            let line = seq!['r', 'o', 'u', 'n', 'd', ':', ' '] + decimal((i + 1) as nat) + fill(' ', 40) + (if i < t1.len() {
                pad_text(shout_of(t1[i]), 40, ' ', true, true)
            } else {
                fill(' ', 40)
            }) + (if i < t2.len() {
                pad_text(shout_of(t2[i]), 40, ' ', false, true) + seq!['\n']
            } else {
                Seq::<char>::empty()
            });
            board(t1, t2).subrange(before.len() as int, (before.len() + line.len()) as int) == line
        }),
{
    let top: nat = if t1.len() > t2.len() { t1.len() } else { t2.len() };
    lemma_board_lines_grow(t1, t2, (i + 1) as nat, top + 2);
    let whole = board_lines(t1, t2, top + 2);
    let head = board_lines(t1, t2, (i + 1) as nat);
    let q = whole.skip(head.len() as int);
    assert(whole =~= head + q);
    let p = board_lines(t1, t2, i as nat);
    assert(board_lines(t1, t2, (i + 1) as nat) == p + board_line(t1, t2, i));
    let line = seq!['r', 'o', 'u', 'n', 'd', ':', ' '] + decimal((i + 1) as nat) + fill(' ', 40) + (if i < t1.len() {
        pad_text(shout_of(t1[i]), 40, ' ', true, true)
    } else {
        fill(' ', 40)
    }) + (if i < t2.len() {
        pad_text(shout_of(t2[i]), 40, ' ', false, true) + seq!['\n']
    } else {
        Seq::<char>::empty()
    });
    assert(board_line(t1, t2, i) == line);
    assert(board(t1, t2) =~= p + line + q);
    assert(board(t1, t2).subrange(p.len() as int, (p.len() + line.len()) as int) =~= line);
}

/// Appends `s` padded to 40 columns on `side`.
fn push_padded(print: &mut String, s: &str, side: Side)
    requires
        cut_safe(s@, 40),
    ensures
        final(print)@ == old(print)@ + pad_text(s@, 40, ' ', side == Side::Left, true),
{
    let p = pad_column(s, 40, ' ', side, true);
    print.append(p.as_str());
}

/// Appends the line `m` shouts, padded to 40 columns on `side`.
fn push_shout(print: &mut String, m: &Monster, side: Side)
    requires
        cut_safe(shout_of(*m), 40),
    ensures
        final(print)@ == old(print)@ + pad_text(shout_of(*m), 40, ' ', side == Side::Left, true),
{
    let s = m.shout();
    push_padded(print, s.as_str(), side);
}

/// Appends line `i` of the battle board.
fn push_board_line(print: &mut String, team1: &Team, team2: &Team, i: usize)
    requires
        shouts_fit(team1.monsters@),
        shouts_fit(team2.monsters@),
        i + 1 <= usize::MAX,
    ensures
        final(print)@ == old(print)@ + board_line(team1.monsters@, team2.monsters@, i as int),
{
    proof {
        reveal_strlit("");
        reveal_strlit("round: ");
        reveal_strlit("\n");
    }
    print.append("round: ");
    push_decimal(print, (i as u64) + 1);
    push_padded(print, "", Side::Left);
    if i < team1.monsters.len() {
        push_shout(print, &team1.monsters[i], Side::Left);
    } else {
        push_padded(print, "", Side::Left);
    }
    if i < team2.monsters.len() {
        push_shout(print, &team2.monsters[i], Side::Right);
        print.append("\n");
    }
    proof {
        assert(column(Seq::<char>::empty(), 40, ' ', true, true) =~= fill(' ', 40));
        assert(pad_text(Seq::<char>::empty(), 40, ' ', true, true) == column(Seq::<char>::empty(), 40, ' ', true, true));
        assert(print@ =~= old(print)@ + board_line(team1.monsters@, team2.monsters@, i as int));
    }
}

/// The battle board of two teams, side by side.
pub fn display(team1: &Team, team2: &Team) -> (print: String)
    requires
        shouts_fit(team1.monsters@),
        shouts_fit(team2.monsters@),
        team1.monsters@.len() + 2 <= usize::MAX,
        team2.monsters@.len() + 2 <= usize::MAX,
    ensures
        print@ == board(team1.monsters@, team2.monsters@),
{
    let ghost t1 = team1.monsters@;
    let ghost t2 = team2.monsters@;
    let ghost top: int = if t1.len() > t2.len() { t1.len() as int } else { t2.len() as int };
    let mut print = String::new();
    let mut i: usize = 0;
    loop
        invariant
            t1 == team1.monsters@,
            t2 == team2.monsters@,
            top == if t1.len() > t2.len() { t1.len() as int } else { t2.len() as int },
            shouts_fit(t1),
            shouts_fit(t2),
            t1.len() + 2 <= usize::MAX,
            t2.len() + 2 <= usize::MAX,
            i <= top + 1,
            print@ == board_lines(t1, t2, i as nat),
        decreases top + 1 - i,
    {
        push_board_line(&mut print, team1, team2, i);
        if i > team1.monsters.len() && i > team2.monsters.len() {
            return print;
        }
        i = i + 1;
    }
}

} // verus!
