//! The rules of the local arena: ninjas cloak on some beats and then take no blow, and
//! every team carries a name.
use vstd::prelude::*;
use crate::logic::{Logic, Target, on_beat, beat, beat_defined, ninja_name, golem_name, ninja_stats, golem_stats};
use crate::text::{Side, column, cut_safe, fill, pad_column, pad_text};

verus! {

pub struct Ninja {
    pub logic: Logic,
}

pub struct Golem {
    pub logic: Logic,
}

/// A monster of either kind.
pub enum Monster {
    Ninja(Ninja),
    Golem(Golem),
}

impl Ninja {
    pub fn new(level: i32) -> (r: Ninja)
        requires
            i32::MIN <= level * 5 <= i32::MAX,
        ensures
            ninja_stats(r.logic, level as int),
    {
        let name = String::from_str("Ninja");
        proof {
            reveal_strlit("Ninja");
            assert(name@ =~= ninja_name());
        }
        let logic = Logic {
            stars: 3,
            level: level,
            health: level * 1,
            attack: level * 5,
            wait: 1,
            name: name,
        };
        Ninja { logic }
    }

    pub fn get_logic(&self) -> (r: &Logic)
        ensures
            *r == self.logic,
    {
        &self.logic
    }

    pub fn get_mut_logic(&mut self) -> (r: &mut Logic)
        ensures
            *r == old(self).logic,
            final(self).logic == *final(r),
    {
        &mut self.logic
    }

    /// In the arena a ninja cloaks, and takes no blow, in the rounds that are its beats
    /// when its wait also divides 3.
    pub fn special(&self, round: i32) -> (r: bool)
        requires
            beat_defined(round as int, self.logic.wait as int),
        ensures
            r == (on_beat(round as int, self.logic.wait as int) && on_beat(3, self.logic.wait as int)),
    {
        if beat(round, self.logic.wait) {
            // `round % wait` is 0 here, so `wait + round % wait` is `wait`.
            if beat(3, self.logic.wait) {
                return true;
            }
        }
        return false;
    }
}

impl Golem {
    pub fn new(level: i32) -> (r: Golem)
        requires
            i32::MIN <= level * 55 <= i32::MAX,
        ensures
            golem_stats(r.logic, level as int),
    {
        let name = String::from_str("Golem");
        proof {
            reveal_strlit("Golem");
            assert(name@ =~= golem_name());
        }
        let logic = Logic {
            stars: 3,
            level: level,
            health: level * 55,
            attack: level * 7,
            wait: 6,
            name: name,
        };
        Golem { logic }
    }

    pub fn get_logic(&self) -> (r: &Logic)
        ensures
            *r == self.logic,
    {
        &self.logic
    }

    pub fn get_mut_logic(&mut self) -> (r: &mut Logic)
        ensures
            *r == old(self).logic,
            final(self).logic == *final(r),
    {
        &mut self.logic
    }

    /// Golems have no special move.
    pub fn special(&self, round: i32) -> (r: bool)
        ensures
            !r,
    {
        false
    }
}

impl Monster {
    /// The numbers of the monster, whatever its kind.
    pub open spec fn stats(self) -> Logic {
        match self {
            Monster::Ninja(n) => n.logic,
            Monster::Golem(g) => g.logic,
        }
    }

    /// The monster cloaks in `round`.
    pub open spec fn cloaked(self, round: int) -> bool {
        match self {
            Monster::Ninja(n) => on_beat(round, n.logic.wait as int) && on_beat(3, n.logic.wait as int),
            Monster::Golem(_) => false,
        }
    }

    /// Checking whether the monster cloaks in `round` neither divides by zero nor overflows.
    pub open spec fn special_defined(self, round: int) -> bool {
        self is Ninja ==> beat_defined(round, self.stats().wait as int)
    }

    /// The same kind of monster with the numbers `l`.
    pub open spec fn with_stats(self, l: Logic) -> Monster {
        match self {
            Monster::Ninja(_) => Monster::Ninja(Ninja { logic: l }),
            Monster::Golem(_) => Monster::Golem(Golem { logic: l }),
        }
    }

    pub fn get_logic(&self) -> (r: &Logic)
        ensures
            *r == self.stats(),
    {
        match self {
            Monster::Ninja(n) => n.get_logic(),
            Monster::Golem(g) => g.get_logic(),
        }
    }

    pub fn get_mut_logic(&mut self) -> (r: &mut Logic)
        ensures
            *r == old(self).stats(),
            *final(self) == old(self).with_stats(*final(r)),
    {
        match self {
            Monster::Ninja(n) => n.get_mut_logic(),
            Monster::Golem(g) => g.get_mut_logic(),
        }
    }

    /// A ninja may cloak; a golem never does.
    pub fn special(&self, round: i32) -> (r: bool)
        requires
            self.special_defined(round as int),
        ensures
            r == self.cloaked(round as int),
    {
        match self {
            Monster::Ninja(n) => n.special(round),
            Monster::Golem(g) => g.special(round),
        }
    }

    pub fn shout(&self) -> (r: String)
        ensures
            r@ == crate::logic::shout_text(
                self.stats().name@,
                self.stats().health as int,
                self.stats().attack as int,
                self.stats().level as int,
            ),
    {
        self.get_logic().shout()
    }

    /// Strikes `other` when `round` is one of this monster's beats.
    pub fn attack(&self, other: &mut Monster, round: i32)
        requires
            strike_ok(*self, *old(other), round as int),
        ensures
            *final(other) == strike(*self, *old(other), round as int),
    {
        self.get_logic().attack(other, round)
    }

    pub fn is_dead(&self) -> (r: bool)
        ensures
            r == self.stats().dead(),
    {
        self.get_logic().is_dead()
    }

    /// Caps the monster's level at ten per star.
    pub fn star_check(&mut self)
        requires
            i32::MIN <= old(self).stats().star_cap() <= i32::MAX,
        ensures
            *final(self) == old(self).with_stats(
                Logic {
                    level: if old(self).stats().level > old(self).stats().star_cap() {
                        old(self).stats().star_cap() as i32
                    } else {
                        old(self).stats().level
                    },
                    ..old(self).stats()
                },
            ),
    {
        self.get_mut_logic().star_check()
    }
}

impl Target for Monster {
    open spec fn can_take(&self, amount: int, round: int) -> bool {
        &&& self.special_defined(round)
        &&& !self.cloaked(round) ==> i32::MIN <= self.stats().health - amount <= i32::MAX
    }

    open spec fn took(&self, amount: int, round: int) -> Monster {
        if self.cloaked(round) {
            *self
        } else {
            self.with_stats(self.stats().lowered(amount))
        }
    }

    /// Takes a blow, unless the monster's special move saves it.
    fn hurt(&mut self, amount: i32, round: i32) {
        if !self.special(round) {
            self.get_mut_logic().hurt(amount, round)
        }
    }
}

/// What `t` becomes when `a` strikes it in `round`.
pub open spec fn strike(a: Monster, t: Monster, round: int) -> Monster {
    if on_beat(round, a.stats().wait as int) {
        t.took(a.stats().attack as int, round)
    } else {
        t
    }
}

/// `a` can strike `t` in `round` without a fault.
pub open spec fn strike_ok(a: Monster, t: Monster, round: int) -> bool {
    &&& beat_defined(round, a.stats().wait as int)
    &&& on_beat(round, a.stats().wait as int) ==> t.can_take(a.stats().attack as int, round)
}

/// The monsters of `s` that are still alive, in their order.
pub open spec fn living(s: Seq<Monster>) -> Seq<Monster>
    decreases s.len(),
{
    if s.len() == 0 {
        s
    } else if s.last().stats().dead() {
        living(s.drop_last())
    } else {
        living(s.drop_last()).push(s.last())
    }
}

/// What the defenders `def` become when the attackers `att`, from the `i`-th on, strike
/// in turn the first of them, the dead being cleared after each blow and the volley
/// stopping when no defender is left.
pub open spec fn volley(att: Seq<Monster>, i: int, def: Seq<Monster>, round: int) -> Seq<Monster>
    decreases att.len() - i,
{
    if i < 0 || i >= att.len() || def.len() == 0 {
        def
    } else {
        let d = living(def.update(0, strike(att[i], def[0], round)));
        if d.len() == 0 {
            d
        } else {
            volley(att, i + 1, d, round)
        }
    }
}

/// Every blow of that volley finds a defender and strikes it without a fault.
pub open spec fn volley_ok(att: Seq<Monster>, i: int, def: Seq<Monster>, round: int) -> bool
    decreases att.len() - i,
{
    if i < 0 || i >= att.len() {
        true
    } else {
        &&& def.len() > 0
        &&& strike_ok(att[i], def[0], round)
        &&& ({
            let d = living(def.update(0, strike(att[i], def[0], round)));
            d.len() == 0 || volley_ok(att, i + 1, d, round)
        })
    }
}

pub struct Team {
    pub monsters: Vec<Monster>,
    pub name: String,
}

proof fn lemma_living_step(s: Seq<Monster>, j: int)
    requires
        0 <= j < s.len(),
    ensures
        living(s.take(j + 1)) == if s[j].stats().dead() {
            living(s.take(j))
        } else {
            living(s.take(j)).push(s[j])
        },
{
    assert(s.take(j + 1).drop_last() =~= s.take(j));
    assert(s.take(j + 1).last() == s[j]);
}

impl Team {
    pub fn new(name: String) -> (r: Team)
        ensures
            r.monsters@.len() == 0,
            r.name == name,
    {
        Team { monsters: Vec::new(), name: name }
    }

    /// Removes the dead monsters.
    pub fn cleanup(&mut self)
        ensures
            final(self).monsters@ == living(old(self).monsters@),
            final(self).name == old(self).name,
    {
        let ghost orig = self.monsters@;
        let mut i: usize = 0;
        let ghost mut j: int = 0;
        assert(orig.take(0) =~= Seq::<Monster>::empty());
        assert(orig.skip(0) =~= orig);
        while i < self.monsters.len()
            invariant
                0 <= j <= orig.len(),
                self.monsters@ =~= living(orig.take(j)) + orig.skip(j),
                i == living(orig.take(j)).len(),
                self.name == old(self).name,
            decreases self.monsters.len() - i,
        {
            proof {
                lemma_living_step(orig, j);
                assert(self.monsters@[i as int] == orig[j]);
            }
            if self.monsters[i].is_dead() {
                self.monsters.remove(i);
                proof {
                    assert(orig.skip(j).drop_first() =~= orig.skip(j + 1));
                    j = j + 1;
                }
            } else {
                i = i + 1;
                proof {
                    assert(orig.skip(j).drop_first() =~= orig.skip(j + 1));
                    j = j + 1;
                }
            }
        }
        proof {
            assert(orig.skip(j).len() == 0);
            assert(orig.take(j) =~= orig);
        }
    }

    pub fn is_dead(&self) -> (r: bool)
        ensures
            r == (self.monsters@.len() == 0),
    {
        self.monsters.is_empty()
    }

    /// Each monster of this team in turn strikes the first monster of `other`; the dead
    /// of `other` are cleared after each blow, and the volley stops when `other` is empty.
    pub fn attack(&self, other: &mut Team, round: i32)
        requires
            volley_ok(self.monsters@, 0, old(other).monsters@, round as int),
        ensures
            final(other).monsters@ == volley(self.monsters@, 0, old(other).monsters@, round as int),
            final(other).name == old(other).name,
    {
        let n = self.monsters.len();
        let mut i: usize = 0;
        while i < n
            invariant
                i <= n,
                n == self.monsters@.len(),
                volley(self.monsters@, i as int, other.monsters@, round as int)
                    == volley(self.monsters@, 0, old(other).monsters@, round as int),
                volley_ok(self.monsters@, i as int, other.monsters@, round as int),
                other.name == old(other).name,
            decreases n - i,
        {
            self.monsters[i].attack(&mut other.monsters[0], round);
            other.cleanup();
            if other.is_dead() {
                return;
            }
            i = i + 1;
        }
    }
}

/// One of the two teams has no monster left.
pub open spec fn finished(teams: (Seq<Monster>, Seq<Monster>)) -> bool {
    teams.0.len() == 0 || teams.1.len() == 0
}

/// Round `round` of a battle: the first team strikes the second, then what is left of the
/// second strikes the first.
pub open spec fn round_of(teams: (Seq<Monster>, Seq<Monster>), round: int) -> (Seq<Monster>, Seq<Monster>) {
    let second = volley(teams.0, 0, teams.1, round);
    (volley(second, 0, teams.0, round), second)
}

/// Round `round` runs without a fault.
pub open spec fn round_ok(teams: (Seq<Monster>, Seq<Monster>), round: int) -> bool {
    &&& volley_ok(teams.0, 0, teams.1, round)
    &&& volley_ok(volley(teams.0, 0, teams.1, round), 0, teams.0, round)
}

/// The teams after `n` more rounds, the last round played so far being `round`.
pub open spec fn fight(teams: (Seq<Monster>, Seq<Monster>), round: int, n: nat) -> (Seq<Monster>, Seq<Monster>)
    decreases n,
{
    if n == 0 {
        teams
    } else {
        fight(round_of(teams, round + 1), round + 1, (n - 1) as nat)
    }
}

/// Played on from `round`, the battle ends after exactly `n` more rounds, each of which
/// runs without a fault, and round numbers stay within `i32`.
pub open spec fn ends_after(teams: (Seq<Monster>, Seq<Monster>), round: int, n: nat) -> bool {
    &&& round + n <= i32::MAX
    &&& finished(fight(teams, round, n))
    &&& forall|j: nat| j < n ==> !finished(#[trigger] fight(teams, round, j)) && round_ok(fight(teams, round, j), round + j + 1)
}

/// The battle from these teams ends, without a fault, within the rounds an `i32` counts.
pub open spec fn battle_ends(team1: Seq<Monster>, team2: Seq<Monster>) -> bool {
    exists|n: nat| ends_after((team1, team2), 0, n)
}

proof fn lemma_ends_step(teams: (Seq<Monster>, Seq<Monster>), round: int, n: nat)
    requires
        ends_after(teams, round, n),
        !finished(teams),
    ensures
        n > 0,
        round_ok(teams, round + 1),
        ends_after(round_of(teams, round + 1), round + 1, (n - 1) as nat),
        fight(teams, round, n) == fight(round_of(teams, round + 1), round + 1, (n - 1) as nat),
{
    assert(fight(teams, round, 0) == teams);
    let next = round_of(teams, round + 1);
    assert forall|j: nat| j < (n - 1) as nat implies !finished(#[trigger] fight(next, round + 1, j))
        && round_ok(fight(next, round + 1, j), round + 1 + j + 1) by {
        assert(fight(teams, round, j + 1) == fight(next, round + 1, j));
    }
}

/// Two teams fight round after round until one of them has no monster left; answers
/// whether the first team lost.
pub fn battle(team1: &mut Team, team2: &mut Team) -> (lost: bool)
    requires
        battle_ends(old(team1).monsters@, old(team2).monsters@),
    ensures
        exists|n: nat|
            {
                &&& ends_after((old(team1).monsters@, old(team2).monsters@), 0, n)
                &&& (final(team1).monsters@, final(team2).monsters@)
                    == fight((old(team1).monsters@, old(team2).monsters@), 0, n)
            },
        lost == (final(team1).monsters@.len() == 0),
        final(team1).name == old(team1).name,
        final(team2).name == old(team2).name,
{
    let ghost start = (team1.monsters@, team2.monsters@);
    let ghost n = choose|n: nat| ends_after(start, 0, n);
    let mut round: i32 = 0;
    while !team1.is_dead() && !team2.is_dead()
        invariant
            0 <= round <= n,
            ends_after((team1.monsters@, team2.monsters@), round as int, (n - round) as nat),
            fight(start, 0, n) == fight((team1.monsters@, team2.monsters@), round as int, (n - round) as nat),
            ends_after(start, 0, n),
            team1.name == old(team1).name,
            team2.name == old(team2).name,
        decreases n - round,
    {
        proof {
            lemma_ends_step((team1.monsters@, team2.monsters@), round as int, (n - round) as nat);
        }
        round = round + 1;
        team1.attack(team2, round);
        team2.attack(team1, round);
    }
    proof {
        let m = (n - round) as nat;
        let cur = (team1.monsters@, team2.monsters@);
        assert(fight(cur, round as int, 0) == cur);
        if m > 0 {
            assert(!finished(fight(cur, round as int, 0)));
        }
    }
    team1.is_dead()
}

/// The name `enemy`.
pub open spec fn enemy_name() -> Seq<char> {
    seq!['e', 'n', 'e', 'm', 'y']
}

/// `m` is a fresh ninja of `level`.
pub open spec fn is_ninja(m: Monster, level: int) -> bool {
    m is Ninja && ninja_stats(m.stats(), level)
}

/// The arena's opponent: a team named `enemy` of five ninjas of level 30.
pub fn set_up() -> (team: Team)
    ensures
        team.name@ == enemy_name(),
        team.monsters@.len() == 5,
        forall|k: int| 0 <= k < 5 ==> is_ninja(#[trigger] team.monsters@[k], 30),
{
    let name = String::from_str("enemy");
    proof {
        reveal_strlit("enemy");
        assert(name@ =~= enemy_name());
    }
    let mut team = Team::new(name);
    team.monsters.push(Monster::Ninja(Ninja::new(30)));
    team.monsters.push(Monster::Ninja(Ninja::new(30)));
    team.monsters.push(Monster::Ninja(Ninja::new(30)));
    team.monsters.push(Monster::Ninja(Ninja::new(30)));
    team.monsters.push(Monster::Ninja(Ninja::new(30)));
    team
}

/// The line `m` shouts.
pub open spec fn shout_of(m: Monster) -> Seq<char> {
    crate::logic::shout_text(m.stats().name@, m.stats().health as int, m.stats().attack as int, m.stats().level as int)
}

/// The line of every monster of `s` can be cut at 40 bytes (see `cut_safe`); so can every
/// line of plain ASCII.
pub open spec fn shouts_fit(s: Seq<Monster>) -> bool {
    forall|k: int| 0 <= k < s.len() ==> cut_safe(shout_of(#[trigger] s[k]), 40)
}

/// The heading of the arena's roster: the first team's name on the left of 40 columns,
/// the second's on the right of the next 40.
pub open spec fn roster_heading(name1: Seq<char>, name2: Seq<char>) -> Seq<char> {
    pad_text(name1, 40, ' ', true, true) + pad_text(name2, 40, ' ', false, true)
}

/// Line `i` of the roster: the `i`-th monster of each team, side by side.
pub open spec fn roster_line(t1: Seq<Monster>, t2: Seq<Monster>, i: int) -> Seq<char> {
    (if i < t1.len() {
        pad_text(shout_of(t1[i]), 40, ' ', true, true)
    } else {
        fill(' ', 40)
    }) + (if i < t2.len() {
        pad_text(shout_of(t2[i]), 40, ' ', false, true) + seq!['\n']
    } else {
        Seq::empty()
    })
}

/// The first `k` lines of the roster.
pub open spec fn roster_lines(t1: Seq<Monster>, t2: Seq<Monster>, k: nat) -> Seq<char>
    decreases k,
{
    if k == 0 {
        Seq::empty()
    } else {
        roster_lines(t1, t2, (k - 1) as nat) + roster_line(t1, t2, k - 1)
    }
}

/// The roster of two teams: the heading, then lines up to one past the longer team.
pub open spec fn roster(name1: Seq<char>, t1: Seq<Monster>, name2: Seq<char>, t2: Seq<Monster>) -> Seq<char> {
    roster_heading(name1, name2) + roster_lines(t1, t2, (if t1.len() > t2.len() { t1.len() } else { t2.len() }) + 2)
}

/// Appends `s` padded to 40 columns on `side`.
fn push_padded(print: &mut String, s: &str, side: Side)
    requires
        cut_safe(s@, 40),
    ensures
        final(print)@ == old(print)@ + pad_text(s@, 40, ' ', side == Side::Left, true),
{
    let p = pad_column(s, 40, ' ', side, true);
    print.append(p.as_str());
}

/// Appends the line `m` shouts, padded to 40 columns on `side`.
fn push_shout(print: &mut String, m: &Monster, side: Side)
    requires
        cut_safe(shout_of(*m), 40),
    ensures
        final(print)@ == old(print)@ + pad_text(shout_of(*m), 40, ' ', side == Side::Left, true),
{
    let s = m.shout();
    push_padded(print, s.as_str(), side);
}

/// Appends line `i` of the roster.
fn push_roster_line(print: &mut String, team1: &Team, team2: &Team, i: usize)
    requires
        shouts_fit(team1.monsters@),
        shouts_fit(team2.monsters@),
    ensures
        final(print)@ == old(print)@ + roster_line(team1.monsters@, team2.monsters@, i as int),
{
    proof {
        reveal_strlit("");
        reveal_strlit("\n");
    }
    if i < team1.monsters.len() {
        push_shout(print, &team1.monsters[i], Side::Left);
    } else {
        push_padded(print, "", Side::Left);
    }
    if i < team2.monsters.len() {
        push_shout(print, &team2.monsters[i], Side::Right);
        print.append("\n");
    }
    proof {
        assert(column(Seq::<char>::empty(), 40, ' ', true, true) =~= fill(' ', 40));
        assert(pad_text(Seq::<char>::empty(), 40, ' ', true, true) == column(Seq::<char>::empty(), 40, ' ', true, true));
        assert(print@ =~= old(print)@ + roster_line(team1.monsters@, team2.monsters@, i as int));
    }
}

/// The roster of two teams side by side, names first.
pub fn print(team1: &Team, team2: &Team) -> (print: String)
    requires
        cut_safe(team1.name@, 40),
        cut_safe(team2.name@, 40),
        shouts_fit(team1.monsters@),
        shouts_fit(team2.monsters@),
        team1.monsters@.len() + 2 <= usize::MAX,
        team2.monsters@.len() + 2 <= usize::MAX,
    ensures
        print@ == roster(team1.name@, team1.monsters@, team2.name@, team2.monsters@),
{
    let ghost t1 = team1.monsters@;
    let ghost t2 = team2.monsters@;
    let ghost top: int = if t1.len() > t2.len() { t1.len() as int } else { t2.len() as int };
    let mut print = String::new();
    push_padded(&mut print, team1.name.as_str(), Side::Left);
    push_padded(&mut print, team2.name.as_str(), Side::Right);
    let ghost heading = print@;
    assert(heading =~= roster_heading(team1.name@, team2.name@));
    let mut i: usize = 0;
    loop
        invariant
            t1 == team1.monsters@,
            t2 == team2.monsters@,
            top == if t1.len() > t2.len() { t1.len() as int } else { t2.len() as int },
            shouts_fit(t1),
            shouts_fit(t2),
            t1.len() + 2 <= usize::MAX,
            t2.len() + 2 <= usize::MAX,
            i <= top + 1,
            heading == roster_heading(team1.name@, team2.name@),
            print@ == heading + roster_lines(t1, t2, i as nat),
        decreases top + 1 - i,
    {
        let ghost before = print@;
        push_roster_line(&mut print, team1, team2, i);
        assert(print@ =~= heading + roster_lines(t1, t2, (i + 1) as nat));
        if i > team1.monsters.len() && i > team2.monsters.len() {
            return print;
        }
        i = i + 1;
    }
}

/// The arena's answers to one menu choice of the player, in the order it sends them:
/// choice 1 asks for a battle against `set_up()`, choice 2 buys a monster (`data` 1 or 2,
/// both giving a ninja of level 30) for a team of fewer than five. A battle is only fought
/// when the team's length `len` has `!len == 0`, that is when it holds `usize::MAX`
/// monsters, which no team can (the requirement below says so); otherwise the player is
/// told it lost for want of monsters.
pub fn answer(team1: &mut Team, op: u32, data: u32) -> (reports: Vec<String>)
    requires
        old(team1).monsters@.len() < usize::MAX,
    ensures
        op == 1 ==> {
            &&& reports@.len() == 2
            &&& reports@[0]@ == "you lose"@
            &&& reports@[1]@ == "you have no monsters, go buy some"@
            &&& *final(team1) == *old(team1)
        },
        op == 2 && old(team1).monsters@.len() != 5 ==> {
            &&& reports@.len() == 1
            &&& reports@[0]@ == "added"@
            &&& final(team1).name == old(team1).name
            &&& (data == 1 || data == 2) ==> {
                &&& final(team1).monsters@.len() == old(team1).monsters@.len() + 1
                &&& final(team1).monsters@.take(old(team1).monsters@.len() as int) == old(team1).monsters@
                &&& is_ninja(final(team1).monsters@.last(), 30)
            }
            &&& !(data == 1 || data == 2) ==> *final(team1) == *old(team1)
        },
        op == 2 && old(team1).monsters@.len() == 5 ==> {
            &&& reports@.len() == 1
            &&& reports@[0]@ == "you have 5 please battle"@
            &&& *final(team1) == *old(team1)
        },
        op != 1 && op != 2 ==> {
            &&& reports@.len() == 1
            &&& reports@[0]@ == "HOW!?!?!?!"@
            &&& *final(team1) == *old(team1)
        },
{
    let mut reports: Vec<String> = Vec::new();
    let result: &str = match op {
        1 => {
            let mut team2 = set_up();
            let len = team1.monsters.len();
            // Every bit of `!len` is clear only when every bit of `len` is set.
            if len == usize::MAX {
                reports.push(print(team1, &team2));
                if battle(team1, &mut team2) {
                    "you lose"
                } else {
                    "you win"
                }
            } else {
                reports.push(String::from_str("you lose"));
                "you have no monsters, go buy some"
            }
        },
        2 => {
            if team1.monsters.len() != 5 {
                let ghost before = team1.monsters@;
                match data {
                    1 => team1.monsters.push(Monster::Ninja(Ninja::new(30))),
                    2 => team1.monsters.push(Monster::Ninja(Ninja::new(30))),
                    _ => {},
                };
                assert(team1.monsters@.take(before.len() as int) =~= before);
                "added"
            } else {
                "you have 5 please battle"
            }
        },
        _ => "HOW!?!?!?!",
    };
    reports.push(String::from_str(result));
    reports
}

/// An arena ninja that waits one round between blows cloaks in every round, so no blow
/// hurts it.
pub proof fn lemma_quick_ninja_cloaks(m: Monster, amount: int, round: int)
    requires
        m is Ninja,
        m.stats().wait == 1,
    ensures
        m.cloaked(round),
        m.special_defined(round),
        m.took(amount, round) == m,
{
}

/// Alive arena ninjas that wait one round between blows.
pub open spec fn quick_ninjas(s: Seq<Monster>) -> bool {
    forall|k: int| 0 <= k < s.len() ==> (#[trigger] s[k]) is Ninja && s[k].stats().wait == 1 && !s[k].stats().dead()
}

proof fn lemma_volley_misses(att: Seq<Monster>, i: int, def: Seq<Monster>, round: int)
    requires
        0 <= i <= att.len(),
        quick_ninjas(def),
        def.len() > 0,
    ensures
        volley(att, i, def, round) == def,
    decreases att.len() - i,
{
    if i < att.len() {
        assert(def[0] is Ninja && def[0].stats().wait == 1);
        lemma_quick_ninja_cloaks(def[0], att[i].stats().attack as int, round);
        assert(def.update(0, strike(att[i], def[0], round)) =~= def);
        lemma_living_alive(def);
        lemma_volley_misses(att, i + 1, def, round);
    }
}

proof fn lemma_living_alive(s: Seq<Monster>)
    requires
        quick_ninjas(s),
    ensures
        living(s) == s,
    decreases s.len(),
{
    if s.len() > 0 {
        let d = s.drop_last();
        assert forall|k: int| 0 <= k < d.len() implies (#[trigger] d[k]) is Ninja && d[k].stats().wait == 1
            && !d[k].stats().dead() by {
            assert(d[k] == s[k]);
        }
        lemma_living_alive(d);
        assert(s[s.len() - 1] is Ninja && !s[s.len() - 1].stats().dead());
        assert(d.push(s.last()) =~= s);
    }
}

/// Two teams of alive arena ninjas that wait one round between blows never finish a
/// battle: every blow finds its target cloaked, so no round changes anything.
pub proof fn lemma_ninja_standoff(team1: Seq<Monster>, team2: Seq<Monster>)
    requires
        team1.len() > 0,
        team2.len() > 0,
        quick_ninjas(team1),
        quick_ninjas(team2),
    ensures
        forall|round: int, n: nat| #[trigger] fight((team1, team2), round, n) == (team1, team2),
        !battle_ends(team1, team2),
{
    assert forall|round: int, n: nat| #[trigger] fight((team1, team2), round, n) == (team1, team2) by {
        lemma_standoff_rounds(team1, team2, round, n);
    }
    if battle_ends(team1, team2) {
        let n = choose|n: nat| ends_after((team1, team2), 0, n);
        assert(fight((team1, team2), 0, n) == (team1, team2));
    }
}

proof fn lemma_standoff_rounds(team1: Seq<Monster>, team2: Seq<Monster>, round: int, n: nat)
    requires
        team1.len() > 0,
        team2.len() > 0,
        quick_ninjas(team1),
        quick_ninjas(team2),
    ensures
        fight((team1, team2), round, n) == (team1, team2),
    decreases n,
{
    if n > 0 {
        lemma_volley_misses(team1, 0, team2, round + 1);
        lemma_volley_misses(team2, 0, team1, round + 1);
        assert(round_of((team1, team2), round + 1) == (team1, team2));
        lemma_standoff_rounds(team1, team2, round + 1, (n - 1) as nat);
    }
}

} // verus!
