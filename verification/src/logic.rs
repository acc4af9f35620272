//! The state of one monster and the rules that every monster follows.
use vstd::prelude::*;
use crate::text::{push_signed, signed_decimal, plain_ascii, lemma_plain_concat, lemma_plain_signed};

verus! {

/// Absolute value.
pub open spec fn abs(x: int) -> int {
    if x < 0 {
        -x
    } else {
        x
    }
}

/// A monster that waits `wait` rounds between blows strikes in `round` when `wait` divides it.
pub open spec fn on_beat(round: int, wait: int) -> bool {
    round % abs(wait) == 0
}

/// The check `round % wait == 0` neither divides by zero nor overflows.
pub open spec fn beat_defined(round: int, wait: int) -> bool {
    wait != 0 && !(round == i32::MIN && wait == -1)
}

/// The line a monster shouts: its name, then health, attack and level.
pub open spec fn shout_text(name: Seq<char>, health: int, attack: int, level: int) -> Seq<char> {
    name + seq![' ', 'h', ':', '('] + signed_decimal(health) + seq![')', ',', ' ', 'a', ':', '(']
        + signed_decimal(attack) + seq![')', ',', ' ', 'l', '('] + signed_decimal(level) + seq![')']
}

/// A monster with a plain ASCII name shouts a plain ASCII line.
pub proof fn lemma_plain_shout(name: Seq<char>, health: int, attack: int, level: int)
    requires
        plain_ascii(name),
    ensures
        plain_ascii(shout_text(name, health, attack, level)),
{
    let p1 = seq![' ', 'h', ':', '('];
    let p2 = seq![')', ',', ' ', 'a', ':', '('];
    let p3 = seq![')', ',', ' ', 'l', '('];
    let p4 = seq![')'];
    assert(plain_ascii(p1));
    assert(plain_ascii(p2));
    assert(plain_ascii(p3));
    assert(plain_ascii(p4));
    lemma_plain_signed(health);
    lemma_plain_signed(attack);
    lemma_plain_signed(level);
    let a = name + p1;
    lemma_plain_concat(name, p1);
    let b = a + signed_decimal(health);
    lemma_plain_concat(a, signed_decimal(health));
    let c = b + p2;
    lemma_plain_concat(b, p2);
    let d = c + signed_decimal(attack);
    lemma_plain_concat(c, signed_decimal(attack));
    let e = d + p3;
    lemma_plain_concat(d, p3);
    let f = e + signed_decimal(level);
    lemma_plain_concat(e, signed_decimal(level));
    lemma_plain_concat(f, p4);
}

/// The name `Ninja`.
pub open spec fn ninja_name() -> Seq<char> {
    seq!['N', 'i', 'n', 'j', 'a']
}

/// The name `Golem`.
pub open spec fn golem_name() -> Seq<char> {
    seq!['G', 'o', 'l', 'e', 'm']
}

/// `l` holds the numbers of a fresh ninja of `level`.
pub open spec fn ninja_stats(l: Logic, level: int) -> bool {
    &&& l.stars == 3
    &&& l.level == level
    &&& l.health == level
    &&& l.attack == level * 5
    &&& l.wait == 1
    &&& l.name@ == ninja_name()
}

/// `l` holds the numbers of a fresh golem of `level`.
pub open spec fn golem_stats(l: Logic, level: int) -> bool {
    &&& l.stars == 3
    &&& l.level == level
    &&& l.health == level * 55
    &&& l.attack == level * 7
    &&& l.wait == 6
    &&& l.name@ == golem_name()
}

/// The numbers of a monster, and its name.
pub struct Logic {
    pub health: i32,
    pub attack: i32,
    pub wait: i32,
    pub name: String,
    pub level: i32,
    pub stars: i32,
}

/// Something that a blow can hurt.
pub trait Target: Sized {
    /// A blow of `amount` in `round` can be taken without overflow.
    spec fn can_take(&self, amount: int, round: int) -> bool;

    /// The state after a blow of `amount` in `round`.
    spec fn took(&self, amount: int, round: int) -> Self;

    fn hurt(&mut self, amount: i32, round: i32)
        requires
            old(self).can_take(amount as int, round as int),
        ensures
            *final(self) == old(self).took(amount as int, round as int),
    ;
}

proof fn lemma_neg_divisible(a: int, d: int)
    requires
        d > 0,
    ensures
        ((-a) % d == 0) == (a % d == 0),
{
    if a % d == 0 {
        assert((-a) == (-(a / d)) * d) by (nonlinear_arith)
            requires
                a % d == 0,
                d > 0,
        ;
        vstd::arithmetic::div_mod::lemma_mod_multiples_basic(-(a / d), d);
    }
    if (-a) % d == 0 {
        assert(a == (-((-a) / d)) * d) by (nonlinear_arith)
            requires
                (-a) % d == 0,
                d > 0,
        ;
        vstd::arithmetic::div_mod::lemma_mod_multiples_basic(-((-a) / d), d);
    }
}

/// `round % wait == 0`, for any nonzero `wait`.
pub fn beat(round: i32, wait: i32) -> (r: bool)
    requires
        wait != 0,
    ensures
        r == on_beat(round as int, wait as int),
{
    let w: i64 = if wait < 0 {
        -(wait as i64)
    } else {
        wait as i64
    };
    let x: i64 = (round as i64) % w;
    if round < 0 {
        proof {
            lemma_neg_divisible(round as int, w as int);
        }
    }
    x == 0
}

impl Logic {
    pub open spec fn dead(&self) -> bool {
        self.health <= 0
    }

    /// The same numbers with `health` lowered by `a`.
    pub open spec fn lowered(self, a: int) -> Logic {
        Logic { health: (self.health - a) as i32, ..self }
    }

    pub open spec fn star_cap(&self) -> int {
        self.stars * 10
    }

    /// Caps the level at ten per star.
    pub fn star_check(&mut self)
        requires
            i32::MIN <= old(self).star_cap() <= i32::MAX,
        ensures
            *final(self) == (Logic {
                level: if old(self).level > old(self).star_cap() {
                    old(self).star_cap() as i32
                } else {
                    old(self).level
                },
                ..*old(self)
            }),
    {
        if self.level > self.stars * 10 {
            self.level = self.stars * 10;
        }
    }

    pub fn is_dead(&self) -> (r: bool)
        ensures
            r == self.dead(),
    {
        self.health <= 0
    }

    /// The monster's line: `<name> h:(<health>), a:(<attack>), l(<level>)`.
    pub fn shout(&self) -> (r: String)
        ensures
            r@ == shout_text(self.name@, self.health as int, self.attack as int, self.level as int),
    {
        let mut s = String::new();
        s.append(self.name.as_str());
        s.append(" h:(");
        push_signed(&mut s, self.health);
        s.append("), a:(");
        push_signed(&mut s, self.attack);
        s.append("), l(");
        push_signed(&mut s, self.level);
        s.append(")");
        proof {
            reveal_strlit(" h:(");
            reveal_strlit("), a:(");
            reveal_strlit("), l(");
            reveal_strlit(")");
            assert(s@ =~= shout_text(self.name@, self.health as int, self.attack as int, self.level as int));
        }
        s
    }

    /// Takes a blow of `a`.
    pub fn hurt(&mut self, a: i32, round: i32)
        requires
            i32::MIN <= old(self).health - a <= i32::MAX,
        ensures
            *final(self) == old(self).lowered(a as int),
    {
        self.health = self.health - a;
    }

    /// Strikes `other` with this monster's attack when the round is one of its beats.
    pub fn attack<M: Target>(&self, other: &mut M, round: i32)
        requires
            beat_defined(round as int, self.wait as int),
            on_beat(round as int, self.wait as int) ==> old(other).can_take(self.attack as int, round as int),
        ensures
            *final(other) == if on_beat(round as int, self.wait as int) {
                old(other).took(self.attack as int, round as int)
            } else {
                *old(other)
            },
    {
        if beat(round, self.wait) {
            other.hurt(self.attack, round);
        }
    }
}

} // verus!
