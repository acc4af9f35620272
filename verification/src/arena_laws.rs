//! Laws of the arena: how a volley and a round go when every blow kills, and where the
//! roster shows each monster.
use vstd::prelude::*;
use crate::arena::{Monster, living, volley, strike, round_of, round_ok, fight, finished, ends_after,
    roster, roster_heading, roster_line, roster_lines, shout_of};
use crate::logic::lemma_plain_shout;
use crate::text::{column, fill, plain_ascii, pad_text};

verus! {

/// Every monster of `s` is alive.
pub open spec fn all_alive(s: Seq<Monster>) -> bool {
    forall|k: int| 0 <= k < s.len() ==> !(#[trigger] s[k]).stats().dead()
}

/// In `round`, every blow that a monster of `att` deals to a monster of `def` kills it.
pub open spec fn lethal(att: Seq<Monster>, def: Seq<Monster>, round: int) -> bool {
    forall|a: int, d: int| 0 <= a < att.len() && 0 <= d < def.len() ==> (#[trigger] strike(att[a], def[d], round)).stats().dead()
}

proof fn lemma_living_front_dead(u: Seq<Monster>)
    requires
        u.len() >= 1,
        u[0].stats().dead(),
        forall|k: int| 1 <= k < u.len() ==> !(#[trigger] u[k]).stats().dead(),
    ensures
        living(u) == u.drop_first(),
    decreases u.len(),
{
    let d = u.drop_last();
    if u.len() == 1 {
        assert(d.len() == 0);
        assert(living(u) == living(d));
        assert(u.drop_first() =~= Seq::<Monster>::empty());
    } else {
        assert(!u[u.len() - 1].stats().dead());
        assert forall|k: int| 1 <= k < d.len() implies !(#[trigger] d[k]).stats().dead() by {
            assert(d[k] == u[k]);
        }
        lemma_living_front_dead(d);
        assert(d.drop_first().push(u.last()) =~= u.drop_first());
    }
}

/// When every blow kills, a volley goes on after each kill with the next attacker and
/// stops only when the defenders are all gone: the attackers from the `i`-th on kill one
/// defender each, from the front, as long as any is left.
pub proof fn lemma_lethal_volley(att: Seq<Monster>, i: int, def: Seq<Monster>, round: int)
    requires
        0 <= i <= att.len(),
        all_alive(def),
        lethal(att, def, round),
    ensures
        volley(att, i, def, round) == if def.len() > att.len() - i {
            def.skip(att.len() - i)
        } else {
            Seq::<Monster>::empty()
        },
    decreases att.len() - i,
{
    if i == att.len() || def.len() == 0 {
        assert(def.skip(0) =~= def);
        assert(def.len() == 0 ==> def =~= Seq::<Monster>::empty());
    } else {
        let x = strike(att[i], def[0], round);
        assert(x.stats().dead());
        let u = def.update(0, x);
        assert forall|k: int| 1 <= k < u.len() implies !(#[trigger] u[k]).stats().dead() by {
            assert(u[k] == def[k]);
        }
        lemma_living_front_dead(u);
        let d = living(u);
        assert(d =~= def.drop_first());
        if d.len() > 0 {
            assert forall|k: int| 0 <= k < d.len() implies !(#[trigger] d[k]).stats().dead() by {
                assert(d[k] == def[k + 1]);
            }
            assert forall|a: int, k: int| 0 <= a < att.len() && 0 <= k < d.len() implies (#[trigger] strike(att[a], d[k], round)).stats().dead() by {
                assert(d[k] == def[k + 1]);
            }
            lemma_lethal_volley(att, i + 1, d, round);
            if def.len() > att.len() - i {
                assert(d.skip(att.len() - i - 1) =~= def.skip(att.len() - i));
            }
        } else {
            assert(d =~= Seq::<Monster>::empty());
        }
    }
}

/// When every blow of the round kills, on both sides: the first team's monsters kill one
/// monster each from the front of the second team, and the second team's survivors, if
/// any, strike back in the same round and kill one each from the front of the first team.
pub proof fn lemma_lethal_round(t1: Seq<Monster>, t2: Seq<Monster>, round: int)
    requires
        all_alive(t1),
        all_alive(t2),
        lethal(t1, t2, round),
        lethal(t2, t1, round),
    ensures
        round_of((t1, t2), round).1 == if t2.len() > t1.len() {
            t2.skip(t1.len() as int)
        } else {
            Seq::<Monster>::empty()
        },
        round_of((t1, t2), round).0 == if t2.len() > t1.len() {
            if t1.len() > t2.len() - t1.len() {
                t1.skip(t2.len() - t1.len())
            } else {
                Seq::<Monster>::empty()
            }
        } else {
            t1
        },
{
    lemma_lethal_volley(t1, 0, t2, round);
    let s = volley(t1, 0, t2, round);
    if t2.len() > t1.len() {
        assert forall|a: int, k: int| 0 <= a < s.len() && 0 <= k < t1.len() implies (#[trigger] strike(s[a], t1[k], round)).stats().dead() by {
            assert(s[a] == t2[a + t1.len()]);
        }
        lemma_lethal_volley(s, 0, t1, round);
    } else {
        assert(s.len() == 0);
    }
}

/// A battle whose first round is deadly on both sides and runs without a fault is decided
/// in that round when the first team is at least as large as the second (it wins, with no
/// loss) or the second is at least twice as large (the first team loses every monster).
pub proof fn lemma_lethal_battle(t1: Seq<Monster>, t2: Seq<Monster>)
    requires
        t1.len() > 0,
        t2.len() > 0,
        all_alive(t1),
        all_alive(t2),
        lethal(t1, t2, 1),
        lethal(t2, t1, 1),
        round_ok((t1, t2), 1),
        t1.len() >= t2.len() || t2.len() >= 2 * t1.len(),
    ensures
        ends_after((t1, t2), 0, 1),
        forall|n: nat| ends_after((t1, t2), 0, n) ==> n == 1,
        t1.len() >= t2.len() ==> fight((t1, t2), 0, 1) == (t1, Seq::<Monster>::empty()),
        t2.len() >= 2 * t1.len() ==> fight((t1, t2), 0, 1) == (Seq::<Monster>::empty(), t2.skip(t1.len() as int)),
{
    lemma_lethal_round(t1, t2, 1);
    assert(fight((t1, t2), 0, 0) == (t1, t2));
    assert(fight((t1, t2), 0, 1) == fight(round_of((t1, t2), 1), 1, 0));
    assert(ends_after((t1, t2), 0, 1));
    assert forall|n: nat| ends_after((t1, t2), 0, n) implies n == 1 by {
        if n == 0 {
            assert(!finished(fight((t1, t2), 0, 0)));
        } else if n > 1 {
            assert(!finished(#[trigger] fight((t1, t2), 0, 1)));
        }
    }
}

/// Every monster of `s` has a plain ASCII name.
pub open spec fn plain_names(s: Seq<Monster>) -> bool {
    forall|k: int| 0 <= k < s.len() ==> plain_ascii((#[trigger] s[k]).stats().name@)
}

proof fn lemma_plain_column(m: Monster, left: bool)
    requires
        plain_ascii(m.stats().name@),
    ensures
        pad_text(shout_of(m), 40, ' ', left, true) == column(shout_of(m), 40, ' ', left, true),
        column(shout_of(m), 40, ' ', left, true).len() == 40,
{
    lemma_plain_shout(m.stats().name@, m.stats().health as int, m.stats().attack as int, m.stats().level as int);
}

proof fn lemma_roster_line_len(t1: Seq<Monster>, t2: Seq<Monster>, j: int)
    requires
        0 <= j,
        plain_names(t1),
        plain_names(t2),
    ensures
        roster_line(t1, t2, j).len() == if j < t2.len() { 81int } else { 40int },
{
    if j < t1.len() {
        lemma_plain_column(t1[j], true);
    }
    if j < t2.len() {
        lemma_plain_column(t2[j], false);
    }
}

proof fn lemma_roster_lines_len(t1: Seq<Monster>, t2: Seq<Monster>, k: nat)
    requires
        plain_names(t1),
        plain_names(t2),
    ensures
        roster_lines(t1, t2, k).len() == if k <= t2.len() { (81 * k) as int } else { 81 * t2.len() + 40 * (k - t2.len()) },
    decreases k,
{
    if k > 0 {
        lemma_roster_lines_len(t1, t2, (k - 1) as nat);
        lemma_roster_line_len(t1, t2, k - 1);
    }
}

proof fn lemma_roster_lines_grow(t1: Seq<Monster>, t2: Seq<Monster>, m: nat, n: nat)
    requires
        m <= n,
    ensures
        roster_lines(t1, t2, m).len() <= roster_lines(t1, t2, n).len(),
        roster_lines(t1, t2, n).take(roster_lines(t1, t2, m).len() as int) == roster_lines(t1, t2, m),
    decreases n,
{
    if m < n {
        lemma_roster_lines_grow(t1, t2, m, (n - 1) as nat);
        let a = roster_lines(t1, t2, (n - 1) as nat);
        assert(roster_lines(t1, t2, n) == a + roster_line(t1, t2, n - 1));
        assert((a + roster_line(t1, t2, n - 1)).take(roster_lines(t1, t2, m).len() as int)
            =~= a.take(roster_lines(t1, t2, m).len() as int));
    } else {
        assert(roster_lines(t1, t2, n).take(roster_lines(t1, t2, n).len() as int) =~= roster_lines(t1, t2, n));
    }
}

/// With plain ASCII names, the roster is two 40-column names, then one line per monster
/// position in team order: while the second team has a monster, line `i` (81 characters
/// from offset 80 + 81 i) holds the `i`-th monster of the first team on the left (or
/// blanks), the `i`-th of the second on the right and a line feed; past the second team,
/// the first team's `i`-th monster fills 40 characters of its own.
pub proof fn lemma_roster_shows(name1: Seq<char>, t1: Seq<Monster>, name2: Seq<char>, t2: Seq<Monster>, i: int)
    requires
        plain_ascii(name1),
        plain_ascii(name2),
        plain_names(t1),
        plain_names(t2),
        0 <= i,
        i < t1.len() || i < t2.len(),
    ensures
        i < t2.len() ==> roster(name1, t1, name2, t2).subrange(80 + 81 * i, 80 + 81 * i + 81) == (if i < t1.len() {
            column(shout_of(t1[i]), 40, ' ', true, true)
        } else {
            fill(' ', 40)
        }) + column(shout_of(t2[i]), 40, ' ', false, true) + seq!['\n'],
        t2.len() <= i ==> roster(name1, t1, name2, t2).subrange(
            80 + 81 * t2.len() + 40 * (i - t2.len()),
            80 + 81 * t2.len() + 40 * (i - t2.len()) + 40,
        ) == column(shout_of(t1[i]), 40, ' ', true, true),
{
    let top: nat = if t1.len() > t2.len() { t1.len() } else { t2.len() };
    let heading = roster_heading(name1, name2);
    assert(heading.len() == 80);
    lemma_roster_lines_grow(t1, t2, (i + 1) as nat, top + 2);
    lemma_roster_lines_len(t1, t2, i as nat);
    let whole = roster_lines(t1, t2, top + 2);
    let head = roster_lines(t1, t2, (i + 1) as nat);
    let p = roster_lines(t1, t2, i as nat);
    let line = roster_line(t1, t2, i);
    assert(head == p + line);
    assert(whole =~= p + line + whole.skip(head.len() as int));
    assert(roster(name1, t1, name2, t2) =~= heading + p + line + whole.skip(head.len() as int));
    lemma_roster_line_len(t1, t2, i);
    if i < t1.len() {
        lemma_plain_column(t1[i], true);
    }
    if i < t2.len() {
        lemma_plain_column(t2[i], false);
    }
    assert(roster(name1, t1, name2, t2).subrange((heading.len() + p.len()) as int, (heading.len() + p.len() + line.len()) as int) =~= line);
}

} // verus!
