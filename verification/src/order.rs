//! The order in which ranked players are exported.
//!
//! Players are compared by their current score in the direction the caller
//! picks, with ties broken by name so that the sorted order is always
//! deterministic.  Names compare lexicographically by character code point.

use crate::frac::Frac;
use crate::player::views;
use crate::player::Player;
use crate::player::PlayerV;
use crate::prcalc::PROrder;
use vstd::prelude::*;
use vstd::string::StrSliceExecFns;

verus! {

/// Lexicographic order on names by character code point.
pub open spec fn name_le(a: Seq<char>, b: Seq<char>) -> bool
    decreases a.len(),
{
    if a.len() == 0 {
        true
    } else if b.len() == 0 {
        false
    } else if a[0] == b[0] {
        name_le(a.drop_first(), b.drop_first())
    } else {
        (a[0] as u32) < (b[0] as u32)
    }
}

pub proof fn lemma_name_le_total(a: Seq<char>, b: Seq<char>)
    ensures
        name_le(a, b) || name_le(b, a),
    decreases a.len(),
{
    if a.len() != 0 && b.len() != 0 {
        if a[0] == b[0] {
            lemma_name_le_total(a.drop_first(), b.drop_first());
        } else {
            vstd::utf8::char_u32_cast(a[0], a[0] as u32);
            vstd::utf8::char_u32_cast(b[0], b[0] as u32);
            assert(a[0] as u32 != b[0] as u32);
        }
    }
}

pub proof fn lemma_name_le_trans(a: Seq<char>, b: Seq<char>, c: Seq<char>)
    requires
        name_le(a, b),
        name_le(b, c),
    ensures
        name_le(a, c),
    decreases a.len(),
{
    if a.len() != 0 && b.len() != 0 && c.len() != 0 {
        if a[0] == b[0] && b[0] == c[0] {
            lemma_name_le_trans(a.drop_first(), b.drop_first(), c.drop_first());
        }
    }
}

pub proof fn lemma_name_le_antisymmetric(a: Seq<char>, b: Seq<char>)
    requires
        name_le(a, b),
        name_le(b, a),
    ensures
        a == b,
    decreases a.len(),
{
    if a.len() == 0 {
        assert(b.len() == 0);
        assert(a =~= b);
    } else {
        assert(b.len() != 0);
        if a[0] == b[0] {
            lemma_name_le_antisymmetric(a.drop_first(), b.drop_first());
            assert(a =~= b) by {
                assert(a.len() == b.len());
                assert(forall|i: int|
                    1 <= i < a.len() ==> a[i] == a.drop_first()[i - 1] && b[i] == b.drop_first()[i
                        - 1]);
            }
        } else {
            assert((a[0] as u32) < (b[0] as u32));
            assert((b[0] as u32) < (a[0] as u32));
        }
    }
}

/// Whether `a` is ranked no worse than `b` for the chosen direction:
/// strictly better score first, names breaking ties.
pub open spec fn player_le(ord: PROrder, a: PlayerV, b: PlayerV) -> bool {
    if a.score.same_value(b.score) {
        name_le(a.name, b.name)
    } else {
        match ord {
            PROrder::LoFirst => a.score.spec_lt(b.score),
            PROrder::HiFirst => b.score.spec_lt(a.score),
        }
    }
}

/// The comparator as a closed-over relation, for `sorted_by`.
pub open spec fn player_le_fn(ord: PROrder) -> spec_fn(PlayerV, PlayerV) -> bool {
    |a: PlayerV, b: PlayerV| player_le(ord, a, b)
}

pub proof fn lemma_player_le_total(ord: PROrder, a: PlayerV, b: PlayerV)
    requires
        a.score.valid(),
        b.score.valid(),
    ensures
        player_le(ord, a, b) || player_le(ord, b, a),
{
    if a.score.same_value(b.score) {
        lemma_name_le_total(a.name, b.name);
    }
}

pub proof fn lemma_player_le_trans(ord: PROrder, a: PlayerV, b: PlayerV, c: PlayerV)
    requires
        a.score.valid(),
        b.score.valid(),
        c.score.valid(),
        player_le(ord, a, b),
        player_le(ord, b, c),
    ensures
        player_le(ord, a, c),
{
    let x = a.score;
    let y = b.score;
    let z = c.score;
    if x.same_value(y) {
        if y.same_value(z) {
            Frac::lemma_same_value_trans(x, y, z);
            lemma_name_le_trans(a.name, b.name, c.name);
        } else {
            assert(!x.same_value(z)) by {
                if x.same_value(z) {
                    Frac::lemma_same_value_trans(y, x, z);
                }
            }
            match ord {
                PROrder::LoFirst => Frac::lemma_same_then_lt(x, y, z),
                PROrder::HiFirst => Frac::lemma_lt_then_same(z, y, x),
            }
        }
    } else {
        if y.same_value(z) {
            assert(!x.same_value(z)) by {
                if x.same_value(z) {
                    Frac::lemma_same_value_trans(x, z, y);
                }
            }
            match ord {
                PROrder::LoFirst => Frac::lemma_lt_then_same(x, y, z),
                PROrder::HiFirst => Frac::lemma_same_then_lt(z, y, x),
            }
        } else {
            match ord {
                PROrder::LoFirst => Frac::lemma_lt_trans(x, y, z),
                PROrder::HiFirst => Frac::lemma_lt_trans(z, y, x),
            }
        }
    }
}

/// No two players in the sequence share a name.
pub open spec fn distinct_names(s: Seq<PlayerV>) -> bool {
    forall|i: int, j: int| 0 <= i < j < s.len() ==> s[i].name != s[j].name
}

/// Lexicographic comparison of two names.
pub fn str_le(a: &str, b: &str) -> (r: bool)
    ensures
        r == name_le(a@, b@),
{
    let la = a.unicode_len();
    let lb = b.unicode_len();
    let mut i: usize = 0;
    proof {
        assert(a@.skip(0) =~= a@);
        assert(b@.skip(0) =~= b@);
    }
    while i < la && i < lb
        invariant
            0 <= i <= la,
            0 <= i <= lb,
            la == a@.len(),
            lb == b@.len(),
            name_le(a@, b@) == name_le(a@.skip(i as int), b@.skip(i as int)),
            name_le(b@, a@) == name_le(b@.skip(i as int), a@.skip(i as int)),
        decreases la - i,
    {
        let ca = a.get_char(i);
        let cb = b.get_char(i);
        if ca == cb {
            proof {
                assert(a@.skip(i as int).drop_first() =~= a@.skip(i as int + 1));
                assert(b@.skip(i as int).drop_first() =~= b@.skip(i as int + 1));
                assert(a@.skip(i as int)[0] == a@[i as int]);
                assert(b@.skip(i as int)[0] == b@[i as int]);
            }
            i += 1;
        } else {
            proof {
                assert(a@.skip(i as int)[0] == a@[i as int]);
                assert(b@.skip(i as int)[0] == b@[i as int]);
            }
            return (ca as u32) < (cb as u32);
        }
    }
    proof {
        assert(a@.skip(i as int).len() == 0 || b@.skip(i as int).len() == 0);
    }
    i == la
}

/// Two players ranked no worse than each other carry the same name and
/// equal score values.
proof fn lemma_player_le_both_ways(ord: PROrder, a: PlayerV, b: PlayerV)
    requires
        player_le(ord, a, b),
        player_le(ord, b, a),
    ensures
        a.name == b.name,
        a.score.same_value(b.score),
{
    if a.score.same_value(b.score) {
        lemma_name_le_antisymmetric(a.name, b.name);
    }
}

/// Two sequences sorted by the ranking order, holding the same players
/// (as a multiset) with no repeated name, are equal position by position.
pub proof fn lemma_sorted_distinct_unique(ord: PROrder, x: Seq<PlayerV>, y: Seq<PlayerV>)
    requires
        vstd::relations::sorted_by(x, player_le_fn(ord)),
        vstd::relations::sorted_by(y, player_le_fn(ord)),
        distinct_names(x),
        x.to_multiset() == y.to_multiset(),
    ensures
        x =~= y,
    decreases x.len(),
{
    broadcast use vstd::seq_lib::group_to_multiset_ensures;
    broadcast use vstd::multiset::group_multiset_axioms;

    if x.len() == 0 || y.len() == 0 {
        assert(x.len() == y.len());
    } else {
        assert(x.to_multiset().contains(x[0]));
        assert(y.contains(x[0]));
        assert(y.to_multiset().contains(y[0]));
        assert(x.contains(y[0]));
        let i = choose|i: int| 0 <= i < x.len() && x[i] == y[0];
        let j = choose|j: int| 0 <= j < y.len() && y[j] == x[0];
        assert(player_le_fn(ord)(x[0], x[i]) || i == 0);
        assert(player_le_fn(ord)(y[0], y[j]) || j == 0);
        assert(player_le(ord, x[i], x[0]) || j == 0) by {
            if j != 0 {
                assert(player_le_fn(ord)(y[0], y[j]));
            }
        }
        if i != 0 && j != 0 {
            lemma_player_le_both_ways(ord, x[0], x[i]);
            assert(x[i].name == x[0].name);
            assert(false);
        }
        assert(x[0] == y[0]);
        assert(x.drop_first().to_multiset() =~= x.to_multiset().remove(x[0])) by {
            assert(x.remove(0) =~= x.drop_first());
            vstd::seq_lib::to_multiset_remove(x, 0);
        }
        assert(y.drop_first().to_multiset() =~= y.to_multiset().remove(y[0])) by {
            assert(y.remove(0) =~= y.drop_first());
            vstd::seq_lib::to_multiset_remove(y, 0);
        }
        assert(vstd::relations::sorted_by(x.drop_first(), player_le_fn(ord))) by {
            assert(forall|a: int, b: int|
                0 <= a < b < x.len() - 1 ==> x.drop_first()[a] == x[a + 1] && x.drop_first()[b]
                    == x[b + 1]);
        }
        assert(vstd::relations::sorted_by(y.drop_first(), player_le_fn(ord))) by {
            assert(forall|a: int, b: int|
                0 <= a < b < y.len() - 1 ==> y.drop_first()[a] == y[a + 1] && y.drop_first()[b]
                    == y[b + 1]);
        }
        assert(distinct_names(x.drop_first())) by {
            assert(forall|a: int|
                0 <= a < x.len() - 1 ==> x.drop_first()[a] == x[a + 1]);
        }
        lemma_sorted_distinct_unique(ord, x.drop_first(), y.drop_first());
        assert forall|k: int| 0 <= k < x.len() implies x[k] == y[k] by {
            if k > 0 {
                assert(x.drop_first()[k - 1] == y.drop_first()[k - 1]);
            }
        }
    }
}

/// Exact equality of two names.
pub fn str_eq(a: &str, b: &str) -> (r: bool)
    ensures
        r == (a@ == b@),
{
    let la = a.unicode_len();
    let lb = b.unicode_len();
    if la != lb {
        return false;
    }
    let mut i: usize = 0;
    while i < la
        invariant
            0 <= i <= la,
            la == a@.len(),
            la == b@.len(),
            forall|k: int| 0 <= k < i ==> a@[k] == b@[k],
        decreases la - i,
    {
        let ca = a.get_char(i);
        let cb = b.get_char(i);
        if ca != cb {
            return false;
        }
        i += 1;
    }
    proof {
        assert(a@ =~= b@);
    }
    true
}

/// Executable form of the ranking comparator.
pub fn player_le_exec(ord: &PROrder, a: &Player, b: &Player) -> (r: bool)
    requires
        a@.score.valid(),
        b@.score.valid(),
    ensures
        r == player_le(*ord, a@, b@),
{
    if a.score.same(&b.score) {
        str_le(a.name.as_str(), b.name.as_str())
    } else {
        match ord {
            PROrder::LoFirst => !b.score.le(&a.score),
            PROrder::HiFirst => !a.score.le(&b.score),
        }
    }
}

/// Sorts the players by the ranking comparator: scores in the chosen
/// direction, names breaking ties.
pub fn sort_players(v: &mut Vec<Player>, ord: &PROrder)
    requires
        forall|k: int| 0 <= k < old(v)@.len() ==> (#[trigger] old(v)@[k])@.score.valid(),
    ensures
        final(v)@.len() == old(v)@.len(),
        vstd::relations::sorted_by(views(final(v)@), player_le_fn(*ord)),
        views(final(v)@).to_multiset() == views(old(v)@).to_multiset(),
        distinct_names(views(old(v)@)) ==> distinct_names(views(final(v)@)),
        forall|k: int| 0 <= k < final(v)@.len() ==> (#[trigger] final(v)@[k])@.score.valid(),
{
    if v.len() < 2 {
        proof {
            assert(views(v@).len() == v@.len());
        }
        return ;
    }
    let ghost orig = views(old(v)@);
    let mut i: usize = 1;
    while i < v.len()
        invariant
            1 <= i <= v@.len(),
            v@.len() == orig.len(),
            v@.len() >= 2,
            views(v@).to_multiset() == orig.to_multiset(),
            distinct_names(orig) ==> distinct_names(views(v@)),
            forall|k: int| 0 <= k < v@.len() ==> (#[trigger] v@[k])@.score.valid(),
            forall|a: int, b: int|
                0 <= a < b < i ==> player_le(*ord, views(v@)[a], views(v@)[b]),
        decreases v@.len() - i,
    {
        let ghost snap = v@;
        let mut j: usize = i;
        while j > 0 && !player_le_exec(ord, &v[j - 1], &v[i])
            invariant
                0 <= j <= i < v@.len(),
                v@ == snap,
                forall|k: int| 0 <= k < v@.len() ==> (#[trigger] v@[k])@.score.valid(),
                forall|k: int| j <= k < i ==> !player_le(*ord, views(v@)[k], views(v@)[i as int]),
            decreases j,
        {
            j -= 1;
        }
        let ghost el = views(v@)[i as int];
        proof {
            assert(forall|k: int| j <= k < i ==> !player_le(*ord, views(v@)[k], el));
            assert forall|k: int| j <= k < i implies player_le(*ord, el, views(v@)[k]) by {
                lemma_player_le_total(*ord, el, views(v@)[k]);
            }
        }
        let ghost before = views(v@);
        let p = v.remove(i);
        v.insert(j, p);
        proof {
            assert(views(v@) =~= before.remove(i as int).insert(j as int, el)) by {
                assert(v@ =~= snap.remove(i as int).insert(j as int, snap[i as int]));
                assert(forall|k: int| 0 <= k < v@.len() ==> views(v@)[k] == v@[k]@);
            }
            let now = views(v@);
            vstd::seq_lib::to_multiset_remove(before, i as int);
            vstd::seq_lib::to_multiset_insert(before.remove(i as int), j as int, el);
            vstd::seq_lib::to_multiset_contains(before, el);
            assert(before[i as int] == el);
            assert(before.contains(el));
            broadcast use vstd::multiset::group_multiset_axioms;

            assert(now.to_multiset() =~= before.to_multiset());
            // each position of the new sequence is a position of the old one
            assert(forall|k: int| 0 <= k < j ==> now[k] == before[k]);
            assert(now[j as int] == el && el == before[i as int]);
            assert(forall|k: int| j < k <= i ==> now[k] == before[k - 1]);
            assert(forall|k: int| i < k < now.len() ==> now[k] == before[k]);
            assert(distinct_names(orig) ==> distinct_names(now)) by {
                if distinct_names(orig) {
                    assert forall|x: int, y: int| 0 <= x < y < now.len() implies now[x].name
                        != now[y].name by {
                        let fx: int = if x < j {
                            x
                        } else if x == j {
                            i as int
                        } else if x <= i {
                            x - 1
                        } else {
                            x
                        };
                        let fy: int = if y < j {
                            y
                        } else if y == j {
                            i as int
                        } else if y <= i {
                            y - 1
                        } else {
                            y
                        };
                        assert(now[x] == before[fx]);
                        assert(now[y] == before[fy]);
                        assert(fx != fy);
                    }
                }
            }
            // the prefix of length i + 1 is sorted
            assert forall|a: int, b: int| 0 <= a < b < i + 1 implies player_le(
                *ord,
                now[a],
                now[b],
            ) by {
                if b < j as int {
                } else if a < j && b == j {
                    assert(player_le(*ord, before[j - 1], el));
                    if a < j - 1 {
                        assert(player_le(*ord, before[a], before[j - 1]));
                        lemma_player_le_trans(*ord, before[a], before[j - 1], el);
                    }
                } else if a == j && b > j {
                    assert(player_le(*ord, el, before[b - 1]));
                } else if a < j && b > j {
                    assert(player_le(*ord, before[a], before[b - 1]));
                } else {
                    assert(player_le(*ord, before[a - 1], before[b - 1]));
                }
            }
        }
        i += 1;
    }
    proof {
        assert(vstd::relations::sorted_by(views(v@), player_le_fn(*ord))) by {
            assert(forall|a: int, b: int|
                0 <= a < b < views(v@).len() ==> #[trigger] player_le_fn(*ord)(
                    views(v@)[a],
                    views(v@)[b],
                ));
        }
    }
}

} // verus!
