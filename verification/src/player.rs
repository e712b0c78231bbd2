//! A ranked player: identity, per-tournament placements, current score and
//! rank history.
//!
//! Placements are kept as a list of `(tournament_id, placement)` pairs in
//! strictly increasing id order, so the list represents a mapping with at
//! most one entry per tournament; `pm` is that mapping.

use crate::frac::Frac;
use crate::scoring::ids_below;
use crate::scoring::max_placement;
use crate::scoring::placements_wf;
use crate::scoring::sum_max_placements;
use vstd::prelude::*;

verus! {

/// The mathematical content of a player.
#[verifier::ext_equal]
pub struct PlayerV {
    pub name: Seq<char>,
    pub placements: Seq<(u32, u32)>,
    pub history: Seq<u32>,
    pub score: Frac,
}

impl PlayerV {
    /// Placements form a mapping in increasing id order and the score is a
    /// defined fraction.
    pub open spec fn wf(self) -> bool {
        placements_wf(self.placements) && self.score.valid()
    }
}

/// The views of a sequence of players.
pub open spec fn views(s: Seq<Player>) -> Seq<PlayerV> {
    s.map_values(|p: Player| p@)
}

/// The mapping from tournament id to recorded placement that a placement
/// list represents.
pub open spec fn pm(pl: Seq<(u32, u32)>) -> Map<u32, u32>
    decreases pl.len(),
{
    if pl.len() == 0 {
        Map::empty()
    } else {
        pm(pl.drop_last()).insert(pl.last().0, pl.last().1)
    }
}

/// Overwriting the value at index `i` updates the mapping at that entry's key.
proof fn lemma_pm_update(pl: Seq<(u32, u32)>, i: int, val: u32)
    requires
        placements_wf(pl),
        0 <= i < pl.len(),
    ensures
        pm(pl.update(i, (pl[i].0, val))) == pm(pl).insert(pl[i].0, val),
    decreases pl.len(),
{
    let k = pl[i].0;
    let upd = pl.update(i, (k, val));
    if i == pl.len() - 1 {
        assert(upd.drop_last() =~= pl.drop_last());
        assert(pm(pl.drop_last()).insert(k, pl.last().1).insert(k, val) =~= pm(
            pl.drop_last(),
        ).insert(k, val));
    } else {
        assert(placements_wf(pl.drop_last())) by {
            assert(forall|a: int, b: int|
                0 <= a < b < pl.len() - 1 ==> pl.drop_last()[a].0 < pl.drop_last()[b].0);
        }
        assert(pl.drop_last()[i] == pl[i]);
        lemma_pm_update(pl.drop_last(), i, val);
        assert(upd.drop_last() =~= pl.drop_last().update(i, (k, val)));
        assert(upd.last() == pl.last());
        assert(k < pl.last().0);
        assert(pm(pl.drop_last()).insert(k, val).insert(pl.last().0, pl.last().1) =~= pm(
            pl.drop_last(),
        ).insert(pl.last().0, pl.last().1).insert(k, val));
    }
}

/// Inserting a fresh key at its ordered position updates the mapping at
/// that key.
proof fn lemma_pm_insert(pl: Seq<(u32, u32)>, i: int, id: u32, val: u32)
    requires
        placements_wf(pl),
        0 <= i <= pl.len(),
        forall|k: int| 0 <= k < i ==> pl[k].0 < id,
        forall|k: int| i <= k < pl.len() ==> pl[k].0 > id,
    ensures
        pm(pl.insert(i, (id, val))) == pm(pl).insert(id, val),
    decreases pl.len(),
{
    let ins = pl.insert(i, (id, val));
    if i == pl.len() {
        assert(ins.drop_last() =~= pl);
        assert(ins.last() == (id, val));
    } else {
        assert(placements_wf(pl.drop_last())) by {
            assert(forall|a: int, b: int|
                0 <= a < b < pl.len() - 1 ==> pl.drop_last()[a].0 < pl.drop_last()[b].0);
        }
        lemma_pm_insert(pl.drop_last(), i, id, val);
        assert(ins.drop_last() =~= pl.drop_last().insert(i, (id, val)));
        assert(ins.last() == pl.last());
        assert(id < pl.last().0) by {
            assert(pl[i].0 > id);
            if i < pl.len() - 1 {
                assert(pl[i].0 < pl.last().0);
            }
        }
        assert(pm(pl.drop_last()).insert(id, val).insert(pl.last().0, pl.last().1) =~= pm(
            pl.drop_last(),
        ).insert(pl.last().0, pl.last().1).insert(id, val));
    }
}

/// A player in the registry.  Identity is the name; the rank history gains
/// one entry per export stage.
#[derive(Debug, Clone)]
pub struct Player {
    pub name: String,
    pub placements: Vec<(u32, u32)>,
    pub pr_category_placements: Vec<u32>,
    pub score: Frac,
}

impl View for Player {
    type V = PlayerV;

    open spec fn view(&self) -> PlayerV {
        PlayerV {
            name: self.name@,
            placements: self.placements@,
            history: self.pr_category_placements@,
            score: self.score,
        }
    }
}

impl Player {
    /// A fresh player: no placements, no history, and a zero score that
    /// only a scoring stage gives meaning to.
    pub fn new(name: String) -> (p: Player)
        ensures
            p@.name == name@,
            p@.placements == Seq::<(u32, u32)>::empty(),
            p@.history == Seq::<u32>::empty(),
            p@.score == (Frac { num: 0, den: 1 }),
            p@.wf(),
    {
        Player {
            name,
            placements: Vec::new(),
            pr_category_placements: Vec::new(),
            score: Frac { num: 0, den: 1 },
        }
    }

    /// Records a placement for a tournament, overwriting any placement
    /// already recorded for that tournament.
    pub fn add_player_to_tournament(&mut self, tournament_id: u32, placement: u32)
        requires
            placements_wf(old(self)@.placements),
        ensures
            placements_wf(final(self)@.placements),
            pm(final(self)@.placements) == pm(old(self)@.placements).insert(
                tournament_id,
                placement,
            ),
            final(self)@.name == old(self)@.name,
            final(self)@.history == old(self)@.history,
            final(self)@.score == old(self)@.score,
            final(self)@.placements.len() <= old(self)@.placements.len() + 1,
            forall|t: int|
                ids_below(old(self)@.placements, t) && tournament_id < t ==> #[trigger] ids_below(
                    final(self)@.placements,
                    t,
                ),
    {
        let n = self.placements.len();
        let mut i: usize = 0;
        while i < n && self.placements[i].0 < tournament_id
            invariant
                0 <= i <= n,
                *self == *old(self),
                n == self.placements@.len(),
                forall|k: int| 0 <= k < i ==> self.placements@[k].0 < tournament_id,
            decreases n - i,
        {
            i += 1;
        }
        let ghost before = self.placements@;
        if i < n && self.placements[i].0 == tournament_id {
            self.placements.remove(i);
            self.placements.insert(i, (tournament_id, placement));
            proof {
                assert(self.placements@ =~= before.update(i as int, (tournament_id, placement)));
                lemma_pm_update(before, i as int, placement);
                assert(placements_wf(self.placements@)) by {
                    assert(forall|k: int|
                        0 <= k < before.len() ==> self.placements@[k].0 == before[k].0);
                }
                assert(forall|t: int|
                    ids_below(before, t) && tournament_id < t ==> ids_below(
                        self.placements@,
                        t,
                    )) by {
                    assert(forall|k: int|
                        0 <= k < before.len() ==> self.placements@[k].0 == before[k].0);
                }
            }
        } else {
            self.placements.insert(i, (tournament_id, placement));
            proof {
                assert(forall|k: int| i <= k < before.len() ==> before[k].0 > tournament_id) by {
                    if i < before.len() {
                        assert(before[i as int].0 > tournament_id);
                        assert(forall|k: int|
                            i < k < before.len() ==> before[i as int].0 < before[k].0);
                    }
                }
                lemma_pm_insert(before, i as int, tournament_id, placement);
                assert(placements_wf(self.placements@)) by {
                    assert(forall|k: int| 0 <= k < i ==> self.placements@[k] == before[k]);
                    assert(self.placements@[i as int] == (tournament_id, placement));
                    assert(forall|k: int|
                        i < k < self.placements@.len() ==> self.placements@[k] == before[k - 1]);
                }
                assert(forall|t: int|
                    ids_below(before, t) && tournament_id < t ==> ids_below(
                        self.placements@,
                        t,
                    )) by {
                    assert(forall|k: int| 0 <= k < i ==> self.placements@[k] == before[k]);
                    assert(forall|k: int|
                        i < k < self.placements@.len() ==> self.placements@[k] == before[k - 1]);
                }
            }
        }
    }

    /// The largest (worst) raw placement number this player has recorded,
    /// 0 when none is recorded.
    pub fn get_worst_placement(&self) -> (r: u32)
        ensures
            r as int == max_placement(self@.placements),
    {
        let parts = sum_max_placements(&self.placements);
        parts.1
    }

    /// How many tournaments this player entered.
    pub fn get_num_tournaments_entered(&self) -> (r: u32)
        requires
            self@.placements.len() <= u32::MAX as int,
        ensures
            r as int == self@.placements.len(),
    {
        self.placements.len() as u32
    }

    pub fn get_name(&self) -> (r: &str)
        ensures
            r@ == self@.name,
    {
        self.name.as_str()
    }

    pub fn get_score(&self) -> (r: Frac)
        ensures
            r == self@.score,
    {
        self.score
    }

    /// A player stays eligible for ranking with at least four tournaments.
    pub fn qualifies_for_pr(&self) -> (r: bool)
        ensures
            r == (self@.placements.len() >= 4),
    {
        self.placements.len() >= 4
    }
}

/// Player equality is identity equality: the name alone, case-sensitive.
impl PartialEq for Player {
    fn eq(&self, other: &Player) -> (r: bool) {
        crate::order::str_eq(self.name.as_str(), other.name.as_str())
    }
}

impl vstd::std_specs::cmp::PartialEqSpecImpl for Player {
    open spec fn obeys_eq_spec() -> bool {
        true
    }

    open spec fn eq_spec(&self, other: &Player) -> bool {
        self.name@ == other.name@
    }
}

/// Players order by their current score alone; equal score values
/// compare equal here, whatever the names.
impl PartialOrd for Player {
    fn partial_cmp(&self, other: &Player) -> (r: Option<core::cmp::Ordering>) {
        if !self.score.le(&other.score) {
            Some(core::cmp::Ordering::Greater)
        } else if !other.score.le(&self.score) {
            Some(core::cmp::Ordering::Less)
        } else {
            Some(core::cmp::Ordering::Equal)
        }
    }
}

impl vstd::std_specs::cmp::PartialOrdSpecImpl for Player {
    open spec fn obeys_partial_cmp_spec() -> bool {
        true
    }

    open spec fn partial_cmp_spec(&self, other: &Player) -> Option<core::cmp::Ordering> {
        if self.score.spec_lt(other.score) {
            Some(core::cmp::Ordering::Less)
        } else if other.score.spec_lt(self.score) {
            Some(core::cmp::Ordering::Greater)
        } else {
            Some(core::cmp::Ordering::Equal)
        }
    }
}

} // verus!
