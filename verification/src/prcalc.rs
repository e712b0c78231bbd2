//! The power-ranking engine: the tournament catalog, the player registry,
//! the qualification filter, the scoring stages and the ranked export.

use crate::constants::CalculationMethods;
use crate::frac::Frac;
use crate::order::distinct_names;
use crate::order::player_le;
use crate::order::player_le_fn;
use crate::order::sort_players;
use crate::order::str_eq;
use crate::player::pm;
use crate::player::views;
use crate::player::Player;
use crate::player::PlayerV;
use crate::scoring::denom_val;
use crate::scoring::ids_below;
use crate::scoring::last_five;
use crate::scoring::lemma_sum_placements_bounds;
use crate::scoring::lemma_sum_points_bounds;
use crate::scoring::lemma_sum_ranks_bounds;
use crate::scoring::lemma_sum_weighted_bounds;
use crate::scoring::lemma_total_entrants_bounds;
use crate::scoring::lemma_wf_len;
use crate::scoring::median_den;
use crate::scoring::median_num;
use crate::scoring::median_parts;
use crate::scoring::placements_wf;
use crate::scoring::score_den;
use crate::scoring::score_num;
use crate::scoring::sum_last_five;
use crate::scoring::sum_max_placements;
use crate::scoring::sum_min_points;
use crate::scoring::sum_min_weighted;
use crate::scoring::total_entrants;
use crate::scoring::total_entrants_exec;
use crate::scoring::wsum_drop;
use vstd::prelude::*;

verus! {

/// One registered tournament: a name and how many players entered it.
/// Tournaments are identified by the order of registration.
#[derive(Debug, Clone, PartialEq, Eq)]
pub struct TournamentDetails {
    pub tournament_name: String,
    pub tournament_entrants: u32,
}

/// Whether an export lists the smallest scores first (for formulas where
/// lower is better) or the largest (where higher is better).
#[derive(Debug, Clone, Copy, PartialEq, Eq, Structural)]
pub enum PROrder {
    LoFirst,
    HiFirst,
}

/// The errors the engine can report.
#[derive(Debug, Clone, Copy, PartialEq, Eq, Structural)]
pub enum PrError {
    /// A placement was recorded for a name that was never registered.
    UnknownPlayer,
    /// A tournament id outside the registered range was used.
    UnknownTournament,
    /// An aggregate entrant statistic was requested of an empty catalog.
    EmptyCatalog,
}

/// The entrant counts of the catalog, indexed by tournament id.
pub open spec fn entrants_of(ts: Seq<TournamentDetails>) -> Seq<u32> {
    ts.map_values(|t: TournamentDetails| t.tournament_entrants)
}

/// A player keeps ranking eligibility with at least four tournaments entered.
pub open spec fn qualified_pred() -> spec_fn(PlayerV) -> bool {
    |p: PlayerV| p.placements.len() >= 4
}

/// Whether some player in the sequence carries this name.
pub open spec fn has_player(s: Seq<PlayerV>, name: Seq<char>) -> bool {
    exists|k: int| 0 <= k < s.len() && s[k].name == name
}

/// The catalog of tournaments and the registry of players.
pub struct PowerRankings {
    pub tournaments: Vec<TournamentDetails>,
    pub players: Vec<Player>,
}

impl PowerRankings {
    /// Tournament ids fit in `u32`, player names are distinct, and every
    /// player is well formed with placements inside the catalog.
    pub open spec fn wf(self) -> bool {
        &&& self.tournaments@.len() <= u32::MAX as int
        &&& distinct_names(views(self.players@))
        &&& forall|k: int|
            0 <= k < self.players@.len() ==> (#[trigger] self.players@[k])@.wf() && ids_below(
                self.players@[k]@.placements,
                self.tournaments@.len() as int,
            )
    }

    pub fn new() -> (s: Self)
        ensures
            s.wf(),
            s.tournaments@ == Seq::<TournamentDetails>::empty(),
            s.players@ == Seq::<Player>::empty(),
    {
        PowerRankings { tournaments: Vec::new(), players: Vec::new() }
    }

    /// Appends a tournament and returns its id, the next in the dense
    /// zero-based sequence of ids.
    pub fn add_tournament(&mut self, name: String, num_players: u32) -> (id: u32)
        requires
            old(self).wf(),
            old(self).tournaments@.len() < u32::MAX as int,
        ensures
            final(self).wf(),
            id as int == old(self).tournaments@.len(),
            final(self).tournaments@ == old(self).tournaments@.push(
                TournamentDetails { tournament_name: name, tournament_entrants: num_players },
            ),
            final(self).players@ == old(self).players@,
    {
        let details = TournamentDetails { tournament_name: name, tournament_entrants: num_players };
        let new_tournament_id = self.tournaments.len() as u32;
        self.tournaments.push(details);
        proof {
            assert forall|k: int| 0 <= k < self.players@.len() implies (
            #[trigger] self.players@[k])@.wf() && ids_below(
                self.players@[k]@.placements,
                self.tournaments@.len() as int,
            ) by {
                assert(ids_below(self.players@[k]@.placements, old(self).tournaments@.len() as int));
            }
        }
        new_tournament_id
    }

    /// Registers a player.  Registering an already-known name changes
    /// nothing: identity is the name alone.
    pub fn add_player(&mut self, name: String)
        requires
            old(self).wf(),
        ensures
            final(self).wf(),
            final(self).tournaments@ == old(self).tournaments@,
            has_player(views(old(self).players@), name@) ==> final(self).players@ == old(
                self,
            ).players@,
            !has_player(views(old(self).players@), name@) ==> views(final(self).players@) == views(
                old(self).players@,
            ).push(
                PlayerV {
                    name: name@,
                    placements: Seq::empty(),
                    history: Seq::empty(),
                    score: Frac { num: 0, den: 1 },
                },
            ),
    {
        let n = self.players.len();
        let mut k: usize = 0;
        while k < n
            invariant
                0 <= k <= n,
                old(self).wf(),
                self.tournaments@ == old(self).tournaments@,
                self.players@ == old(self).players@,
                n == self.players@.len(),
                forall|j: int| 0 <= j < k ==> views(self.players@)[j].name != name@,
            decreases n - k,
        {
            if str_eq(self.players[k].name.as_str(), name.as_str()) {
                proof {
                    assert(views(self.players@)[k as int].name == name@);
                    assert(views(self.players@) == views(old(self).players@));
                }
                return ;
            }
            k += 1;
        }
        let p = Player::new(name);
        self.players.push(p);
        proof {
            let prev = views(old(self).players@);
            assert(!has_player(prev, name@));
            assert(views(self.players@) =~= prev.push(p@)) by {
                assert(self.players@ =~= old(self).players@.push(p));
                assert(forall|j: int|
                    0 <= j < self.players@.len() ==> views(self.players@)[j]
                        == self.players@[j]@);
                assert(forall|j: int|
                    0 <= j < old(self).players@.len() ==> prev[j] == old(self).players@[j]@);
            }
            assert(p@ =~= (PlayerV {
                name: name@,
                placements: Seq::empty(),
                history: Seq::empty(),
                score: Frac { num: 0, den: 1 },
            }));
            assert(distinct_names(views(self.players@))) by {
                assert(forall|j: int|
                    0 <= j < prev.len() ==> views(self.players@)[j] == prev[j]);
                assert(views(self.players@)[prev.len() as int].name == name@);
                assert(forall|j: int| 0 <= j < prev.len() ==> prev[j].name != name@);
            }
            assert forall|j: int| 0 <= j < self.players@.len() implies (
            #[trigger] self.players@[j])@.wf() && ids_below(
                self.players@[j]@.placements,
                self.tournaments@.len() as int,
            ) by {
                if j < old(self).players@.len() {
                    assert(self.players@[j] == old(self).players@[j]);
                } else {
                    assert(self.players@[j] == p);
                }
            }
        }
    }

    /// Records a placement for a registered player in a registered
    /// tournament, overwriting any placement already recorded for that
    /// tournament.
    pub fn add_placement_to_player(
        &mut self,
        player_name: &str,
        tournament_id: u32,
        placement: u32,
    ) -> (r: Result<(), PrError>)
        requires
            old(self).wf(),
            placement >= 1,
        ensures
            final(self).wf(),
            final(self).tournaments@ == old(self).tournaments@,
            !has_player(views(old(self).players@), player_name@) ==> r == Err::<
                (),
                PrError,
            >(PrError::UnknownPlayer) && final(self).players@ == old(self).players@,
            has_player(views(old(self).players@), player_name@) && tournament_id as int
                >= old(self).tournaments@.len() ==> r == Err::<(), PrError>(
                PrError::UnknownTournament,
            ) && final(self).players@ == old(self).players@,
            has_player(views(old(self).players@), player_name@) && (tournament_id as int)
                < old(self).tournaments@.len() ==> r == Ok::<(), PrError>(()) && (exists|k: int|
                #![trigger views(old(self).players@)[k]]
                {
                    let ov = views(old(self).players@)[k];
                    let nv = views(final(self).players@)[k];
                    &&& 0 <= k < old(self).players@.len()
                    &&& ov.name == player_name@
                    &&& views(final(self).players@) == views(old(self).players@).update(k, nv)
                    &&& nv.name == ov.name
                    &&& nv.history == ov.history
                    &&& nv.score == ov.score
                    &&& placements_wf(nv.placements)
                    &&& pm(nv.placements) == pm(ov.placements).insert(tournament_id, placement)
                }),
    {
        let n = self.players.len();
        let mut k: usize = 0;
        while k < n
            invariant
                0 <= k <= n,
                old(self).wf(),
                self.tournaments@ == old(self).tournaments@,
                self.players@ == old(self).players@,
                n == self.players@.len(),
                forall|j: int| 0 <= j < k ==> views(self.players@)[j].name != player_name@,
            decreases n - k,
        {
            if str_eq(self.players[k].name.as_str(), player_name) {
                proof {
                    assert(views(self.players@)[k as int].name == player_name@);
                }
                if (tournament_id as usize) >= self.tournaments.len() {
                    proof {
                        assert(views(self.players@) == views(old(self).players@));
                    }
                    return Err(PrError::UnknownTournament);
                }
                let ghost prev = views(self.players@);
                proof {
                    assert(old(self).players@[k as int]@.wf());
                    assert(ids_below(
                        old(self).players@[k as int]@.placements,
                        old(self).tournaments@.len() as int,
                    ));
                }
                let mut p = self.players.remove(k);
                p.add_player_to_tournament(tournament_id, placement);
                self.players.insert(k, p);
                proof {
                    assert(views(self.players@) =~= prev.update(k as int, p@)) by {
                        assert(self.players@ =~= old(self).players@.remove(k as int).insert(
                            k as int,
                            p,
                        ));
                        assert(self.players@ =~= old(self).players@.update(k as int, p));
                        assert(forall|j: int|
                            0 <= j < self.players@.len() ==> views(self.players@)[j]
                                == self.players@[j]@);
                        assert(forall|j: int|
                            0 <= j < old(self).players@.len() ==> prev[j] == old(
                                self,
                            ).players@[j]@);
                    }
                    assert(ids_below(p@.placements, self.tournaments@.len() as int)) by {
                        assert(ids_below(
                            old(self).players@[k as int]@.placements,
                            self.tournaments@.len() as int,
                        ));
                    }
                    assert(distinct_names(views(self.players@))) by {
                        assert(forall|j: int|
                            0 <= j < prev.len() && j != k ==> views(self.players@)[j] == prev[j]);
                        assert(views(self.players@)[k as int].name == prev[k as int].name);
                    }
                    assert forall|j: int| 0 <= j < self.players@.len() implies (
                    #[trigger] self.players@[j])@.wf() && ids_below(
                        self.players@[j]@.placements,
                        self.tournaments@.len() as int,
                    ) by {
                        if j != k {
                            assert(self.players@[j] == old(self).players@[j]);
                        }
                    }
                    assert(views(self.players@)[k as int] == p@);
                }
                return Ok(());
            }
            k += 1;
        }
        Err(PrError::UnknownPlayer)
    }

    /// Removes, permanently, every player who entered fewer than four
    /// tournaments.
    pub fn get_only_qualified_players(&mut self)
        requires
            old(self).wf(),
        ensures
            final(self).wf(),
            final(self).tournaments@ == old(self).tournaments@,
            views(final(self).players@) == views(old(self).players@).filter(qualified_pred()),
    {
        let ghost orig = views(old(self).players@);
        let ghost pred = qualified_pred();
        let mut kept: Vec<Player> = Vec::new();
        let mut i: usize = 0;
        let n = self.players.len();
        proof {
            assert(orig.skip(0) =~= orig);
        }
        while self.players.len() > 0
            invariant
                0 <= i <= n,
                n as int == orig.len(),
                i + self.players@.len() == orig.len(),
                self.tournaments@ == old(self).tournaments@,
                old(self).wf(),
                orig == views(old(self).players@),
                pred == qualified_pred(),
                views(self.players@) =~= orig.skip(i as int),
                views(kept@) == orig.take(i as int).filter(pred),
                distinct_names(views(kept@)),
                forall|m: int|
                    #![trigger views(kept@)[m]]
                    0 <= m < kept@.len() ==> exists|j: int|
                        0 <= j < i && views(kept@)[m] == #[trigger] orig[j],
            decreases self.players@.len(),
        {
            let ghost before = self.players@;
            let p = self.players.remove(0);
            proof {
                assert(p@ == orig[i as int]) by {
                    assert(views(before)[0] == before[0]@);
                    assert(views(before)[0] == orig.skip(i as int)[0]);
                }
                assert(views(self.players@) =~= orig.skip(i as int + 1)) by {
                    assert(forall|m: int|
                        0 <= m < self.players@.len() ==> views(self.players@)[m]
                            == self.players@[m]@ && before[m + 1]@ == views(before)[m + 1]);
                }
                assert(orig.take(i as int + 1).drop_last() =~= orig.take(i as int));
                assert(orig.take(i as int + 1).last() == orig[i as int]);
            }
            let ghost kept_before = views(kept@);
            if p.qualifies_for_pr() {
                kept.push(p);
                proof {
                    assert(views(kept@) =~= kept_before.push(orig[i as int])) by {
                        assert(forall|m: int|
                            0 <= m < kept@.len() ==> views(kept@)[m] == kept@[m]@);
                        assert(forall|m: int|
                            0 <= m < kept_before.len() ==> kept_before[m] == kept@[m]@);
                    }
                    assert(pred(orig[i as int]));
                    assert(orig.take(i as int + 1).filter(pred) == orig.take(i as int).filter(
                        pred,
                    ).push(orig[i as int])) by {
                        reveal(Seq::filter);
                        assert(orig.take(i as int + 1).len() == i + 1);
                        assert(orig.take(i as int + 1).drop_last() =~= orig.take(i as int));
                        assert(orig.take(i as int + 1).last() == orig[i as int]);
                    }
                    assert(views(kept@) =~= orig.take(i as int + 1).filter(pred));
                    assert forall|m: int| #![trigger views(kept@)[m]] 0 <= m < kept@.len() implies
                        exists|j: int| 0 <= j < i + 1 && views(kept@)[m] == #[trigger] orig[j] by {
                        if m < kept_before.len() {
                            assert(views(kept@)[m] == kept_before[m]);
                            let j0 = choose|j: int|
                                0 <= j < i && kept_before[m] == #[trigger] orig[j];
                            assert(views(kept@)[m] == orig[j0]);
                        } else {
                            assert(views(kept@)[m] == orig[i as int]);
                        }
                    }
                    assert(distinct_names(views(kept@))) by {
                        assert forall|x: int, y: int|
                            0 <= x < y < views(kept@).len() implies views(kept@)[x].name != views(
                            kept@,
                        )[y].name by {
                            if y < kept_before.len() {
                                assert(views(kept@)[x] == kept_before[x]);
                                assert(views(kept@)[y] == kept_before[y]);
                            } else {
                                assert(views(kept@)[x] == kept_before[x]);
                                assert(views(kept@)[y] == orig[i as int]);
                                let j0 = choose|j: int|
                                    0 <= j < i && kept_before[x] == #[trigger] orig[j];
                                assert(orig[j0].name != orig[i as int].name);
                            }
                        }
                    }
                }
            } else {
                proof {
                    assert(!pred(orig[i as int]));
                    assert(orig.take(i as int + 1).filter(pred) == orig.take(i as int).filter(
                        pred,
                    )) by {
                        reveal(Seq::filter);
                        assert(orig.take(i as int + 1).len() == i + 1);
                        assert(orig.take(i as int + 1).drop_last() =~= orig.take(i as int));
                        assert(orig.take(i as int + 1).last() == orig[i as int]);
                    }
                    assert(views(kept@) =~= orig.take(i as int + 1).filter(pred));
                }
            }
            i += 1;
        }
        proof {
            assert(orig.take(i as int) =~= orig);
        }
        self.players = kept;
        proof {
            let now = views(self.players@);
            assert(now == orig.filter(pred));
            assert forall|j: int| 0 <= j < self.players@.len() implies (
            #[trigger] self.players@[j])@.wf() && ids_below(
                self.players@[j]@.placements,
                self.tournaments@.len() as int,
            ) by {
                assert(now[j] == self.players@[j]@);
                let j0 = choose|m: int| 0 <= m < orig.len() && now[j] == #[trigger] orig[m];
                assert(orig[j0] == old(self).players@[j0]@);
            }
        }
    }

    /// How many tournaments are registered.
    pub fn tournament_count(&self) -> (r: usize)
        ensures
            r == self.tournaments@.len(),
    {
        self.tournaments.len()
    }

    /// How many players are registered.
    pub fn player_count(&self) -> (r: usize)
        ensures
            r == self.players@.len(),
    {
        self.players.len()
    }

    /// All registered players.
    pub fn all_players(&self) -> (r: &Vec<Player>)
        ensures
            r@ == self.players@,
    {
        &self.players
    }

    /// The entrant count of a registered tournament.
    pub fn entrant_count_of(&self, tournament_id: u32) -> (r: Result<u32, PrError>)
        ensures
            (tournament_id as int) < self.tournaments@.len() ==> r == Ok::<u32, PrError>(
                self.tournaments@[tournament_id as int].tournament_entrants,
            ),
            tournament_id as int >= self.tournaments@.len() ==> r == Err::<u32, PrError>(
                PrError::UnknownTournament,
            ),
    {
        if (tournament_id as usize) < self.tournaments.len() {
            Ok(self.tournaments[tournament_id as usize].tournament_entrants)
        } else {
            Err(PrError::UnknownTournament)
        }
    }

    /// The arithmetic mean of all registered entrant counts, as an exact
    /// fraction.
    pub fn mean_entrant_count(&self) -> (r: Result<Frac, PrError>)
        ensures
            self.tournaments@.len() == 0 ==> r == Err::<Frac, PrError>(PrError::EmptyCatalog),
            self.tournaments@.len() >= 1 ==> r == Ok::<Frac, PrError>(
                Frac {
                    num: total_entrants(entrants_of(self.tournaments@)) as u128,
                    den: self.tournaments@.len() as u128,
                },
            ),
    {
        if self.tournaments.len() == 0 {
            return Err(PrError::EmptyCatalog);
        }
        let es = entrant_counts(&self.tournaments);
        let t = total_entrants_exec(&es);
        proof {
            lemma_total_entrants_bounds(es@);
        }
        Ok(Frac { num: t, den: self.tournaments.len() as u128 })
    }

    /// The median of all registered entrant counts, as an exact fraction:
    /// the middle element for an odd count, the mean of the two middle
    /// elements for an even count.
    pub fn median_entrant_count(&self) -> (r: Result<Frac, PrError>)
        ensures
            self.tournaments@.len() == 0 ==> r == Err::<Frac, PrError>(PrError::EmptyCatalog),
            self.tournaments@.len() >= 1 ==> r == Ok::<Frac, PrError>(
                Frac {
                    num: median_num(entrants_of(self.tournaments@)) as u128,
                    den: median_den(entrants_of(self.tournaments@)) as u128,
                },
            ),
    {
        if self.tournaments.len() == 0 {
            return Err(PrError::EmptyCatalog);
        }
        let es = entrant_counts(&self.tournaments);
        let mp = median_parts(&es);
        proof {
            crate::scoring::lemma_median_bounds(es@);
        }
        Ok(Frac { num: mp.0, den: mp.1 })
    }

    /// Runs one scoring formula over every player, overwriting each score
    /// wholesale.  The median and mean formulas need a non-empty catalog
    /// and report `EmptyCatalog` otherwise.
    pub fn calculate_scoring(&mut self, score_type: CalculationMethods) -> (r: Result<
        (),
        PrError,
    >)
        requires
            old(self).wf(),
            score_type == CalculationMethods::MedianPoints && old(self).tournaments@.len() >= 1
                ==> median_num(entrants_of(old(self).tournaments@)) >= 1,
            score_type == CalculationMethods::MeanPoints && old(self).tournaments@.len() >= 1
                ==> total_entrants(entrants_of(old(self).tournaments@)) >= 1,
        ensures
            final(self).wf(),
            final(self).tournaments@ == old(self).tournaments@,
            r == Err::<(), PrError>(PrError::EmptyCatalog) <==> ((score_type
                == CalculationMethods::MedianPoints || score_type
                == CalculationMethods::MeanPoints) && old(self).tournaments@.len() == 0),
            !((score_type == CalculationMethods::MedianPoints || score_type
                == CalculationMethods::MeanPoints) && old(self).tournaments@.len() == 0) ==> r
                is Ok,
            r is Err ==> final(self).players@ == old(self).players@,
            r is Ok ==> final(self).players@.len() == old(self).players@.len() && forall|m: int|
                0 <= m < final(self).players@.len() ==> views(final(self).players@)[m] == scored(
                    score_type,
                    entrants_of(old(self).tournaments@),
                    views(old(self).players@)[m],
                ),
    {
        let needs_catalog = match score_type {
            CalculationMethods::MedianPoints => true,
            CalculationMethods::MeanPoints => true,
            _ => false,
        };
        if needs_catalog && self.tournaments.len() == 0 {
            return Err(PrError::EmptyCatalog);
        }
        let es = entrant_counts(&self.tournaments);
        let mut mnum: u128 = 0;
        let mut mden: u128 = 1;
        let mut total: u128 = 0;
        match score_type {
            CalculationMethods::MedianPoints => {
                let mp = median_parts(&es);
                mnum = mp.0;
                mden = mp.1;
            },
            CalculationMethods::MeanPoints => {
                total = total_entrants_exec(&es);
            },
            _ => {},
        }
        let mut work: Vec<Player> = Vec::new();
        core::mem::swap(&mut self.players, &mut work);
        let rescored = score_all(work, score_type, &es, mnum, mden, total);
        self.players = rescored;
        proof {
            let es_seq = entrants_of(old(self).tournaments@);
            let prev = views(old(self).players@);
            let now = views(self.players@);
            assert(now.len() == prev.len());
            assert(forall|m: int| 0 <= m < now.len() ==> prev[m] == old(self).players@[m]@);
            assert(distinct_names(now)) by {
                assert(forall|m: int|
                    0 <= m < now.len() ==> (#[trigger] now[m]).name == prev[m].name);
            }
            assert forall|k: int| 0 <= k < self.players@.len() implies (
            #[trigger] self.players@[k])@.wf() && ids_below(
                self.players@[k]@.placements,
                self.tournaments@.len() as int,
            ) by {
                assert(now[k] == self.players@[k]@);
                assert(now[k] == scored(score_type, es_seq, prev[k]));
                assert(old(self).players@[k]@.wf());
                assert(ids_below(
                    old(self).players@[k]@.placements,
                    old(self).tournaments@.len() as int,
                ));
                assert(self.players@[k]@.score.valid());
            }
        }
        Ok(())
    }

    /// Sorts the registry by current score in the chosen direction (ties
    /// broken by name), assigns ranks 1 up to the player count in sorted
    /// order, appends each rank to its player's rank history, and returns
    /// the first `number` lines for the report.  Every player is ranked
    /// and recorded, whether or not it is among the returned lines.
    pub fn export_ordered(&mut self, order: PROrder, number: u32) -> (rows: Vec<ExportRow>)
        requires
            old(self).wf(),
            old(self).players@.len() <= u32::MAX as int,
        ensures
            final(self).wf(),
            final(self).tournaments@ == old(self).tournaments@,
            export_rel(order, views(old(self).players@), views(final(self).players@)),
            rows@.len() == vstd::math::min(number as int, old(self).players@.len() as int),
            forall|m: int|
                0 <= m < rows@.len() ==> (#[trigger] rows@[m]).rank as int == m + 1
                    && rows@[m].name@ == views(final(self).players@)[m].name && rows@[m].score
                    == views(final(self).players@)[m].score,
    {
        let ghost prev = views(old(self).players@);
        let mut work: Vec<Player> = Vec::new();
        core::mem::swap(&mut self.players, &mut work);
        proof {
            assert forall|k: int| 0 <= k < work@.len() implies (
            #[trigger] work@[k])@.score.valid() by {
                assert(old(self).players@[k]@.wf());
            }
            assert(views(work@) == prev);
            assert(distinct_names(prev));
        }
        sort_players(&mut work, &order);
        let ghost sorted0 = views(work@);
        let n = work.len();
        let mut rows: Vec<ExportRow> = Vec::new();
        let mut i: usize = 0;
        while i < n
            invariant
                0 <= i <= n,
                n == work@.len(),
                n as int == sorted0.len(),
                n as int <= u32::MAX as int,
                vstd::relations::sorted_by(sorted0, player_le_fn(order)),
                sorted0.to_multiset() == prev.to_multiset(),
                distinct_names(sorted0),
                forall|m: int|
                    i <= m < n ==> (#[trigger] views(work@)[m]) == sorted0[m],
                forall|m: int|
                    0 <= m < i ==> (#[trigger] views(work@)[m]) == with_rank(sorted0[m], m + 1),
                rows@.len() == vstd::math::min(i as int, number as int),
                forall|m: int|
                    0 <= m < rows@.len() ==> (#[trigger] rows@[m]).rank as int == m + 1
                        && rows@[m].name@ == sorted0[m].name && rows@[m].score == sorted0[m].score,
            decreases n - i,
        {
            let ghost wseq = work@;
            let ghost rows_before = rows@;
            let mut p = work.remove(i);
            proof {
                assert(p == wseq[i as int]);
                assert(p@ == views(wseq)[i as int]);
                assert(p@ == sorted0[i as int]);
            }
            p.pr_category_placements.push((i + 1) as u32);
            if (i as u32) < number {
                rows.push(ExportRow { rank: (i + 1) as u32, name: p.name.clone(), score: p.score });
            }
            work.insert(i, p);
            proof {
                assert(work@ =~= wseq.update(i as int, p));
                assert(p@ =~= with_rank(sorted0[i as int], i as int + 1));
                assert forall|m: int| 0 <= m < n implies #[trigger] views(work@)[m] == (if m
                    == i as int {
                    p@
                } else {
                    views(wseq)[m]
                }) by {
                    assert(views(work@)[m] == work@[m]@);
                    if m != i as int {
                        assert(work@[m] == wseq[m]);
                        assert(views(wseq)[m] == wseq[m]@);
                    }
                }
                if (i as u32) < number {
                    assert(forall|m: int|
                        0 <= m < rows_before.len() ==> #[trigger] rows@[m] == rows_before[m]);
                    assert(rows@[rows_before.len() as int].name@ == sorted0[i as int].name);
                } else {
                    assert(rows@ == rows_before);
                }
            }
            i += 1;
        }
        self.players = work;
        proof {
            let now = views(self.players@);
            let stripped = now.map_values(|p: PlayerV| strip_last_rank(p));
            assert(stripped =~= sorted0) by {
                assert forall|m: int| 0 <= m < n implies stripped[m] == sorted0[m] by {
                    assert(now[m] == with_rank(sorted0[m], m + 1));
                    assert(sorted0[m].history.push((m + 1) as u32).drop_last() =~= sorted0[m].history);
                    assert(strip_last_rank(now[m]) =~= sorted0[m]);
                }
            }
            assert(vstd::relations::sorted_by(now, player_le_fn(order))) by {
                assert forall|a: int, b: int| 0 <= a < b < now.len() implies #[trigger] player_le_fn(
                    order,
                )(now[a], now[b]) by {
                    assert(player_le_fn(order)(sorted0[a], sorted0[b]));
                    assert(now[a].score == sorted0[a].score && now[a].name == sorted0[a].name);
                    assert(now[b].score == sorted0[b].score && now[b].name == sorted0[b].name);
                    assert(player_le(order, now[a], now[b]) == player_le(
                        order,
                        sorted0[a],
                        sorted0[b],
                    ));
                }
            }
            assert forall|m: int| 0 <= m < now.len() implies (#[trigger] now[m]).history.len() >= 1
                && now[m].history.last() as int == m + 1 by {
                assert(now[m] == with_rank(sorted0[m], m + 1));
            }
            assert(export_rel(order, views(old(self).players@), now));
            assert(distinct_names(now)) by {
                assert forall|x: int, y: int| 0 <= x < y < now.len() implies now[x].name
                    != now[y].name by {
                    assert(now[x].name == sorted0[x].name && now[y].name == sorted0[y].name);
                }
            }
            assert forall|k: int| 0 <= k < self.players@.len() implies (
            #[trigger] self.players@[k])@.wf() && ids_below(
                self.players@[k]@.placements,
                self.tournaments@.len() as int,
            ) by {
                assert(self.players@[k]@ == now[k]);
                assert(now[k] == with_rank(sorted0[k], k + 1));
                vstd::seq_lib::to_multiset_contains(sorted0, sorted0[k]);
                vstd::seq_lib::to_multiset_contains(prev, sorted0[k]);
                assert(sorted0.contains(sorted0[k]));
                assert(prev.contains(sorted0[k]));
                let j = choose|j: int| 0 <= j < prev.len() && prev[j] == sorted0[k];
                assert(prev[j] == old(self).players@[j]@);
                assert(old(self).players@[j]@.wf());
                assert(ids_below(
                    old(self).players@[j]@.placements,
                    old(self).tournaments@.len() as int,
                ));
            }
        }
        rows
    }
}

/// One emitted leaderboard line: the assigned rank, the player's name and
/// the player's score at this stage.
#[derive(Debug, Clone)]
pub struct ExportRow {
    pub rank: u32,
    pub name: String,
    pub score: Frac,
}

/// A player with one more rank appended to the history.
pub open spec fn with_rank(v: PlayerV, r: int) -> PlayerV {
    PlayerV {
        name: v.name,
        placements: v.placements,
        history: v.history.push(r as u32),
        score: v.score,
    }
}

/// A player with the most recent rank removed from the history.
pub open spec fn strip_last_rank(v: PlayerV) -> PlayerV {
    PlayerV {
        name: v.name,
        placements: v.placements,
        history: v.history.drop_last(),
        score: v.score,
    }
}

/// What one export stage does to the registry: the same players, sorted by
/// the ranking order, each with its 1-based position appended to its rank
/// history.
pub open spec fn export_rel(ord: PROrder, before: Seq<PlayerV>, after: Seq<PlayerV>) -> bool {
    &&& after.len() == before.len()
    &&& after.map_values(|p: PlayerV| strip_last_rank(p)).to_multiset() == before.to_multiset()
    &&& vstd::relations::sorted_by(after, player_le_fn(ord))
    &&& forall|i: int|
        0 <= i < after.len() ==> (#[trigger] after[i]).history.len() >= 1
            && after[i].history.last() as int == i + 1
}

/// Qualification filtering keeps exactly the players with at least four
/// recorded placements: every survivor has four or more.
pub proof fn lemma_filter_keeps_qualified(s: Seq<PlayerV>)
    ensures
        forall|i: int|
            0 <= i < s.filter(qualified_pred()).len() ==> (#[trigger] s.filter(qualified_pred())[i]).placements.len() >= 4,
{
    assert forall|i: int|
        0 <= i < s.filter(qualified_pred()).len() implies (#[trigger] s.filter(qualified_pred())[i]).placements.len() >= 4 by {
        s.lemma_filter_pred(qualified_pred(), i);
    }
}

/// Filtering a second time changes nothing: every survivor of the first
/// pass still qualifies.
pub proof fn lemma_filter_idempotent(s: Seq<PlayerV>)
    ensures
        s.filter(qualified_pred()).filter(qualified_pred()) == s.filter(qualified_pred()),
{
    lemma_filter_all_kept(s.filter(qualified_pred()));
    lemma_filter_keeps_qualified(s);
}

/// A sequence whose players all qualify filters to itself.
proof fn lemma_filter_all_kept(s: Seq<PlayerV>)
    requires
        forall|i: int| 0 <= i < s.len() ==> (#[trigger] s[i]).placements.len() >= 4,
    ensures
        s.filter(qualified_pred()) == s,
    decreases s.len(),
{
    reveal(Seq::filter);
    if s.len() > 0 {
        assert(forall|i: int|
            0 <= i < s.len() - 1 ==> s.drop_last()[i] == s[i]);
        lemma_filter_all_kept(s.drop_last());
        assert(qualified_pred()(s.last()));
        assert(s.filter(qualified_pred()) =~= s);
    } else {
        assert(s.filter(qualified_pred()) =~= s);
    }
}

/// An export stage hands out the ranks 1 up to the player count with no
/// duplicates and no gaps: the player at sorted position `i` receives
/// rank `i + 1`.
pub proof fn lemma_export_ranks_complete(ord: PROrder, before: Seq<PlayerV>, after: Seq<PlayerV>)
    requires
        export_rel(ord, before, after),
    ensures
        forall|i: int, j: int|
            0 <= i < j < after.len() ==> (#[trigger] after[i].history.last()) != (
            #[trigger] after[j].history.last()),
        Seq::new(after.len(), |i: int| after[i].history.last() as int) =~= Seq::new(
            after.len(),
            |i: int| i + 1,
        ),
{
}

/// Exporting twice in a row is not idempotent on rank history (each call
/// appends one more rank for every player) but is idempotent on everything
/// an export emits: with distinct names, the second export keeps every
/// player at the same position with the same name, score and placements,
/// so the emitted (rank, name, score) lines repeat exactly.
pub proof fn lemma_export_idempotence(ord: PROrder, a1: Seq<PlayerV>, a2: Seq<PlayerV>)
    requires
        distinct_names(a1),
        vstd::relations::sorted_by(a1, player_le_fn(ord)),
        export_rel(ord, a1, a2),
    ensures
        forall|i: int|
            0 <= i < a2.len() ==> (#[trigger] a2[i]).name == a1[i].name && a2[i].score
                == a1[i].score && a2[i].placements == a1[i].placements && a2[i].history
                == a1[i].history.push((i + 1) as u32),
{
    let stripped = a2.map_values(|p: PlayerV| strip_last_rank(p));
    assert(vstd::relations::sorted_by(stripped, player_le_fn(ord))) by {
        assert forall|a: int, b: int| 0 <= a < b < stripped.len() implies #[trigger] player_le_fn(
            ord,
        )(stripped[a], stripped[b]) by {
            assert(player_le_fn(ord)(a2[a], a2[b]));
            assert(stripped[a].name == a2[a].name && stripped[a].score == a2[a].score);
            assert(stripped[b].name == a2[b].name && stripped[b].score == a2[b].score);
            assert(player_le(ord, stripped[a], stripped[b]) == player_le(ord, a2[a], a2[b]));
        }
    }
    crate::order::lemma_sorted_distinct_unique(ord, a1, stripped);
    assert forall|i: int| 0 <= i < a2.len() implies (#[trigger] a2[i]).name == a1[i].name
        && a2[i].score == a1[i].score && a2[i].placements == a1[i].placements && a2[i].history
        == a1[i].history.push((i + 1) as u32) by {
        assert(stripped[i] == a1[i]);
        assert(a2[i].history.drop_last() == a1[i].history);
        assert(a2[i].history.len() >= 1);
        assert(a2[i].history =~= a2[i].history.drop_last().push(a2[i].history.last()));
        assert(a2[i].history.last() == (i + 1) as u32);
    }
}

/// A player after a scoring stage: the same player, with the score the
/// formula assigns from the catalog's entrant counts, the placements and
/// the rank history.
pub open spec fn scored(m: CalculationMethods, es: Seq<u32>, v: PlayerV) -> PlayerV {
    PlayerV {
        name: v.name,
        placements: v.placements,
        history: v.history,
        score: Frac {
            num: score_num(m, es, v.placements, v.history) as u128,
            den: score_den(m, es, v.placements) as u128,
        },
    }
}

/// The entrant count of every registered tournament, by tournament id.
fn entrant_counts(ts: &Vec<TournamentDetails>) -> (es: Vec<u32>)
    ensures
        es@ == entrants_of(ts@),
{
    let n = ts.len();
    let mut es: Vec<u32> = Vec::new();
    let mut i: usize = 0;
    while i < n
        invariant
            0 <= i <= n,
            n == ts@.len(),
            es@ =~= entrants_of(ts@).take(i as int),
        decreases n - i,
    {
        es.push(ts[i].tournament_entrants);
        i += 1;
    }
    proof {
        assert(entrants_of(ts@).take(n as int) =~= entrants_of(ts@));
    }
    es
}

/// One formula applied to one player.
fn compute_score(
    p: &Player,
    score_type: CalculationMethods,
    es: &Vec<u32>,
    mnum: u128,
    mden: u128,
    total: u128,
) -> (f: Frac)
    requires
        placements_wf(p@.placements),
        ids_below(p@.placements, es@.len() as int),
        es@.len() <= u32::MAX as int,
        score_type == CalculationMethods::MedianPoints ==> es@.len() >= 1 && mnum as int
            == median_num(es@) && mden as int == median_den(es@) && median_num(es@) >= 1,
        score_type == CalculationMethods::MeanPoints ==> total as int == total_entrants(es@)
            && total_entrants(es@) >= 1,
    ensures
        f.num as int == score_num(score_type, es@, p@.placements, p@.history),
        f.den as int == score_den(score_type, es@, p@.placements),
        f.valid(),
{
    let n = p.placements.len();
    proof {
        lemma_wf_len(p@.placements, es@.len() as int);
    }
    let d = denom_val(n);
    match score_type {
        CalculationMethods::AveragePlacement => {
            let parts = sum_max_placements(&p.placements);
            proof {
                lemma_sum_placements_bounds(p@.placements);
            }
            let num = if n > 4 {
                parts.0 - parts.1 as u128
            } else {
                parts.0
            };
            Frac { num, den: d }
        },
        CalculationMethods::WeightedPoints => {
            let parts = sum_min_weighted(&p.placements, es);
            proof {
                lemma_sum_weighted_bounds(p@.placements, es@);
            }
            let num = if n > 4 {
                parts.0 - parts.1
            } else {
                parts.0
            };
            Frac { num, den: 20 * d }
        },
        CalculationMethods::MedianPoints => {
            let parts = sum_min_weighted(&p.placements, es);
            proof {
                lemma_sum_weighted_bounds(p@.placements, es@);
                vstd::arithmetic::mul::lemma_mul_inequality(
                    p@.placements.len() as int * 22,
                    (u32::MAX as int) * 22,
                    u32::MAX as int,
                );
                vstd::arithmetic::mul::lemma_mul_upper_bound(
                    wsum_drop(p@.placements, es@),
                    (u32::MAX as int) * 22 * (u32::MAX as int),
                    mden as int,
                    2,
                );
                vstd::arithmetic::mul::lemma_mul_upper_bound(
                    2 * mnum as int,
                    4 * (u32::MAX as int),
                    d as int,
                    u32::MAX as int,
                );
                vstd::arithmetic::mul::lemma_mul_strictly_positive(2 * mnum as int, d as int);
            }
            let base = if n > 4 {
                parts.0 - parts.1
            } else {
                parts.0
            };
            let num = base * mden;
            let den = 2 * mnum * d;
            Frac { num, den }
        },
        CalculationMethods::MeanPoints => {
            let parts = sum_min_weighted(&p.placements, es);
            proof {
                lemma_sum_weighted_bounds(p@.placements, es@);
                vstd::arithmetic::mul::lemma_mul_inequality(
                    p@.placements.len() as int * 22,
                    (u32::MAX as int) * 22,
                    u32::MAX as int,
                );
                vstd::arithmetic::mul::lemma_mul_upper_bound(
                    wsum_drop(p@.placements, es@),
                    (u32::MAX as int) * 22 * (u32::MAX as int),
                    es@.len() as int,
                    u32::MAX as int,
                );
                lemma_total_entrants_bounds(es@);
                vstd::arithmetic::mul::lemma_mul_inequality(
                    es@.len() as int,
                    u32::MAX as int,
                    u32::MAX as int,
                );
                vstd::arithmetic::mul::lemma_mul_upper_bound(
                    2 * total as int,
                    2 * (u32::MAX as int) * (u32::MAX as int),
                    d as int,
                    u32::MAX as int,
                );
                vstd::arithmetic::mul::lemma_mul_strictly_positive(2 * total as int, d as int);
            }
            let base = if n > 4 {
                parts.0 - parts.1
            } else {
                parts.0
            };
            let num = base * (es.len() as u128);
            let den = 2 * total * d;
            Frac { num, den }
        },
        CalculationMethods::UnweightedPoints => {
            let parts = sum_min_points(&p.placements);
            proof {
                lemma_sum_points_bounds(p@.placements);
            }
            let num = if n > 4 {
                parts.0 - parts.1
            } else {
                parts.0
            };
            Frac { num, den: 2 * d }
        },
        CalculationMethods::OverallPRPlacement => {
            let s = sum_last_five(&p.pr_category_placements);
            proof {
                lemma_sum_ranks_bounds(last_five(p@.history));
            }
            Frac { num: s, den: 5 }
        },
    }
}

/// One formula applied to every player.
fn score_all(
    src: Vec<Player>,
    score_type: CalculationMethods,
    es: &Vec<u32>,
    mnum: u128,
    mden: u128,
    total: u128,
) -> (out: Vec<Player>)
    requires
        forall|k: int|
            0 <= k < src@.len() ==> placements_wf((#[trigger] src@[k])@.placements) && ids_below(
                src@[k]@.placements,
                es@.len() as int,
            ),
        es@.len() <= u32::MAX as int,
        score_type == CalculationMethods::MedianPoints ==> es@.len() >= 1 && mnum as int
            == median_num(es@) && mden as int == median_den(es@) && median_num(es@) >= 1,
        score_type == CalculationMethods::MeanPoints ==> total as int == total_entrants(es@)
            && total_entrants(es@) >= 1,
    ensures
        out@.len() == src@.len(),
        forall|m: int|
            0 <= m < out@.len() ==> views(out@)[m] == scored(score_type, es@, views(src@)[m]),
        forall|m: int| 0 <= m < out@.len() ==> (#[trigger] out@[m])@.score.valid(),
{
    let ghost orig = src@;
    let mut src = src;
    let mut out: Vec<Player> = Vec::new();
    let mut i: usize = 0;
    let n = src.len();
    proof {
        assert(orig.skip(0) =~= orig);
    }
    while src.len() > 0
        invariant
            0 <= i <= n,
            n as int == orig.len(),
            i + src@.len() == orig.len(),
            src@ =~= orig.skip(i as int),
            forall|k: int|
                0 <= k < orig.len() ==> placements_wf((#[trigger] orig[k])@.placements)
                    && ids_below(orig[k]@.placements, es@.len() as int),
            es@.len() <= u32::MAX as int,
            score_type == CalculationMethods::MedianPoints ==> es@.len() >= 1 && mnum as int
                == median_num(es@) && mden as int == median_den(es@) && median_num(es@) >= 1,
            score_type == CalculationMethods::MeanPoints ==> total as int == total_entrants(es@)
                && total_entrants(es@) >= 1,
            out@.len() == i,
            forall|m: int|
                0 <= m < i ==> views(out@)[m] == scored(score_type, es@, views(orig)[m]),
            forall|m: int| 0 <= m < i ==> (#[trigger] out@[m])@.score.valid(),
        decreases src@.len(),
    {
        let ghost out_before = views(out@);
        let ghost out_seq_before = out@;
        let mut p = src.remove(0);
        proof {
            assert(p == orig[i as int]) by {
                assert(orig.skip(i as int)[0] == orig[i as int]);
            }
            assert(src@ =~= orig.skip(i as int + 1)) by {
                assert(orig.skip(i as int).remove(0) =~= orig.skip(i as int + 1));
            }
            assert(placements_wf(p@.placements) && ids_below(p@.placements, es@.len() as int)) by {
                assert(orig[i as int] == p);
            }
        }
        let f = compute_score(&p, score_type, es, mnum, mden, total);
        p.score = f;
        out.push(p);
        proof {
            assert(views(out@)[i as int] == p@);
            assert(p@ =~= scored(score_type, es@, views(orig)[i as int])) by {
                assert(views(orig)[i as int] == orig[i as int]@);
            }
            assert(out@ =~= out_seq_before.push(p));
            assert(forall|m: int|
                0 <= m < i ==> out@[m] == out_seq_before[m] && views(out@)[m] == out@[m]@
                    && out_before[m] == out_seq_before[m]@);
        }
        i += 1;
    }
    out
}

} // verus!
