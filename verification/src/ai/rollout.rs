//! Random playouts and the tallies that report them.

use super::game::Game;
use rand::Rng;
use std::time::{Duration, Instant};
use vstd::laws_eq::obeys_concrete_eq;
use vstd::prelude::*;

verus! {

/// `rand::Rng::choose` on the generator that `rand::thread_rng` keeps for the
/// calling thread: an element of `values`, picked at random, or nothing where
/// `values` is empty. Which element comes back is not stated; two calls on the
/// same list may differ. The generator is seeded by the system and panics on
/// first use if the system has no entropy to give.
#[verifier::external_body]
pub(crate) fn choose_from<T>(values: &Vec<T>) -> (picked: Option<&T>)
    ensures
        values@.len() == 0 ==> picked is None,
        values@.len() > 0 ==> picked is Some && values@.contains(*picked->0),
{
    rand::thread_rng().choose(values.as_slice())
}

/// `std::time::Instant`: a moment of the machine's steady clock. The library
/// carries such a value from one clock call to the next and never looks inside.
#[verifier::external_type_specification]
#[verifier::external_body]
pub struct ExInstant(std::time::Instant);

/// `std::time::Instant::now`: the present moment of the machine's steady
/// clock. Nothing is stated of it.
#[verifier::external_body]
fn now() -> (moment: Instant) {
    Instant::now()
}

/// `std::time::Instant::elapsed`: the time that has passed since `since`.
/// Nothing is stated of it.
#[verifier::external_body]
fn elapsed(since: &Instant) -> (passed: Duration) {
    since.elapsed()
}

/// `std::time::Duration::as_millis`: the whole milliseconds in `span`. The
/// spans that the library asks about are clock readings, so nothing is stated
/// of the number.
#[verifier::external_body]
fn as_millis(span: &Duration) -> (whole: u128) {
    span.as_millis()
}

/// Whether `end` can be arrived at from `start` in `steps` allowed moves.
pub open spec fn arrives<G: Game>(start: G, end: G, steps: nat) -> bool
    decreases steps,
{
    if steps == 0 {
        start == end
    } else {
        exists|mid: G, m: G::Move|
            arrives(start, mid, (steps - 1) as nat) && #[trigger] mid.allows(m) && #[trigger] mid.leads_to(
                m,
                &end,
            )
    }
}

/// Whether `winner` may be what a random playout from `from` reports: the
/// winner of a position that play can arrive at from a copy of `from`, and in
/// which either the game is decided or no move is left.
pub open spec fn played_out<G: Game>(from: G, winner: Option<G::Player>) -> bool {
    exists|copy: G, end: G, steps: nat|
        cloned(from, copy) && #[trigger] arrives(copy, end, steps) && winner == end.winner() && (
        end.winner() is Some || end.moves().len() == 0)
}

/// Plays one game to its end from a copy of `game`, each move picked at random
/// among those that the position offers, and reports who won. Nobody has won
/// where the moves ran out first.
pub fn playout<G: Game>(game: &G) -> (winner: Option<G::Player>)
    ensures
        played_out(*game, winner),
{
    let mut g = game.clone();
    let ghost copy = g;
    let ghost steps: nat = 0;
    loop
        invariant
            cloned(*game, copy),
            arrives(copy, g, steps),
        decreases g.horizon(),
    {
        let decided = g.get_winner();
        if decided.is_some() {
            return decided;
        }
        let moves = g.available_moves();
        match choose_from(&moves) {
            Some(mv) => {
                let ghost mid = g;
                assert(moves@.contains(*mv));
                g.make_move_mut(mv);
                proof {
                    steps = steps + 1;
                    assert(mid.allows(*mv) && mid.leads_to(*mv, &g));
                }
            },
            None => {
                // no possible moves
                return decided;
            },
        }
    }
}

/// The wins that a list of tally entries credits to `player`: the count of the
/// last entry that names the player, and nothing where none does.
pub open spec fn credited<P>(entries: Seq<(P, u32)>, player: P) -> nat
    decreases entries.len(),
{
    if entries.len() == 0 {
        0
    } else if entries.last().0 == player {
        entries.last().1 as nat
    } else {
        credited(entries.drop_last(), player)
    }
}

/// How many of `outcomes` name `player` as the winner.
pub open spec fn wins_among<P>(outcomes: Seq<Option<P>>, player: P) -> nat
    decreases outcomes.len(),
{
    if outcomes.len() == 0 {
        0
    } else {
        wins_among(outcomes.drop_last(), player) + if outcomes.last() == Some(player) {
            1nat
        } else {
            0nat
        }
    }
}

/// The outcome of a batch of playouts: how many were played, and how many of
/// them each player won. A playout that nobody won counts as played only.
pub struct Tally<G: Game> {
    playouts: u32,
    wins: Vec<(G::Player, u32)>,
}

impl<G: Game> Tally<G> {
    /// No player is listed twice, and none has won more playouts than were played.
    pub closed spec fn wf(&self) -> bool {
        &&& forall|i: int, j: int|
            0 <= i < j < self.wins@.len() ==> (#[trigger] self.wins@[i]).0 != (
            #[trigger] self.wins@[j]).0
        &&& forall|i: int| 0 <= i < self.wins@.len() ==> (#[trigger] self.wins@[i]).1 <= self.playouts
    }

    /// The number of playouts in the batch.
    pub closed spec fn played(&self) -> nat {
        self.playouts as nat
    }

    /// The number of playouts that `player` won.
    pub closed spec fn won_by(&self, player: G::Player) -> nat {
        credited(self.wins@, player)
    }

    /// Whether this is the tally of exactly the playouts that ended as
    /// `outcomes` say: as many playouts as there are outcomes, and for each
    /// player as many wins as outcomes name that player.
    pub open spec fn tallies(&self, outcomes: Seq<Option<G::Player>>) -> bool {
        &&& self.played() == outcomes.len()
        &&& forall|p: G::Player| #[trigger] self.won_by(p) == wins_among(outcomes, p)
    }

    /// Whether this may be the tally of a batch of random playouts from `game`:
    /// it tallies some run of outcomes, each of which a playout from `game` may
    /// report.
    pub open spec fn batch_from(&self, game: G) -> bool {
        &&& self.wf()
        &&& exists|outcomes: Seq<Option<G::Player>>|
            #[trigger] self.tallies(outcomes) && forall|i: int|
                0 <= i < outcomes.len() ==> played_out(game, #[trigger] outcomes[i])
    }

    /// The playouts of a tally fit their counter.
    pub proof fn lemma_played_fits(&self)
        ensures
            self.played() <= u32::MAX,
    {
    }

    /// Nobody has won more playouts than were played.
    pub proof fn lemma_wins_are_playouts(&self, player: G::Player)
        requires
            self.wf(),
        ensures
            self.won_by(player) <= self.played(),
    {
        Self::lemma_credited(self.wins@, player);
        if exists|i: int| 0 <= i < self.wins@.len() && (#[trigger] self.wins@[i]).0 == player {
            let i = choose|i: int| 0 <= i < self.wins@.len() && (#[trigger] self.wins@[i]).0 == player;
            assert(self.wins@[i].1 <= self.playouts);
        }
    }

    /// What `credited` finds in a list that names no player twice.
    proof fn lemma_credited(entries: Seq<(G::Player, u32)>, player: G::Player)
        requires
            forall|i: int, j: int|
                0 <= i < j < entries.len() ==> (#[trigger] entries[i]).0 != (#[trigger] entries[j]).0,
        ensures
            forall|i: int|
                0 <= i < entries.len() && (#[trigger] entries[i]).0 == player ==> credited(
                    entries,
                    player,
                ) == entries[i].1,
            (forall|i: int| 0 <= i < entries.len() ==> (#[trigger] entries[i]).0 != player)
                ==> credited(entries, player) == 0,
        decreases entries.len(),
    {
        if entries.len() > 0 {
            let rest = entries.drop_last();
            assert forall|i: int, j: int| 0 <= i < j < rest.len() implies (#[trigger] rest[i]).0 != (
            #[trigger] rest[j]).0 by {
                assert(rest[i] == entries[i] && rest[j] == entries[j]);
            }
            Self::lemma_credited(rest, player);
            assert forall|i: int|
                0 <= i < entries.len() && (#[trigger] entries[i]).0 == player implies credited(
                entries,
                player,
            ) == entries[i].1 by {
                if i < entries.len() - 1 {
                    assert(rest[i] == entries[i]);
                    assert(entries[entries.len() - 1].0 != entries[i].0);
                }
            }
            if forall|i: int| 0 <= i < entries.len() ==> (#[trigger] entries[i]).0 != player {
                assert forall|i: int| 0 <= i < rest.len() implies (#[trigger] rest[i]).0 != player by {
                    assert(rest[i] == entries[i]);
                }
            }
        }
    }

    /// The tally of no playouts.
    pub fn new() -> (tally: Self)
        ensures
            tally.wf(),
            tally.played() == 0,
            forall|p: G::Player| tally.won_by(p) == 0,
    {
        Tally { playouts: 0, wins: Vec::new() }
    }

    /// The number of playouts in the batch.
    pub fn playouts(&self) -> (n: u32)
        ensures
            n == self.played(),
    {
        self.playouts
    }

    /// Where the list of entries names `player`, if it does.
    fn position(&self, player: &G::Player) -> (at: Option<usize>)
        ensures
            match at {
                Some(i) => i < self.wins@.len() && self.wins@[i as int].0 == *player,
                None => forall|j: int| 0 <= j < self.wins@.len() ==> (#[trigger] self.wins@[j]).0
                    != *player,
            },
    {
        let mut i: usize = 0;
        while i < self.wins.len()
            invariant
                i <= self.wins.len(),
                forall|j: int| 0 <= j < i ==> (#[trigger] self.wins@[j]).0 != *player,
            decreases self.wins.len() - i,
        {
            proof {
                G::equality_laws();
                reveal(obeys_concrete_eq);
            }
            if self.wins[i].0 == *player {
                return Some(i);
            }
            i += 1;
        }
        None
    }

    /// The number of playouts that `player` won.
    pub fn wins_of(&self, player: &G::Player) -> (n: u32)
        requires
            self.wf(),
        ensures
            n == self.won_by(*player),
            n <= self.played(),
    {
        proof {
            Self::lemma_credited(self.wins@, *player);
        }
        match self.position(player) {
            Some(i) => self.wins[i].1,
            None => 0,
        }
    }

    /// Counts one more playout, won by `winner` if anybody won it.
    pub fn record(&mut self, winner: Option<G::Player>)
        requires
            old(self).wf(),
            old(self).played() < u32::MAX,
        ensures
            final(self).wf(),
            final(self).played() == old(self).played() + 1,
            forall|p: G::Player|
                #![trigger final(self).won_by(p)]
                final(self).won_by(p) == old(self).won_by(p) + if winner == Some(p) {
                    1nat
                } else {
                    0nat
                },
    {
        proof {
            assert forall|p: G::Player| old(self).won_by(p) <= old(self).played() by {
                old(self).lemma_wins_are_playouts(p);
            }
        }
        self.playouts += 1;
        if let Some(player) = winner {
            assert(old(self).won_by(player) <= old(self).played());
            self.credit(player, 1);
            assert forall|i: int| 0 <= i < self.wins@.len() implies (#[trigger] self.wins@[i]).1
                <= self.playouts by {
                let p = self.wins@[i].0;
                assert(old(self).won_by(p) <= old(self).played());
                assert(self.wins@[i].1 == credited(self.wins@, p));
            }
        }
    }

    /// Adds `wins` to the count of `player`, who gets an entry if there is none yet.
    fn credit(&mut self, player: G::Player, wins: u32)
        requires
            forall|i: int, j: int|
                0 <= i < j < old(self).wins@.len() ==> (#[trigger] old(self).wins@[i]).0 != (
                #[trigger] old(self).wins@[j]).0,
            credited(old(self).wins@, player) + wins <= u32::MAX,
        ensures
            final(self).playouts == old(self).playouts,
            forall|i: int, j: int|
                0 <= i < j < final(self).wins@.len() ==> (#[trigger] final(self).wins@[i]).0 != (
                #[trigger] final(self).wins@[j]).0,
            forall|p: G::Player|
                #![trigger credited(final(self).wins@, p)]
                credited(final(self).wins@, p) == credited(old(self).wins@, p) + if p == player {
                    wins as nat
                } else {
                    0nat
                },
            forall|i: int|
                0 <= i < final(self).wins@.len() ==> (#[trigger] final(self).wins@[i]).1
                    == credited(final(self).wins@, final(self).wins@[i].0),
    {
        proof {
            Self::lemma_credited(self.wins@, player);
        }
        let ghost before = self.wins@;
        let at = self.position(&player);
        let ghost i = match at {
            Some(i) => i as int,
            None => before.len() as int,
        };
        match at {
            Some(i) => {
                self.wins[i].1 += wins;
            },
            None => {
                self.wins.push((player, wins));
            },
        }
        proof {
            let after = self.wins@;
            assert forall|a: int, b: int| 0 <= a < b < after.len() implies (#[trigger] after[a]).0 != (
            #[trigger] after[b]).0 by {
                if b < before.len() {
                    assert(before[a].0 != before[b].0);
                }
            }
            assert forall|p: G::Player|
                #![trigger credited(after, p)]
                credited(after, p) == credited(before, p) + if p == player {
                    wins as nat
                } else {
                    0nat
                } by {
                Self::lemma_credited(before, p);
                Self::lemma_credited(after, p);
                if i < before.len() {
                    if p == player {
                        assert(after[i].0 == p);
                    } else if exists|j: int| 0 <= j < before.len() && (#[trigger] before[j]).0 == p {
                        let j = choose|j: int| 0 <= j < before.len() && (#[trigger] before[j]).0 == p;
                        assert(after[j].0 == p);
                    } else {
                        assert forall|j: int| 0 <= j < after.len() implies (#[trigger] after[j]).0
                            != p by {
                            assert(before[j].0 != p);
                        }
                    }
                } else {
                    if p == player {
                        assert(after[before.len() as int].0 == p);
                    } else if exists|j: int| 0 <= j < before.len() && (#[trigger] before[j]).0 == p {
                        let j = choose|j: int| 0 <= j < before.len() && (#[trigger] before[j]).0 == p;
                        assert(after[j].0 == p);
                    } else {
                        assert forall|j: int| 0 <= j < after.len() implies (#[trigger] after[j]).0
                            != p by {
                            if j < before.len() {
                                assert(before[j].0 != p);
                            }
                        }
                    }
                }
            }
            assert forall|j: int| 0 <= j < after.len() implies (#[trigger] after[j]).1 == credited(
                after,
                after[j].0,
            ) by {
                Self::lemma_credited(after, after[j].0);
            }
        }
    }

    /// Adding an entry for a player not yet listed credits that player and no other.
    proof fn lemma_credited_push(entries: Seq<(G::Player, u32)>, entry: (G::Player, u32), p: G::Player)
        requires
            forall|i: int| 0 <= i < entries.len() ==> (#[trigger] entries[i]).0 != entry.0,
            forall|i: int, j: int|
                0 <= i < j < entries.len() ==> (#[trigger] entries[i]).0 != (#[trigger] entries[j]).0,
        ensures
            credited(entries.push(entry), p) == credited(entries, p) + if p == entry.0 {
                entry.1 as nat
            } else {
                0nat
            },
    {
        assert(entries.push(entry).drop_last() =~= entries);
        Self::lemma_credited(entries, p);
    }

    /// Whether `other` can be merged into this tally: the playouts of both fit
    /// the counter.
    pub fn fits(&self, other: &Tally<G>) -> (room: bool)
        ensures
            room == (self.played() + other.played() <= u32::MAX),
    {
        other.playouts <= u32::MAX - self.playouts
    }

    /// Adds the playouts and the wins of `other` to this tally.
    pub fn merge(&mut self, other: Tally<G>)
        requires
            old(self).wf(),
            other.wf(),
            old(self).played() + other.played() <= u32::MAX,
        ensures
            final(self).wf(),
            final(self).played() == old(self).played() + other.played(),
            forall|p: G::Player|
                #![trigger final(self).won_by(p)]
                final(self).won_by(p) == old(self).won_by(p) + other.won_by(p),
    {
        let ghost mine = self.wins@;
        let ghost theirs = other.wins@;
        proof {
            assert forall|p: G::Player| #[trigger] credited(mine, p) <= old(self).playouts by {
                old(self).lemma_wins_are_playouts(p);
            }
            assert forall|p: G::Player| #[trigger] credited(theirs, p) <= other.playouts by {
                other.lemma_wins_are_playouts(p);
            }
            assert forall|i: int| 0 <= i < mine.len() implies (#[trigger] mine[i]).1 == credited(
                mine,
                mine[i].0,
            ) by {
                Self::lemma_credited(mine, mine[i].0);
            }
            assert(theirs.take(0) =~= Seq::<(G::Player, u32)>::empty());
        }
        self.playouts += other.playouts;
        let Tally { playouts: _, wins: entries } = other;
        for entry in it: entries
            invariant
                it.seq() == theirs,
                self.playouts == old(self).playouts + other.playouts,
                old(self).playouts + other.playouts <= u32::MAX,
                mine == old(self).wins@,
                theirs == other.wins@,
                forall|i: int, j: int|
                    0 <= i < j < theirs.len() ==> (#[trigger] theirs[i]).0 != (#[trigger] theirs[j]).0,
                forall|i: int, j: int|
                    0 <= i < j < self.wins@.len() ==> (#[trigger] self.wins@[i]).0 != (
                    #[trigger] self.wins@[j]).0,
                forall|p: G::Player| #[trigger] credited(mine, p) <= old(self).playouts,
                forall|p: G::Player| #[trigger] credited(theirs, p) <= other.playouts,
                forall|p: G::Player|
                    #![trigger credited(self.wins@, p)]
                    credited(self.wins@, p) == credited(mine, p) + credited(
                        theirs.take(it.index()),
                        p,
                    ),
                forall|i: int|
                    0 <= i < self.wins@.len() ==> (#[trigger] self.wins@[i]).1 == credited(
                        self.wins@,
                        self.wins@[i].0,
                    ),
                it.index() == 0 ==> self.wins@ == mine,
        {
            let ghost k = it.index();
            let ghost sofar = theirs.take(k);
            let ghost held = self.wins@;
            proof {
                assert(entry == theirs[k]);
                assert(theirs.take(k + 1) =~= sofar.push(entry));
                assert forall|i: int| 0 <= i < sofar.len() implies (#[trigger] sofar[i]).0
                    != entry.0 by {
                    assert(sofar[i] == theirs[i]);
                }
                assert forall|i: int, j: int| 0 <= i < j < sofar.len() implies (#[trigger] sofar[i]).0
                    != (#[trigger] sofar[j]).0 by {
                    assert(sofar[i] == theirs[i] && sofar[j] == theirs[j]);
                }
                assert forall|p: G::Player|
                    credited(theirs.take(k + 1), p) == #[trigger] credited(sofar, p) + if p == entry.0 {
                        entry.1 as nat
                    } else {
                        0nat
                    } by {
                    Self::lemma_credited_push(sofar, entry, p);
                }
                Self::lemma_credited(theirs, entry.0);
                assert(credited(theirs, entry.0) == entry.1);
                assert(credited(sofar, entry.0) == 0) by {
                    Self::lemma_credited(sofar, entry.0);
                }
                assert(credited(held, entry.0) == credited(mine, entry.0) + credited(sofar, entry.0));
            }
            let (player, wins) = entry;
            self.credit(player, wins);
            proof {
                assert forall|p: G::Player|
                    #![trigger credited(self.wins@, p)]
                    credited(self.wins@, p) == credited(mine, p) + credited(theirs.take(k + 1), p) by {
                    assert(credited(held, p) == credited(mine, p) + credited(sofar, p));
                }
            }
        }
        proof {
            assert(theirs.take(theirs.len() as int) =~= theirs);
            assert forall|i: int| 0 <= i < self.wins@.len() implies (#[trigger] self.wins@[i]).1
                <= self.playouts by {
                let p = self.wins@[i].0;
                assert(credited(self.wins@, p) == credited(mine, p) + credited(theirs, p));
            }
        }
    }
}

/// One turn of a batch. `elapsed_ms` is what the clock shows since the batch
/// began. While that is less than `time_limit` and the counter of playouts is
/// not full, plays one more random playout from `game`, counts it in `tally`
/// and returns `true`. Otherwise leaves `tally` as it is and returns `false`:
/// the batch is over.
pub fn batch_step<G: Game>(tally: &mut Tally<G>, game: &G, elapsed_ms: u128, time_limit: u64) -> (more:
    bool)
    requires
        old(tally).wf(),
    ensures
        final(tally).wf(),
        more == (elapsed_ms < time_limit && old(tally).played() < u32::MAX),
        !more ==> *final(tally) == *old(tally),
        more ==> exists|winner: Option<G::Player>|
            {
                &&& #[trigger] played_out(*game, winner)
                &&& final(tally).played() == old(tally).played() + 1
                &&& forall|p: G::Player|
                    #![trigger final(tally).won_by(p)]
                    final(tally).won_by(p) == old(tally).won_by(p) + if winner == Some(p) {
                        1nat
                    } else {
                        0nat
                    }
            },
{
    if elapsed_ms < time_limit as u128 && tally.playouts() < u32::MAX {
        let winner = playout(game);
        tally.record(winner);
        assert(played_out(*game, winner));
        true
    } else {
        false
    }
}

/// Plays random playouts from `game`, one after another, for as long as the
/// clock shows less than `time_limit` milliseconds since the call, and tallies
/// them: every playout counts, and a playout that a player won counts for that
/// player. The batch also ends when the counter of playouts is full. With no
/// time at all, no playout is played.
pub fn run_batch<G: Game>(game: &G, time_limit: u64) -> (tally: Tally<G>)
    ensures
        tally.batch_from(*game),
        time_limit == 0 ==> tally.played() == 0,
{
    let start = now();
    let mut tally: Tally<G> = Tally::new();
    let ghost outcomes: Seq<Option<G::Player>> = Seq::empty();
    let mut more = batch_step(&mut tally, game, as_millis(&elapsed(&start)), time_limit);
    proof {
        if more {
            let winner = choose|winner: Option<G::Player>|
                {
                    &&& #[trigger] played_out(*game, winner)
                    &&& tally.played() == 1
                    &&& forall|p: G::Player|
                        #![trigger tally.won_by(p)]
                        tally.won_by(p) == if winner == Some(p) {
                            1nat
                        } else {
                            0nat
                        }
                };
            outcomes = outcomes.push(winner);
            assert(outcomes.drop_last() =~= Seq::<Option<G::Player>>::empty());
            assert forall|p: G::Player| #[trigger] tally.won_by(p) == wins_among(outcomes, p) by {
                assert(wins_among(outcomes.drop_last(), p) == 0);
            }
        }
    }
    while more
        invariant
            tally.wf(),
            tally.tallies(outcomes),
            forall|i: int| 0 <= i < outcomes.len() ==> played_out(*game, #[trigger] outcomes[i]),
            time_limit == 0 ==> !more && tally.played() == 0,
        decreases 2 * (u32::MAX - tally.played()) + if more { 1nat } else { 0nat },
    {
        let ghost before = tally;
        let ghost sofar = outcomes;
        more = batch_step(&mut tally, game, as_millis(&elapsed(&start)), time_limit);
        proof {
            if more {
                let winner = choose|winner: Option<G::Player>|
                    {
                        &&& #[trigger] played_out(*game, winner)
                        &&& tally.played() == before.played() + 1
                        &&& forall|p: G::Player|
                            #![trigger tally.won_by(p)]
                            tally.won_by(p) == before.won_by(p) + if winner == Some(p) {
                                1nat
                            } else {
                                0nat
                            }
                    };
                outcomes = sofar.push(winner);
                assert(outcomes.drop_last() =~= sofar);
                assert forall|p: G::Player| #[trigger] tally.won_by(p) == wins_among(outcomes, p) by {
                    assert(before.won_by(p) == wins_among(sofar, p));
                }
                assert forall|i: int| 0 <= i < outcomes.len() implies played_out(
                    *game,
                    #[trigger] outcomes[i],
                ) by {
                    if i < sofar.len() {
                        assert(outcomes[i] == sofar[i]);
                    }
                }
            }
        }
    }
    tally
}

} // verus!
