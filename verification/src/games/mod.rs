pub mod flop_game;
pub mod holdem;
pub mod omaha;

use vstd::prelude::*;
use rust_decimal::Decimal;
use crate::ranking::hand_rank::{hand_score, HandRanking, StandardHandRanks};

verus! {

#[verifier::external_type_specification]
#[verifier::external_body]
pub struct ExDecimal(Decimal);

/// The state of a game that can be evaluated.
pub trait GameState {

}

/// A player who wins (a share of) the pot, with the hand that wins it.
#[derive(Eq, PartialEq, Debug)]
pub struct GameWinner<H: HandRanking> {
    player_index: usize,
    pot_amount: Decimal,
    winning_hand: H,
}

impl<H: HandRanking> GameWinner<H> {
    /// The index of the winning player.
    pub closed spec fn player(self) -> usize {
        self.player_index
    }

    /// The part of the pot that the player wins.
    pub closed spec fn pot(self) -> Decimal {
        self.pot_amount
    }

    /// The hand that wins.
    pub closed spec fn hand(self) -> H {
        self.winning_hand
    }

    pub fn new(index: usize, pot_amount: Decimal, winning_hand: H) -> (w: Self)
        ensures
            w.player() == index,
            w.pot() == pot_amount,
            w.hand() == winning_hand,
    {
        Self { player_index: index, pot_amount, winning_hand }
    }
}

/// Decides who wins a game.
pub trait GameEvaluation<GS: GameState, H: HandRanking> {
    /// Whether the game can be decided: every hand that takes part can be ranked.
    spec fn can_evaluate(&self, game_state: &GS) -> bool;

    fn evaluate_winners(&self, game_state: &GS) -> Vec<GameWinner<H>>
        requires
            self.can_evaluate(game_state),
    ;
}

/// Works out each player's share of the pots over every way the game can still end.
pub trait GameEquityEvaluation<GS: GameState, H: HandRanking, GE: GameEvaluation<GS, H>> {
    /// Whether the equity can be worked out: the game has a way to end, and each way can
    /// be decided.
    spec fn can_evaluate_equity(&self, game_state: &GS) -> bool;

    fn evaluate_equity(&self, game_state: &GS) -> Vec<Decimal>
        requires
            self.can_evaluate_equity(game_state),
    ;
}

/// `Decimal::from(n)`: the count `n` as a decimal.
pub uninterp spec fn decimal_of_count(n: nat) -> Decimal;

/// `Decimal::new(10, 1) / Decimal::from(n)`: one (written `1.0`) divided by `n`.
pub uninterp spec fn one_divided_by(n: nat) -> Decimal;

/// `a.saturating_add(b)`: the sum of two decimals.
pub uninterp spec fn decimal_sum(a: Decimal, b: Decimal) -> Decimal;

/// `a / Decimal::from(n)`: a decimal divided by a count.
pub uninterp spec fn decimal_quotient(a: Decimal, n: nat) -> Decimal;

/// Calls `Decimal::from` on a count; the result is the count's value, which depends on
/// the count alone.
#[verifier::external_body]
pub(crate) fn count_as_decimal(n: usize) -> (r: Decimal)
    ensures
        r == decimal_of_count(n as nat),
{
    Decimal::from(n)
}

/// Divides `1.0` (`Decimal::new(10, 1)`) by `Decimal::from(n)`; the quotient depends on
/// `n` alone. Division panics only on a zero divisor, which `requires` leaves out.
#[verifier::external_body]
pub(crate) fn one_shared_by(n: usize) -> (r: Decimal)
    requires
        n > 0,
    ensures
        r == one_divided_by(n as nat),
{
    Decimal::new(10, 1) / Decimal::from(n)
}

/// Calls `Decimal::saturating_add`, which is `a + b` when the sum fits and the largest
/// (or smallest) decimal otherwise; it never panics. The result depends on `a` and `b`
/// alone.
#[verifier::external_body]
pub(crate) fn add_decimals(a: Decimal, b: Decimal) -> (r: Decimal)
    ensures
        r == decimal_sum(a, b),
{
    a.saturating_add(b)
}

/// Divides a decimal by `Decimal::from(n)`; the quotient depends on `a` and `n` alone.
/// Division by a count of at least one cannot overflow, and a zero divisor is left out.
#[verifier::external_body]
pub(crate) fn divide_by_count(a: Decimal, n: usize) -> (r: Decimal)
    requires
        n > 0,
    ensures
        r == decimal_quotient(a, n as nat),
{
    a / Decimal::from(n)
}

/// The best hand among the entries, each a player's index and a hand: the one with the
/// highest score.
pub open spec fn top_hand(entries: Seq<(usize, StandardHandRanks)>) -> Option<StandardHandRanks>
    decreases entries.len(),
{
    if entries.len() == 0 {
        None
    } else {
        let rest = top_hand(entries.drop_last());
        match rest {
            Some(t) => if hand_score(t) < hand_score(entries.last().1) {
                Some(entries.last().1)
            } else {
                rest
            },
            None => Some(entries.last().1),
        }
    }
}

/// The players of the entries whose hand scores `s`, in the order of the entries.
pub open spec fn players_scoring(entries: Seq<(usize, StandardHandRanks)>, s: int) -> Seq<usize>
    decreases entries.len(),
{
    if entries.len() == 0 {
        Seq::empty()
    } else {
        let rest = players_scoring(entries.drop_last(), s);
        if hand_score(entries.last().1) == s {
            rest.push(entries.last().0)
        } else {
            rest
        }
    }
}

/// The players of the entries that hold the best hand, in order; a player appears once
/// for each of its entries with that hand.
pub open spec fn winning_players(entries: Seq<(usize, StandardHandRanks)>) -> Seq<usize> {
    match top_hand(entries) {
        Some(t) => players_scoring(entries, hand_score(t)),
        None => Seq::empty(),
    }
}

/// The winners of a contest between the entries: one per entry with the best hand, each
/// with that hand and an equal share of the pot.
pub open spec fn winners_match(
    winners: Seq<GameWinner<StandardHandRanks>>,
    entries: Seq<(usize, StandardHandRanks)>,
) -> bool {
    &&& winners.len() == winning_players(entries).len()
    &&& forall|k: int|
        0 <= k < winners.len() ==> {
            &&& (#[trigger] winners[k]).player() == winning_players(entries)[k]
            &&& winners[k].hand() == top_hand(entries).unwrap()
            &&& winners[k].pot() == one_divided_by(winners.len())
        }
}

/// No entry scores above the best hand, and the best hand is one of the entries.
pub proof fn lemma_top_hand(entries: Seq<(usize, StandardHandRanks)>)
    ensures
        top_hand(entries) is None <==> entries.len() == 0,
        top_hand(entries) matches Some(t) ==> forall|i: int|
            0 <= i < entries.len() ==> hand_score(#[trigger] entries[i].1) <= hand_score(t),
        top_hand(entries) matches Some(t) ==> exists|i: int|
            0 <= i < entries.len() && #[trigger] entries[i].1 == t,
    decreases entries.len(),
{
    if entries.len() > 0 {
        let rest = entries.drop_last();
        lemma_top_hand(rest);
        let t = top_hand(entries).unwrap();
        assert forall|i: int| 0 <= i < entries.len() implies hand_score(
            #[trigger] entries[i].1,
        ) <= hand_score(t) by {
            if i < entries.len() - 1 {
                assert(entries[i] == rest[i]);
            }
        }
        if t == entries.last().1 {
            assert(entries[entries.len() - 1].1 == t);
        } else {
            let j = choose|j: int| 0 <= j < rest.len() && #[trigger] rest[j].1 == t;
            assert(entries[j] == rest[j]);
        }
    }
}

/// When the entries are players 0, 1, 2, ... in turn, the players scoring `s` are
/// exactly those whose hand scores `s`, each once, in increasing order.
pub proof fn lemma_players_scoring_exact(entries: Seq<(usize, StandardHandRanks)>, s: int)
    requires
        forall|i: int| 0 <= i < entries.len() ==> (#[trigger] entries[i]).0 == i,
    ensures
        forall|k: int, l: int|
            0 <= k < l < players_scoring(entries, s).len() ==> #[trigger] players_scoring(entries, s)[k]
                < #[trigger] players_scoring(entries, s)[l],
        forall|k: int|
            0 <= k < players_scoring(entries, s).len() ==> {
                let p = #[trigger] players_scoring(entries, s)[k];
                &&& p < entries.len()
                &&& hand_score(entries[p as int].1) == s
            },
        forall|i: int|
            0 <= i < entries.len() && hand_score(#[trigger] entries[i].1) == s ==> players_scoring(
                entries,
                s,
            ).contains(i as usize),
    decreases entries.len(),
{
    if entries.len() > 0 {
        let rest = entries.drop_last();
        let n = entries.len() - 1;
        assert forall|i: int| 0 <= i < rest.len() implies (#[trigger] rest[i]).0 == i by {
            assert(rest[i] == entries[i]);
        }
        lemma_players_scoring_exact(rest, s);
        let r = players_scoring(rest, s);
        let w = players_scoring(entries, s);
        assert(entries[n].0 == n);
        assert forall|k: int| 0 <= k < r.len() implies #[trigger] r[k] < n && hand_score(
            entries[r[k] as int].1,
        ) == s by {
            assert(entries[r[k] as int] == rest[r[k] as int]);
        }
        assert forall|i: int|
            0 <= i < entries.len() && hand_score(#[trigger] entries[i].1) == s implies w.contains(
            i as usize,
        ) by {
            if i < n {
                assert(entries[i] == rest[i]);
                assert(r.contains(i as usize));
                let k = choose|k: int| 0 <= k < r.len() && r[k] == i as usize;
                if hand_score(entries.last().1) == s {
                    assert(w[k] == i as usize);
                } else {
                    assert(w[k] == i as usize);
                }
            } else {
                assert(w[w.len() - 1] == n as usize);
            }
        }
    }
}

/// The winners of entries that are players 0, 1, 2, ... in turn: exactly the players
/// whose hand scores as high as the best hand, each once and in increasing order; every
/// hand scores at most that; and there are winners exactly when there are players.
pub proof fn lemma_winning_players_exact(entries: Seq<(usize, StandardHandRanks)>)
    requires
        forall|i: int| 0 <= i < entries.len() ==> (#[trigger] entries[i]).0 == i,
    ensures
        winning_players(entries).len() == 0 <==> entries.len() == 0,
        entries.len() > 0 ==> {
            let t = top_hand(entries).unwrap();
            let w = winning_players(entries);
            &&& forall|i: int| 0 <= i < entries.len() ==> hand_score(#[trigger] entries[i].1) <= hand_score(t)
            &&& forall|k: int, l: int| 0 <= k < l < w.len() ==> #[trigger] w[k] < #[trigger] w[l]
            &&& forall|k: int|
                0 <= k < w.len() ==> #[trigger] w[k] < entries.len() && hand_score(
                    entries[w[k] as int].1,
                ) == hand_score(t)
            &&& forall|i: int|
                0 <= i < entries.len() && hand_score(#[trigger] entries[i].1) == hand_score(t)
                    ==> w.contains(i as usize)
        },
{
    lemma_top_hand(entries);
    if entries.len() > 0 {
        let t = top_hand(entries).unwrap();
        lemma_players_scoring_exact(entries, hand_score(t));
        let j = choose|j: int| 0 <= j < entries.len() && #[trigger] entries[j].1 == t;
        assert(hand_score(entries[j].1) == hand_score(t));
        assert(winning_players(entries).contains(j as usize));
    }
}

/// When every entry scores below `s`, no player scores `s`.
pub proof fn lemma_players_scoring_none(entries: Seq<(usize, StandardHandRanks)>, s: int)
    requires
        forall|i: int| 0 <= i < entries.len() ==> hand_score(#[trigger] entries[i].1) < s,
    ensures
        players_scoring(entries, s) == Seq::<usize>::empty(),
    decreases entries.len(),
{
    if entries.len() > 0 {
        let rest = entries.drop_last();
        assert forall|i: int| 0 <= i < rest.len() implies hand_score(#[trigger] rest[i].1) < s by {
            assert(rest[i] == entries[i]);
        }
        lemma_players_scoring_none(rest, s);
        assert(hand_score(entries[entries.len() - 1].1) < s);
    }
}

/// How the best hand and its players change when one more entry takes part.
pub proof fn lemma_contest_step(entries: Seq<(usize, StandardHandRanks)>, e: (usize, StandardHandRanks))
    ensures
        ({
            let next = entries.push(e);
            match top_hand(entries) {
                None => top_hand(next) == Some(e.1) && winning_players(next) == seq![e.0],
                Some(t) => if hand_score(t) < hand_score(e.1) {
                    top_hand(next) == Some(e.1) && winning_players(next) == seq![e.0]
                } else if hand_score(t) == hand_score(e.1) {
                    top_hand(next) == Some(t) && winning_players(next) == winning_players(
                        entries,
                    ).push(e.0)
                } else {
                    top_hand(next) == Some(t) && winning_players(next) == winning_players(entries)
                },
            }
        }),
{
    let next = entries.push(e);
    assert(next.drop_last() =~= entries);
    assert(next.last() == e);
    lemma_top_hand(entries);
    match top_hand(entries) {
        None => {
            assert(entries =~= Seq::<(usize, StandardHandRanks)>::empty());
            assert(players_scoring(entries, hand_score(e.1)) =~= Seq::<usize>::empty());
            assert(players_scoring(next, hand_score(e.1)) =~= seq![e.0]);
        },
        Some(t) => {
            if hand_score(t) < hand_score(e.1) {
                lemma_players_scoring_none(entries, hand_score(e.1));
                assert(players_scoring(next, hand_score(e.1)) =~= seq![e.0]);
            }
        },
    }
}

/// The players of the entries are among the first `n` when every entry's player is.
pub proof fn lemma_winning_players_below(entries: Seq<(usize, StandardHandRanks)>, n: int)
    requires
        forall|i: int| 0 <= i < entries.len() ==> (#[trigger] entries[i]).0 < n,
    ensures
        forall|k: int|
            0 <= k < winning_players(entries).len() ==> #[trigger] winning_players(entries)[k] < n,
{
    if let Some(t) = top_hand(entries) {
        lemma_players_scoring_below(entries, hand_score(t), n);
    }
}

proof fn lemma_players_scoring_below(entries: Seq<(usize, StandardHandRanks)>, s: int, n: int)
    requires
        forall|i: int| 0 <= i < entries.len() ==> (#[trigger] entries[i]).0 < n,
    ensures
        forall|k: int|
            0 <= k < players_scoring(entries, s).len() ==> #[trigger] players_scoring(entries, s)[k]
                < n,
    decreases entries.len(),
{
    if entries.len() > 0 {
        let rest = entries.drop_last();
        assert forall|i: int| 0 <= i < rest.len() implies (#[trigger] rest[i]).0 < n by {
            assert(rest[i] == entries[i]);
        }
        lemma_players_scoring_below(rest, s, n);
        assert(entries[entries.len() - 1].0 < n);
        let ps = players_scoring(rest, s);
        assert forall|k: int|
            0 <= k < players_scoring(entries, s).len() implies #[trigger] players_scoring(entries, s)[k]
                < n by {
            if hand_score(entries.last().1) == s && k == ps.len() {
                assert(players_scoring(entries, s)[k] == entries.last().0);
            } else {
                assert(players_scoring(entries, s)[k] == ps[k]);
            }
        }
    }
}

/// A player's equity after crediting `share` once for each of its entries among the
/// winners `ws`.
pub open spec fn credited(acc: Decimal, ws: Seq<usize>, p: int, share: Decimal) -> Decimal
    decreases ws.len(),
{
    if ws.len() == 0 {
        acc
    } else {
        let prev = credited(acc, ws.drop_last(), p, share);
        if ws.last() == p {
            decimal_sum(prev, share)
        } else {
            prev
        }
    }
}

/// The equity that player `p` collects over the runouts, with the entries that contest
/// each runout: starting from zero, each runout's winners are credited in turn with one
/// divided by their number.
pub open spec fn equity_total(
    runouts: Seq<crate::games::flop_game::GameView>,
    p: int,
    entries: spec_fn(crate::games::flop_game::GameView) -> Seq<(usize, StandardHandRanks)>,
) -> Decimal
    decreases runouts.len(),
{
    if runouts.len() == 0 {
        decimal_of_count(0)
    } else {
        let ws = winning_players(entries(runouts.last()));
        credited(
            equity_total(runouts.drop_last(), p, entries),
            ws,
            p,
            one_divided_by(ws.len()),
        )
    }
}

/// A property that holds of every element of every sequence holds of every element of
/// their concatenation.
pub proof fn lemma_flatten_forall<A>(s: Seq<Seq<A>>, p: spec_fn(A) -> bool)
    requires
        forall|i: int, j: int| 0 <= i < s.len() && 0 <= j < s[i].len() ==> p(#[trigger] s[i][j]),
    ensures
        forall|k: int| 0 <= k < s.flatten().len() ==> p(#[trigger] s.flatten()[k]),
    decreases s.len(),
{
    if s.len() > 0 {
        let rest = s.drop_first();
        assert forall|i: int, j: int| 0 <= i < rest.len() && 0 <= j < rest[i].len() implies p(
            #[trigger] rest[i][j],
        ) by {
            assert(rest[i] == s[i + 1]);
        }
        lemma_flatten_forall(rest, p);
        assert(s.flatten() == s[0] + rest.flatten());
        assert forall|k: int| 0 <= k < s.flatten().len() implies p(#[trigger] s.flatten()[k]) by {
            if k < s[0].len() {
                assert(s.flatten()[k] == s[0][k]);
            } else {
                assert(s.flatten()[k] == rest.flatten()[k - s[0].len()]);
            }
        }
    }
}

} // verus!
