//! What holds of a whole run of bets in which every player still in the turn
//! bets once.

use vstd::prelude::*;

use crate::constants::MIN_BET;
use crate::game_state::{
    addresses_distinct, lemma_seat_unique, seat_of, GameRound, PlayerModel, StateModel,
};
use crate::laws::{main_phase_after, matching_phase_of};
use crate::rounds::{
    advance_spec, all_active_checked, all_active_staked, all_acted, any_checked, phase_bet,
    phase_checked, round_after, stakes_equal,
};
use crate::wagers::{bet_placed, bet_refusal, bet_spec};

verus! {

/// The session after the first `k` bets of a run. The bet at place `j` is
/// made by `senders[j]` and is worth `amounts[j]`; a bet that is turned down
/// changes nothing.
pub open spec fn after_bets(
    s: StateModel,
    senders: Seq<Seq<char>>,
    amounts: Seq<u64>,
    k: nat,
) -> StateModel
    decreases k,
{
    if k == 0 {
        s
    } else {
        let before = after_bets(s, senders, amounts, (k - 1) as nat);
        match bet_spec(before, senders[k - 1], amounts[k - 1]) {
            Ok(o) => o.0,
            Err(_) => before,
        }
    }
}

/// The sender at place `k` is the player at seat `i`, still in the turn and
/// with the chips for the bet.
pub open spec fn sends(s: StateModel, senders: Seq<Seq<char>>, amounts: Seq<u64>, k: int, i: int) -> bool {
    &&& 0 <= i < s.players.len()
    &&& s.players[i].addr@ == senders[k]
    &&& !s.players[i].folded
    &&& s.players[i].chips >= amounts[k]
}

/// A betting phase has just begun, and the run is one bet of every player
/// still in the turn: nobody has checked, nobody still in has wagered,
/// everybody who has folded is on record, no sender bets twice, every player
/// still in is among the senders, and every sender is a player still in who
/// holds the chips for a bet of at least the smallest size.
pub open spec fn bet_run_ok(s: StateModel, senders: Seq<Seq<char>>, amounts: Seq<u64>) -> bool {
    let round = s.game_board.round;
    &&& s.players.len() >= 2
    &&& addresses_distinct(s.players)
    &&& round == GameRound::Blind || round == GameRound::Flop
    &&& senders.len() == amounts.len()
    &&& senders.len() >= 1
    &&& forall|i: int|
        0 <= i < s.players.len() ==> {
            let p = #[trigger] s.players[i];
            &&& p.folded ==> p.last_action is Some
            &&& !p.folded ==> !phase_checked(p, round) && phase_bet(p, round) == 0 && exists|
                k: int,
            | 0 <= k < senders.len() && #[trigger] senders[k] == p.addr@
        }
    &&& forall|j: int, k: int|
        0 <= j < k < senders.len() ==> #[trigger] senders[j] != #[trigger] senders[k]
    &&& forall|k: int|
        0 <= k < senders.len() ==> amounts[k] >= MIN_BET && exists|i: int| #[trigger]
            sends(s, senders, amounts, k, i)
}

/// The player has made the bet of the run.
pub open spec fn has_bet(
    p: PlayerModel,
    q: PlayerModel,
    round: GameRound,
    senders: Seq<Seq<char>>,
    amounts: Seq<u64>,
    k: int,
) -> bool {
    exists|j: int|
        0 <= j < k && #[trigger] senders[j] == q.addr@ && phase_bet(p, round) == amounts[j]
            && p.last_action is Some
}

/// The player has not bet yet in the run.
pub open spec fn waits(
    p: PlayerModel,
    q: PlayerModel,
    round: GameRound,
    senders: Seq<Seq<char>>,
    k: int,
) -> bool {
    &&& forall|j: int| 0 <= j < k ==> #[trigger] senders[j] != q.addr@
    &&& phase_bet(p, round) == 0
    &&& p.chips == q.chips
}

/// What holds of a player `p` after the first `k` bets of a run, `q` being
/// the same player before the run.
pub open spec fn seat_mid_run(
    p: PlayerModel,
    q: PlayerModel,
    round: GameRound,
    senders: Seq<Seq<char>>,
    amounts: Seq<u64>,
    k: int,
) -> bool {
    &&& p.addr == q.addr
    &&& p.folded == q.folded
    &&& p.folded ==> p.last_action is Some
    &&& !p.folded ==> !phase_checked(p, round)
    &&& !p.folded ==> has_bet(p, q, round, senders, amounts, k) || waits(p, q, round, senders, k)
}

/// What holds of the session `t` after the first `k` bets of a run that began
/// in `s`: the phase is the same, the players are the same, and a player still
/// in has either made the bet of the run or wagered nothing yet.
pub open spec fn mid_run(
    s: StateModel,
    t: StateModel,
    senders: Seq<Seq<char>>,
    amounts: Seq<u64>,
    k: int,
) -> bool {
    &&& t.game_board.round == s.game_board.round
    &&& t.players.len() == s.players.len()
    &&& forall|i: int|
        0 <= i < s.players.len() ==> seat_mid_run(
            #[trigger] t.players[i],
            s.players[i],
            s.game_board.round,
            senders,
            amounts,
            k,
        )
}

/// All bets of the run are worth the same.
pub open spec fn amounts_equal(amounts: Seq<u64>) -> bool {
    forall|j: int, k: int|
        0 <= j < amounts.len() && 0 <= k < amounts.len() ==> #[trigger] amounts[j]
            == #[trigger] amounts[k]
}

/// The phase that the run ends in: the next main phase where all bets are
/// worth the same, the matching phase where they are not.
pub open spec fn run_end(round: GameRound, amounts: Seq<u64>) -> GameRound {
    if amounts_equal(amounts) {
        main_phase_after(round)
    } else {
        matching_phase_of(round)
    }
}

/// The sender at place `k` has not bet before.
pub proof fn lemma_sender_waits(
    s: StateModel,
    t: StateModel,
    senders: Seq<Seq<char>>,
    amounts: Seq<u64>,
    k: int,
    upto: int,
    i: int,
)
    requires
        bet_run_ok(s, senders, amounts),
        0 <= upto <= k < senders.len(),
        mid_run(s, t, senders, amounts, upto),
        sends(s, senders, amounts, k, i),
    ensures
        waits(t.players[i], s.players[i], s.game_board.round, senders, upto),
        !t.players[i].folded,
        t.players[i].addr == s.players[i].addr,
{
    let round = s.game_board.round;
    let p = t.players[i];
    assert(seat_mid_run(p, s.players[i], round, senders, amounts, upto));
    if has_bet(p, s.players[i], round, senders, amounts, upto) {
        let j = choose|j: int|
            0 <= j < upto && #[trigger] senders[j] == s.players[i].addr@ && phase_bet(p, round)
                == amounts[j] && p.last_action is Some;
        assert(senders[j] != senders[k]);
    }
}

/// The bet at place `k` of a run is taken, and leaves every player as the
/// run has it after `k + 1` bets.
pub proof fn lemma_bet_taken(
    s: StateModel,
    t: StateModel,
    senders: Seq<Seq<char>>,
    amounts: Seq<u64>,
    k: int,
    i0: int,
)
    requires
        bet_run_ok(s, senders, amounts),
        0 <= k < senders.len(),
        mid_run(s, t, senders, amounts, k),
        sends(s, senders, amounts, k, i0),
    ensures
        bet_refusal(t, senders[k], amounts[k]) is None,
        seat_of(t.players, senders[k]) == i0,
        mid_run(s, bet_placed(t, i0, amounts[k]), senders, amounts, k + 1),
{
    let round = s.game_board.round;
    let amount = amounts[k];
    assert forall|a: int, b: int| 0 <= a < b < t.players.len() implies (#[trigger] t.players[a]).addr@
        != (#[trigger] t.players[b]).addr@ by {
        assert(seat_mid_run(t.players[a], s.players[a], round, senders, amounts, k));
        assert(seat_mid_run(t.players[b], s.players[b], round, senders, amounts, k));
        assert(s.players[a].addr@ != s.players[b].addr@);
    }
    lemma_sender_waits(s, t, senders, amounts, k, k, i0);
    lemma_seat_unique(t.players, i0);
    let placed = bet_placed(t, i0, amount);
    assert forall|i: int| 0 <= i < s.players.len() implies seat_mid_run(
        #[trigger] placed.players[i],
        s.players[i],
        round,
        senders,
        amounts,
        k + 1,
    ) by {
        let p = placed.players[i];
        let q = s.players[i];
        let before = t.players[i];
        assert(seat_mid_run(before, q, round, senders, amounts, k));
        if i == i0 {
            assert(senders[k] == q.addr@);
            assert(phase_bet(p, round) == amounts[k]);
            assert(has_bet(p, q, round, senders, amounts, k + 1));
        } else {
            assert(p == before);
            if !p.folded {
                if i < i0 {
                    assert(s.players[i].addr@ != s.players[i0].addr@);
                } else {
                    assert(s.players[i0].addr@ != s.players[i].addr@);
                }
                if has_bet(before, q, round, senders, amounts, k) {
                    let j = choose|j: int|
                        0 <= j < k && #[trigger] senders[j] == q.addr@ && phase_bet(before, round)
                            == amounts[j] && before.last_action is Some;
                    assert(senders[j] == q.addr@);
                    assert(has_bet(p, q, round, senders, amounts, k + 1));
                } else {
                    assert(waits(before, q, round, senders, k));
                    assert(waits(p, q, round, senders, k + 1));
                }
            }
        }
    }
}

/// In the middle of a run nobody has checked.
pub proof fn lemma_nobody_checked(
    s: StateModel,
    t: StateModel,
    senders: Seq<Seq<char>>,
    amounts: Seq<u64>,
    k: int,
    i0: int,
)
    requires
        mid_run(s, t, senders, amounts, k),
        0 <= i0 < s.players.len(),
        !t.players[i0].folded,
    ensures
        !any_checked(t.players, s.game_board.round),
        !all_active_checked(t.players, s.game_board.round),
{
    let round = s.game_board.round;
    if any_checked(t.players, round) {
        let c = choose|c: int|
            0 <= c < t.players.len() && !(#[trigger] t.players[c]).folded && phase_checked(
                t.players[c],
                round,
            );
        assert(seat_mid_run(t.players[c], s.players[c], round, senders, amounts, k));
    }
    assert(seat_mid_run(t.players[i0], s.players[i0], round, senders, amounts, k));
}

/// While a sender is still to come, the phase stays.
pub proof fn lemma_run_goes_on(
    s: StateModel,
    t: StateModel,
    senders: Seq<Seq<char>>,
    amounts: Seq<u64>,
    k: int,
    i1: int,
)
    requires
        bet_run_ok(s, senders, amounts),
        0 <= k < senders.len(),
        mid_run(s, t, senders, amounts, k),
        sends(s, senders, amounts, k, i1),
    ensures
        advance_spec(t) == t,
{
    let round = s.game_board.round;
    lemma_sender_waits(s, t, senders, amounts, k, k, i1);
    lemma_nobody_checked(s, t, senders, amounts, k, i1);
    assert(!all_active_staked(t.players, round)) by {
        assert(!t.players[i1].folded);
        assert(phase_bet(t.players[i1], round) == 0);
        assert(!phase_checked(t.players[i1], round));
    }
    assert(round_after(t) == round);
}

/// At the end of a run every player still in has made the bet.
pub proof fn lemma_all_bet(
    s: StateModel,
    t: StateModel,
    senders: Seq<Seq<char>>,
    amounts: Seq<u64>,
    i: int,
)
    requires
        bet_run_ok(s, senders, amounts),
        mid_run(s, t, senders, amounts, senders.len() as int),
        0 <= i < s.players.len(),
        !t.players[i].folded,
    ensures
        has_bet(t.players[i], s.players[i], s.game_board.round, senders, amounts, senders.len() as int),
        phase_bet(t.players[i], s.game_board.round) >= MIN_BET,
        t.players[i].last_action is Some,
{
    let round = s.game_board.round;
    let n = senders.len() as int;
    let q = s.players[i];
    assert(seat_mid_run(t.players[i], q, round, senders, amounts, n));
    if waits(t.players[i], q, round, senders, n) {
        let kk = choose|kk: int| 0 <= kk < senders.len() && #[trigger] senders[kk] == q.addr@;
        assert(senders[kk] != q.addr@);
    }
    let j = choose|j: int|
        0 <= j < n && #[trigger] senders[j] == q.addr@ && phase_bet(t.players[i], round)
            == amounts[j] && t.players[i].last_action is Some;
    assert(amounts[j] >= MIN_BET);
}

/// At the end of a run the wager of the sender at place `j` is the bet made
/// at place `j`.
pub proof fn lemma_sender_stake(
    s: StateModel,
    t: StateModel,
    senders: Seq<Seq<char>>,
    amounts: Seq<u64>,
    j: int,
    i: int,
)
    requires
        bet_run_ok(s, senders, amounts),
        mid_run(s, t, senders, amounts, senders.len() as int),
        0 <= j < senders.len(),
        sends(s, senders, amounts, j, i),
    ensures
        !t.players[i].folded,
        phase_bet(t.players[i], s.game_board.round) == amounts[j],
        amounts[j] != 0,
{
    let round = s.game_board.round;
    let n = senders.len() as int;
    assert(seat_mid_run(t.players[i], s.players[i], round, senders, amounts, n));
    lemma_all_bet(s, t, senders, amounts, i);
    let jj = choose|jj: int|
        0 <= jj < n && #[trigger] senders[jj] == s.players[i].addr@ && phase_bet(
            t.players[i],
            round,
        ) == amounts[jj] && t.players[i].last_action is Some;
    if jj < j {
        assert(senders[jj] != senders[j]);
    } else if j < jj {
        assert(senders[j] != senders[jj]);
    }
    assert(amounts[j] >= MIN_BET);
}

/// At the end of a run the wagers agree exactly where the bets of the run
/// are worth the same.
pub proof fn lemma_stakes_at_end(
    s: StateModel,
    t: StateModel,
    senders: Seq<Seq<char>>,
    amounts: Seq<u64>,
)
    requires
        bet_run_ok(s, senders, amounts),
        mid_run(s, t, senders, amounts, senders.len() as int),
    ensures
        stakes_equal(t.players, s.game_board.round) == amounts_equal(amounts),
{
    let round = s.game_board.round;
    let n = senders.len() as int;
    if amounts_equal(amounts) {
        assert forall|a: int, b: int|
            0 <= a < t.players.len() && 0 <= b < t.players.len() && !(#[trigger] t.players[a]).folded
                && !(#[trigger] t.players[b]).folded && phase_bet(t.players[a], round) != 0
                && phase_bet(t.players[b], round) != 0 implies phase_bet(t.players[a], round)
            == phase_bet(t.players[b], round) by {
            lemma_all_bet(s, t, senders, amounts, a);
            lemma_all_bet(s, t, senders, amounts, b);
            let ja = choose|j: int|
                0 <= j < n && #[trigger] senders[j] == s.players[a].addr@ && phase_bet(
                    t.players[a],
                    round,
                ) == amounts[j] && t.players[a].last_action is Some;
            let jb = choose|j: int|
                0 <= j < n && #[trigger] senders[j] == s.players[b].addr@ && phase_bet(
                    t.players[b],
                    round,
                ) == amounts[j] && t.players[b].last_action is Some;
            assert(amounts[ja] == amounts[jb]);
        }
    } else {
        let (ja, jb) = choose|ja: int, jb: int|
            0 <= ja < amounts.len() && 0 <= jb < amounts.len() && #[trigger] amounts[ja]
                != #[trigger] amounts[jb];
        let a = choose|i: int| #[trigger] sends(s, senders, amounts, ja, i);
        let b = choose|i: int| #[trigger] sends(s, senders, amounts, jb, i);
        lemma_sender_stake(s, t, senders, amounts, ja, a);
        lemma_sender_stake(s, t, senders, amounts, jb, b);
        assert(!t.players[a].folded && !t.players[b].folded);
    }
}

/// The last bet of a run ends it: the turn goes on to the next main phase
/// where the bets are worth the same, and enters the matching phase where
/// they are not.
pub proof fn lemma_run_ends(
    s: StateModel,
    t: StateModel,
    senders: Seq<Seq<char>>,
    amounts: Seq<u64>,
    i0: int,
)
    requires
        bet_run_ok(s, senders, amounts),
        mid_run(s, t, senders, amounts, senders.len() as int),
        0 <= i0 < s.players.len(),
        !t.players[i0].folded,
    ensures
        round_after(t) == run_end(s.game_board.round, amounts),
{
    let round = s.game_board.round;
    let n = senders.len() as int;
    lemma_nobody_checked(s, t, senders, amounts, n, i0);
    assert(all_acted(t.players)) by {
        assert forall|i: int| 0 <= i < t.players.len() implies (#[trigger] t.players[i]).last_action is Some by {
            assert(seat_mid_run(t.players[i], s.players[i], round, senders, amounts, n));
            if !t.players[i].folded {
                lemma_all_bet(s, t, senders, amounts, i);
            }
        }
    }
    assert(all_active_staked(t.players, round)) by {
        assert forall|i: int| 0 <= i < t.players.len() && !(#[trigger] t.players[i]).folded implies phase_bet(
            t.players[i],
            round,
        ) != 0 || phase_checked(t.players[i], round) by {
            lemma_all_bet(s, t, senders, amounts, i);
        }
    }
    lemma_stakes_at_end(s, t, senders, amounts);
}

/// One bet of a run: it is taken; before the last bet the phase stays, and
/// the last bet ends the run.
pub proof fn lemma_run_step(
    s: StateModel,
    t: StateModel,
    senders: Seq<Seq<char>>,
    amounts: Seq<u64>,
    k: int,
)
    requires
        bet_run_ok(s, senders, amounts),
        0 <= k < senders.len(),
        mid_run(s, t, senders, amounts, k),
    ensures
        bet_spec(t, senders[k], amounts[k]) is Ok,
        k + 1 < senders.len() ==> mid_run(
            s,
            bet_spec(t, senders[k], amounts[k])->Ok_0.0,
            senders,
            amounts,
            k + 1,
        ),
        k + 1 == senders.len() ==> bet_spec(t, senders[k], amounts[k])->Ok_0.0.game_board.round
            == run_end(s.game_board.round, amounts),
{
    let i0 = choose|i: int| #[trigger] sends(s, senders, amounts, k, i);
    lemma_bet_taken(s, t, senders, amounts, k, i0);
    let placed = bet_placed(t, i0, amounts[k]);
    assert(bet_spec(t, senders[k], amounts[k])->Ok_0.0 == advance_spec(placed));
    if k + 1 < senders.len() {
        assert(amounts[k + 1] >= MIN_BET);
        let i1 = choose|i: int| #[trigger] sends(s, senders, amounts, k + 1, i);
        lemma_run_goes_on(s, placed, senders, amounts, k + 1, i1);
    } else {
        assert(seat_mid_run(
            placed.players[i0],
            s.players[i0],
            s.game_board.round,
            senders,
            amounts,
            k + 1,
        ));
        lemma_run_ends(s, placed, senders, amounts, i0);
    }
}

/// Before its last bet a run stays in its phase.
pub proof fn lemma_run_prefix(s: StateModel, senders: Seq<Seq<char>>, amounts: Seq<u64>, k: nat)
    requires
        bet_run_ok(s, senders, amounts),
        k < senders.len(),
    ensures
        mid_run(s, after_bets(s, senders, amounts, k), senders, amounts, k as int),
    decreases k,
{
    if k == 0 {
        assert forall|i: int| 0 <= i < s.players.len() implies seat_mid_run(
            #[trigger] s.players[i],
            s.players[i],
            s.game_board.round,
            senders,
            amounts,
            0,
        ) by {
            if !s.players[i].folded {
                assert(waits(s.players[i], s.players[i], s.game_board.round, senders, 0));
            }
        }
    } else {
        lemma_run_prefix(s, senders, amounts, (k - 1) as nat);
        lemma_run_step(
            s,
            after_bets(s, senders, amounts, (k - 1) as nat),
            senders,
            amounts,
            k - 1,
        );
    }
}

/// A run of bets, one by every player still in the turn.
///
/// While the run lasts, the turn stays in its betting phase. Once the last
/// player has bet, the turn goes on to the next main phase where all the
/// bets are worth the same, without entering the matching phase; where the
/// bets differ, it enters the matching phase instead.
pub proof fn law_bet_run(s: StateModel, senders: Seq<Seq<char>>, amounts: Seq<u64>)
    requires
        bet_run_ok(s, senders, amounts),
    ensures
        forall|k: nat|
            k < senders.len() ==> (#[trigger] after_bets(s, senders, amounts, k)).game_board.round
                == s.game_board.round,
        amounts_equal(amounts) ==> after_bets(
            s,
            senders,
            amounts,
            senders.len(),
        ).game_board.round == main_phase_after(s.game_board.round),
        !amounts_equal(amounts) ==> after_bets(
            s,
            senders,
            amounts,
            senders.len(),
        ).game_board.round == matching_phase_of(s.game_board.round),
{
    assert forall|k: nat| k < senders.len() implies (#[trigger] after_bets(
        s,
        senders,
        amounts,
        k,
    )).game_board.round == s.game_board.round by {
        lemma_run_prefix(s, senders, amounts, k);
    }
    let last = (senders.len() - 1) as nat;
    lemma_run_prefix(s, senders, amounts, last);
    lemma_run_step(s, after_bets(s, senders, amounts, last), senders, amounts, last as int);
}

} // verus!
