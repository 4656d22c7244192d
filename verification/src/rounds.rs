//! The betting phases of a turn and the rule that moves a turn from one
//! phase to the next.

use vstd::prelude::*;

use crate::game_state::{
    active_count, lemma_totals_agree, total_bets, total_chips, BoardModel, GameRound,
    PlayerModel, State, StateModel,
};

verus! {

/// What a player has wagered in the phase that `round` belongs to.
pub open spec fn phase_bet(p: PlayerModel, round: GameRound) -> nat {
    match round {
        GameRound::NotStarted => 0,
        GameRound::Blind | GameRound::Matching => p.bet as nat,
        GameRound::Flop | GameRound::Matching2 => p.bet2 as nat,
        GameRound::Choice => (p.bet + p.bet2) as nat,
    }
}

/// Whether a player has checked in the phase `round`. Nobody can check
/// outside the two betting phases.
pub open spec fn phase_checked(p: PlayerModel, round: GameRound) -> bool {
    match round {
        GameRound::Blind => p.checked,
        GameRound::Flop => p.checked2,
        _ => false,
    }
}

/// Every player has a recorded action.
pub open spec fn all_acted(players: Seq<PlayerModel>) -> bool {
    forall|i: int| 0 <= i < players.len() ==> (#[trigger] players[i]).last_action is Some
}

/// Every player that has not folded has either checked or wagered something.
pub open spec fn all_active_staked(players: Seq<PlayerModel>, round: GameRound) -> bool {
    forall|i: int|
        0 <= i < players.len() && !(#[trigger] players[i]).folded ==> phase_bet(players[i], round)
            != 0 || phase_checked(players[i], round)
}

/// The wagers of the players that have not folded are all the same, those
/// that are nothing left aside.
pub open spec fn stakes_equal(players: Seq<PlayerModel>, round: GameRound) -> bool {
    forall|i: int, j: int|
        0 <= i < players.len() && 0 <= j < players.len() && !(#[trigger] players[i]).folded && !(
        #[trigger] players[j]).folded && phase_bet(players[i], round) != 0 && phase_bet(
            players[j],
            round,
        ) != 0 ==> phase_bet(players[i], round) == phase_bet(players[j], round)
}

/// Some player that has not folded has checked.
pub open spec fn any_checked(players: Seq<PlayerModel>, round: GameRound) -> bool {
    exists|i: int|
        0 <= i < players.len() && !(#[trigger] players[i]).folded && phase_checked(
            players[i],
            round,
        )
}

/// Every player that has not folded has checked.
pub open spec fn all_active_checked(players: Seq<PlayerModel>, round: GameRound) -> bool {
    forall|i: int|
        0 <= i < players.len() && !(#[trigger] players[i]).folded ==> phase_checked(
            players[i],
            round,
        )
}

/// The phase that follows `round`, given what the players have done.
///
/// Outside the matching phases nothing moves before everybody has acted. Then,
/// if everybody still in has checked, the turn goes on to the next main
/// phase; else if somebody has checked, to the matching phase; else, once
/// everybody still in has wagered, to the next main phase where the wagers
/// agree and to the matching phase where they differ.
pub open spec fn next_round(
    round: GameRound,
    acted: bool,
    staked: bool,
    equal: bool,
    some_checked: bool,
    all_checked: bool,
) -> GameRound {
    if round != GameRound::Matching && round != GameRound::Matching2 && !acted {
        round
    } else if all_checked {
        match round {
            GameRound::Blind => GameRound::Flop,
            GameRound::Flop => GameRound::Choice,
            GameRound::Matching => GameRound::Flop,
            GameRound::Matching2 => GameRound::Choice,
            _ => round,
        }
    } else if some_checked {
        match round {
            GameRound::Blind => GameRound::Matching,
            GameRound::Flop => GameRound::Matching2,
            _ => round,
        }
    } else {
        match round {
            GameRound::Blind => if staked && !equal {
                GameRound::Matching
            } else if staked && equal {
                GameRound::Flop
            } else {
                round
            },
            GameRound::Matching => if staked && equal {
                GameRound::Flop
            } else {
                round
            },
            GameRound::Flop => if staked && !equal {
                GameRound::Matching2
            } else if staked && equal {
                GameRound::Choice
            } else {
                round
            },
            GameRound::Matching2 => if staked && equal {
                GameRound::Choice
            } else {
                round
            },
            _ => round,
        }
    }
}

/// The phase that the session is in once the advancement rule has been applied.
pub open spec fn round_after(s: StateModel) -> GameRound {
    let r = s.game_board.round;
    next_round(
        r,
        all_acted(s.players),
        all_active_staked(s.players, r),
        stakes_equal(s.players, r),
        any_checked(s.players, r),
        all_active_checked(s.players, r),
    )
}

/// A player with the recorded action wiped, unless the player has folded.
pub open spec fn action_cleared(p: PlayerModel) -> PlayerModel {
    if p.folded {
        p
    } else {
        PlayerModel { last_action: None, ..p }
    }
}

/// The session after the advancement rule: in the phase that follows, and,
/// where the phase has changed, with the recorded action of every player
/// still in wiped.
pub open spec fn advance_spec(s: StateModel) -> StateModel {
    let r = round_after(s);
    if r != s.game_board.round {
        StateModel {
            game_board: BoardModel { round: r, ..s.game_board },
            players: Seq::new(s.players.len(), |i: int| action_cleared(s.players[i])),
            ..s
        }
    } else {
        s
    }
}

/// The advancement rule touches nothing but the phase and the recorded
/// actions: chips, wagers and who has folded stay as they are.
pub proof fn lemma_advance_frame(s: StateModel)
    ensures
        advance_spec(s).players.len() == s.players.len(),
        forall|i: int|
            0 <= i < s.players.len() ==> (#[trigger] advance_spec(s).players[i]) == (PlayerModel {
                last_action: advance_spec(s).players[i].last_action,
                ..s.players[i]
            }),
        advance_spec(s) == (StateModel {
            players: advance_spec(s).players,
            game_board: BoardModel { round: round_after(s), ..s.game_board },
            ..s
        }),
        total_chips(advance_spec(s).players) == total_chips(s.players),
        total_bets(advance_spec(s).players) == total_bets(s.players),
        active_count(advance_spec(s).players) == active_count(s.players),
        (round_after(s) == GameRound::NotStarted) == (s.game_board.round == GameRound::NotStarted),
{
    lemma_totals_agree(advance_spec(s).players, s.players);
}

/// The highest wager of the phase: of the first phase in `Matching`, of the
/// second in every other round. Folded players count.
pub open spec fn highest_bet(players: Seq<PlayerModel>, round: GameRound) -> u64
    decreases players.len(),
{
    if players.len() == 0 {
        0
    } else {
        let rest = highest_bet(players.drop_last(), round);
        let own = if round == GameRound::Matching {
            players.last().bet
        } else {
            players.last().bet2
        };
        if own > rest {
            own
        } else {
            rest
        }
    }
}

/// No wager of the phase exceeds the highest.
pub proof fn lemma_highest_bet_bounds(players: Seq<PlayerModel>, round: GameRound, i: int)
    requires
        0 <= i < players.len(),
    ensures
        round == GameRound::Matching ==> players[i].bet <= highest_bet(players, round),
        round != GameRound::Matching ==> players[i].bet2 <= highest_bet(players, round),
    decreases players.len(),
{
    if i < players.len() - 1 {
        lemma_highest_bet_bounds(players.drop_last(), round, i);
    }
}

/// The wagers of one player are part of the wagers of all.
pub proof fn lemma_total_bets_bounds(players: Seq<PlayerModel>, i: int)
    requires
        0 <= i < players.len(),
    ensures
        players[i].bet + players[i].bet2 <= total_bets(players),
    decreases players.len(),
{
    if i < players.len() - 1 {
        lemma_total_bets_bounds(players.drop_last(), i);
    }
}

/// The highest wager of the current phase.
pub fn get_highest_bet(state: &State) -> (highest: u64)
    ensures
        highest == highest_bet(state@.players, state@.game_board.round),
{
    let ghost ps = state@.players;
    let first_phase = state.game_board.round == GameRound::Matching;
    let mut highest: u64 = 0;
    let mut i: usize = 0;
    assert(ps.take(0) =~= Seq::<PlayerModel>::empty());
    while i < state.players.len()
        invariant
            i <= state.players.len(),
            ps == state@.players,
            ps.len() == state.players.len(),
            first_phase == (state.game_board.round == GameRound::Matching),
            highest == highest_bet(ps.take(i as int), state.game_board.round),
        decreases state.players.len() - i,
    {
        proof {
            assert(ps.take(i + 1).drop_last() =~= ps.take(i as int));
            assert(ps.take(i + 1).last() == state.players[i as int]@);
        }
        let own = if first_phase {
            state.players[i].bet
        } else {
            state.players[i].bet2
        };
        if own > highest {
            highest = own;
        }
        i += 1;
    }
    assert(ps.take(state.players.len() as int) =~= ps);
    highest
}

/// What the players have done in the current phase: whether all have acted,
/// whether all still in have wagered or checked, whether all wagers agree,
/// whether anybody still in has checked, and whether all still in have
/// checked.
pub fn get_bet_stats(state: &State) -> (stats: (bool, bool, bool, bool, bool))
    requires
        total_bets(state@.players) <= u64::MAX,
    ensures
        stats.0 == all_acted(state@.players),
        stats.1 == all_active_staked(state@.players, state@.game_board.round),
        stats.2 == stakes_equal(state@.players, state@.game_board.round),
        stats.3 == any_checked(state@.players, state@.game_board.round),
        stats.4 == all_active_checked(state@.players, state@.game_board.round),
{
    let ghost ps = state@.players;
    let round = state.game_board.round;
    let mut last_bet: u64 = 0;
    let mut acted = true;
    let mut staked = true;
    let mut equal = true;
    let mut some_checked = false;
    let mut all_checked = true;
    let mut i: usize = 0;
    while i < state.players.len()
        invariant
            i <= state.players.len(),
            ps == state@.players,
            ps.len() == state.players.len(),
            round == state.game_board.round,
            total_bets(ps) <= u64::MAX,
            acted == all_acted(ps.take(i as int)),
            staked == all_active_staked(ps.take(i as int), round),
            equal == stakes_equal(ps.take(i as int), round),
            some_checked == any_checked(ps.take(i as int), round),
            all_checked == all_active_checked(ps.take(i as int), round),
            last_bet == 0 ==> forall|j: int|
                0 <= j < i && !(#[trigger] ps[j]).folded ==> phase_bet(ps[j], round) == 0,
            last_bet != 0 ==> exists|j: int|
                0 <= j < i && !(#[trigger] ps[j]).folded && phase_bet(ps[j], round) == last_bet,
            equal ==> forall|j: int|
                0 <= j < i && !(#[trigger] ps[j]).folded && phase_bet(ps[j], round) != 0
                    ==> phase_bet(ps[j], round) == last_bet,
        decreases state.players.len() - i,
    {
        let ghost before = ps.take(i as int);
        let ghost after = ps.take(i + 1);
        let ghost p = ps[i as int];
        proof {
            lemma_total_bets_bounds(ps, i as int);
            assert(p == state.players[i as int]@);
            assert(after[i as int] == p);
            assert forall|j: int| 0 <= j < i implies #[trigger] after[j] == before[j] by {}
        }
        let player = &state.players[i];
        let player_bet: u64 = match round {
            GameRound::NotStarted => 0,
            GameRound::Blind | GameRound::Matching => player.bet,
            GameRound::Flop | GameRound::Matching2 => player.bet2,
            GameRound::Choice => player.bet + player.bet2,
        };
        let check_status = match round {
            GameRound::Blind => player.checked,
            GameRound::Flop => player.checked2,
            _ => false,
        };
        assert(player_bet == phase_bet(p, round));
        assert(check_status == phase_checked(p, round));
        if player.last_action.is_none() {
            acted = false;
        }
        if !player.folded {
            if check_status {
                some_checked = true;
            } else {
                all_checked = false;
            }
            if player_bet == 0 {
                if !check_status {
                    staked = false;
                }
            } else if player_bet != last_bet {
                if last_bet != 0 {
                    proof {
                        let j = choose|j: int|
                            0 <= j < i && !(#[trigger] ps[j]).folded && phase_bet(ps[j], round)
                                == last_bet;
                        assert(after[j] == ps[j]);
                        assert(!after[j].folded && !after[i as int].folded);
                    }
                    equal = false;
                }
                last_bet = player_bet;
            }
        }
        proof {
            if all_acted(before) && p.last_action is Some {
                assert forall|j: int| 0 <= j < after.len() implies (#[trigger] after[j]).last_action is Some by {
                    if j < i {
                        assert(before[j].last_action is Some);
                    }
                }
            }
            if !all_acted(before) {
                let j = choose|j: int| 0 <= j < before.len() && !((#[trigger] before[j]).last_action is Some);
                assert(after[j] == before[j]);
            }
            assert(acted == all_acted(after));
            if any_checked(before, round) {
                let j = choose|j: int|
                    0 <= j < before.len() && !(#[trigger] before[j]).folded && phase_checked(
                        before[j],
                        round,
                    );
                assert(after[j] == before[j]);
                assert(!after[j].folded);
            }
            if any_checked(after, round) && !(!p.folded && phase_checked(p, round)) {
                let j = choose|j: int|
                    0 <= j < after.len() && !(#[trigger] after[j]).folded && phase_checked(
                        after[j],
                        round,
                    );
                assert(before[j] == after[j]);
                assert(!before[j].folded);
            }
            if !p.folded && phase_checked(p, round) {
                assert(!after[i as int].folded);
            }
            assert(some_checked == any_checked(after, round));
            if !all_active_checked(before, round) {
                let j = choose|j: int|
                    0 <= j < before.len() && !(#[trigger] before[j]).folded && !phase_checked(
                        before[j],
                        round,
                    );
                assert(after[j] == before[j]);
            }
            if all_active_checked(before, round) && (p.folded || phase_checked(p, round)) {
                assert forall|j: int| 0 <= j < after.len() && !(#[trigger] after[j]).folded implies phase_checked(
                    after[j],
                    round,
                ) by {
                    if j < i {
                        assert(!before[j].folded);
                    }
                }
            }
            assert(all_checked == all_active_checked(after, round));
            if !all_active_staked(before, round) {
                let j = choose|j: int|
                    0 <= j < before.len() && !(#[trigger] before[j]).folded && !(phase_bet(
                        before[j],
                        round,
                    ) != 0 || phase_checked(before[j], round));
                assert(after[j] == before[j]);
            }
            if all_active_staked(before, round) && (p.folded || phase_bet(p, round) != 0
                || phase_checked(p, round)) {
                assert forall|j: int| 0 <= j < after.len() && !(#[trigger] after[j]).folded implies phase_bet(
                    after[j],
                    round,
                ) != 0 || phase_checked(after[j], round) by {
                    if j < i {
                        assert(!before[j].folded);
                    }
                }
            }
            assert(staked == all_active_staked(after, round));
            if !stakes_equal(before, round) {
                let (a, b) = choose|a: int, b: int|
                    0 <= a < before.len() && 0 <= b < before.len() && !(#[trigger] before[a]).folded
                        && !(#[trigger] before[b]).folded && phase_bet(before[a], round) != 0
                        && phase_bet(before[b], round) != 0 && phase_bet(before[a], round)
                        != phase_bet(before[b], round);
                assert(after[a] == before[a] && after[b] == before[b]);
                assert(!after[a].folded && !after[b].folded);
            }
            if equal {
                assert forall|a: int, b: int|
                    0 <= a < after.len() && 0 <= b < after.len() && !(#[trigger] after[a]).folded
                        && !(#[trigger] after[b]).folded && phase_bet(after[a], round) != 0
                        && phase_bet(after[b], round) != 0 implies phase_bet(after[a], round)
                    == phase_bet(after[b], round) by {
                    assert(after[a] == ps[a] && after[b] == ps[b]);
                    assert(!ps[a].folded && !ps[b].folded);
                }
            }
            assert(equal == stakes_equal(after, round));
        }
        i += 1;
    }
    assert(ps.take(state.players.len() as int) =~= ps);
    (acted, staked, equal, some_checked, all_checked)
}

/// Moves the turn to the phase that follows, where the advancement rule says
/// so, and then wipes the recorded action of every player still in.
pub fn advance_turn_if_necessary(state: &mut State)
    requires
        total_bets(old(state)@.players) <= u64::MAX,
    ensures
        final(state)@ == advance_spec(old(state)@),
{
    let previous_round = state.game_board.round;
    let (acted, staked, equal, some_checked, all_checked) = get_bet_stats(state);
    if previous_round != GameRound::Matching && previous_round != GameRound::Matching2 && !acted {
        return ;
    }
    let round = if all_checked {
        match previous_round {
            GameRound::Blind => GameRound::Flop,
            GameRound::Flop => GameRound::Choice,
            GameRound::Matching => GameRound::Flop,
            GameRound::Matching2 => GameRound::Choice,
            _ => previous_round,
        }
    } else if some_checked {
        match previous_round {
            GameRound::Blind => GameRound::Matching,
            GameRound::Flop => GameRound::Matching2,
            _ => previous_round,
        }
    } else {
        match previous_round {
            GameRound::Blind => if staked && !equal {
                GameRound::Matching
            } else if staked && equal {
                GameRound::Flop
            } else {
                previous_round
            },
            GameRound::Matching => if staked && equal {
                GameRound::Flop
            } else {
                previous_round
            },
            GameRound::Flop => if staked && !equal {
                GameRound::Matching2
            } else if staked && equal {
                GameRound::Choice
            } else {
                previous_round
            },
            GameRound::Matching2 => if staked && equal {
                GameRound::Choice
            } else {
                previous_round
            },
            _ => previous_round,
        }
    };
    assert(round == round_after(old(state)@));
    if previous_round != round {
        state.game_board.round = round;
        let ghost ps = old(state)@.players;
        let mut i: usize = 0;
        while i < state.players.len()
            invariant
                i <= state.players.len(),
                ps == old(state)@.players,
                ps.len() == state.players.len(),
                state@.game_board == (BoardModel { round, ..old(state)@.game_board }),
                state@ == (StateModel {
                    game_board: state@.game_board,
                    players: state@.players,
                    ..old(state)@
                }),
                forall|j: int| 0 <= j < i ==> #[trigger] state@.players[j] == action_cleared(ps[j]),
                forall|j: int| i <= j < ps.len() ==> #[trigger] state@.players[j] == ps[j],
            decreases state.players.len() - i,
        {
            let ghost prev = state@.players;
            if !state.players[i].folded {
                state.players[i].last_action = None;
            }
            proof {
                assert forall|j: int| 0 <= j < ps.len() && j != i implies #[trigger] state@.players[j]
                    == prev[j] by {}
                assert(state@.players[i as int] == action_cleared(prev[i as int]));
            }
            i += 1;
        }
        assert(state@.players =~= Seq::new(ps.len(), |i: int| action_cleared(ps[i])));
    }
}

} // verus!
