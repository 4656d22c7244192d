//! The commands of the betting phases: bet, match, check and fold.

use vstd::prelude::*;

use crate::constants::MIN_BET;
use crate::contract::{Effect, Env, GameError};
use crate::game_state::{
    find_player, is_seated, lemma_total_bets_update, lemma_total_chips_update, seat_of,
    total_bets, BoardModel, GameRound, PlayerAction, PlayerModel, State, StateModel,
};
use crate::rounds::{
    advance_spec, advance_turn_if_necessary, get_highest_bet, highest_bet,
    lemma_advance_frame, lemma_highest_bet_bounds, phase_bet,
};
use crate::settlement::{advance_to_next_turn_if_all_players_but_one_folded, fold_out_spec};
use crate::utils::cards::{draw_cards, drawn, remaining};
use crate::wellformed::{lemma_bet_wf, lemma_check_wf, lemma_fold_wf, lemma_match_wf};

verus! {

/// What a command leaves behind: the session after it and the effects for the
/// host, or the reason why it was turned down.
pub type Outcome = Result<(StateModel, Seq<Effect>), GameError>;

/// The outcome that a command's result and the session after it stand for.
pub open spec fn outcome_of(r: Result<Vec<Effect>, GameError>, after: StateModel) -> Outcome {
    match r {
        Ok(effects) => Ok((after, effects@)),
        Err(e) => Err(e),
    }
}

/// The outcome of the advancement rule followed by the fold-out rule.
pub open spec fn settle_after_move(s: StateModel) -> Outcome {
    Ok(fold_out_spec(advance_spec(s)))
}

/// Why a bet is turned down, if it is.
pub open spec fn bet_refusal(s: StateModel, sender: Seq<char>, amount: u64) -> Option<GameError> {
    if s.players.len() < 2 {
        Some(GameError::NotInGame)
    } else if !is_seated(s.players, sender) {
        Some(GameError::NotInGame)
    } else {
        let p = s.players[seat_of(s.players, sender)];
        if p.folded {
            Some(GameError::CantBetIfFolded)
        } else if amount < MIN_BET {
            Some(GameError::BetTooSmall)
        } else if p.chips < amount {
            Some(GameError::NotEnoughChips)
        } else if s.game_board.round != GameRound::Blind && s.game_board.round
            != GameRound::Flop {
            Some(GameError::CantBetNow)
        } else {
            None
        }
    }
}

/// The session after the player at `seat` has moved `amount` chips into the
/// pot, before the advancement rule.
pub open spec fn bet_placed(s: StateModel, seat: int, amount: u64) -> StateModel {
    let p = s.players[seat];
    let staked = if s.game_board.round == GameRound::Blind {
        PlayerModel { bet: (p.bet + amount) as u64, ..p }
    } else {
        PlayerModel { bet2: (p.bet2 + amount) as u64, ..p }
    };
    StateModel {
        game_board: BoardModel { pool: (s.game_board.pool + amount) as u64, ..s.game_board },
        players: s.players.update(
            seat,
            PlayerModel {
                chips: (p.chips - amount) as u64,
                last_action: Some(PlayerAction::SentBet(amount)),
                ..staked
            },
        ),
        ..s
    }
}

/// The outcome of a bet.
pub open spec fn bet_spec(s: StateModel, sender: Seq<char>, amount: u64) -> Outcome {
    match bet_refusal(s, sender, amount) {
        Some(e) => Err(e),
        None => Ok((advance_spec(bet_placed(s, seat_of(s.players, sender), amount)), Seq::empty())),
    }
}

/// A bet that is not turned down keeps the sum of all wagers within `u64`.
pub open spec fn bet_fits(s: StateModel, sender: Seq<char>, amount: u64) -> bool {
    bet_refusal(s, sender, amount) is None ==> total_bets(s.players) + amount <= u64::MAX
}

/// A player wagers `amount` chips in the blind or the flop phase.
pub fn bet(state: &mut State, env: &Env, amount: u64) -> (r: Result<Vec<Effect>, GameError>)
    requires
        old(state).wf(),
        bet_fits(old(state)@, env.sender@, amount),
    ensures
        outcome_of(r, final(state)@) == bet_spec(old(state)@, env.sender@, amount),
        r is Err ==> *final(state) == *old(state),
        r is Ok ==> final(state).wf(),
{
    let ghost s0 = state@;
    proof {
        lemma_bet_wf(s0, env.sender@, amount);
    }
    if state.players.len() < 2 {
        return Err(GameError::NotInGame);
    }
    let seat = match find_player(state, &env.sender) {
        Some(i) => i,
        None => {
            return Err(GameError::NotInGame);
        },
    };
    if state.players[seat].folded {
        return Err(GameError::CantBetIfFolded);
    }
    if amount < MIN_BET {
        return Err(GameError::BetTooSmall);
    }
    if state.players[seat].chips < amount {
        return Err(GameError::NotEnoughChips);
    }
    if state.game_board.round != GameRound::Blind && state.game_board.round != GameRound::Flop {
        return Err(GameError::CantBetNow);
    }
    proof {
        lemma_total_chips_update(s0.players, seat as int, s0.players[seat as int]);
        lemma_total_bets_update(s0.players, seat as int, s0.players[seat as int]);
    }
    state.game_board.pool += amount;
    state.players[seat].last_action = Some(PlayerAction::SentBet(amount));
    if state.game_board.round == GameRound::Blind {
        state.players[seat].bet += amount;
    } else {
        state.players[seat].bet2 += amount;
    }
    state.players[seat].chips -= amount;
    proof {
        let placed = bet_placed(s0, seat as int, amount);
        assert(state@.players =~= placed.players);
        assert(state@ == placed);
        lemma_total_bets_update(s0.players, seat as int, placed.players[seat as int]);
    }
    advance_turn_if_necessary(state);
    Ok(Vec::new())
}

/// What the player at `seat` has to pay to match the highest wager of the
/// phase.
pub open spec fn gap_of(s: StateModel, seat: int) -> int {
    let p = s.players[seat];
    highest_bet(s.players, s.game_board.round) - if s.game_board.round == GameRound::Matching {
        p.bet
    } else {
        p.bet2
    }
}

/// Why a match is turned down, if it is. Bets are matched in the two
/// matching phases, and the amount has to be exactly the gap to the highest
/// wager.
pub open spec fn match_refusal(s: StateModel, sender: Seq<char>, amount: u64) -> Option<
    GameError,
> {
    if s.players.len() < 2 {
        Some(GameError::NotInGame)
    } else if !is_seated(s.players, sender) {
        Some(GameError::NotInGame)
    } else {
        let seat = seat_of(s.players, sender);
        let p = s.players[seat];
        if p.folded {
            Some(GameError::CantBetIfFolded)
        } else if p.chips < amount {
            Some(GameError::NotEnoughChips)
        } else if s.game_board.round != GameRound::Matching && s.game_board.round
            != GameRound::Matching2 {
            Some(GameError::CantMatchNow)
        } else if amount != gap_of(s, seat) {
            Some(GameError::WrongMatchingAmount)
        } else {
            None
        }
    }
}

/// The session after the player at `seat` has paid `amount`, the gap to the
/// highest wager, before the advancement rule.
pub open spec fn match_placed(s: StateModel, seat: int, amount: u64) -> StateModel {
    let p = s.players[seat];
    let highest = highest_bet(s.players, s.game_board.round);
    let staked = if s.game_board.round == GameRound::Matching {
        PlayerModel { bet: highest, ..p }
    } else {
        PlayerModel { bet2: highest, ..p }
    };
    StateModel {
        game_board: BoardModel { pool: (s.game_board.pool + amount) as u64, ..s.game_board },
        players: s.players.update(
            seat,
            PlayerModel {
                chips: (p.chips - amount) as u64,
                last_action: Some(PlayerAction::MatchedBet),
                ..staked
            },
        ),
        ..s
    }
}

/// The outcome of a match.
pub open spec fn match_spec(s: StateModel, sender: Seq<char>, amount: u64) -> Outcome {
    match match_refusal(s, sender, amount) {
        Some(e) => Err(e),
        None => Ok(
            (advance_spec(match_placed(s, seat_of(s.players, sender), amount)), Seq::empty()),
        ),
    }
}

/// A match that is not turned down keeps the sum of all wagers within `u64`.
pub open spec fn match_fits(s: StateModel, sender: Seq<char>, amount: u64) -> bool {
    match_refusal(s, sender, amount) is None ==> total_bets(s.players) + amount <= u64::MAX
}

/// A player pays the gap between the own wager and the highest of the phase.
pub fn match_bet(state: &mut State, env: &Env, amount: u64) -> (r: Result<Vec<Effect>, GameError>)
    requires
        old(state).wf(),
        match_fits(old(state)@, env.sender@, amount),
    ensures
        outcome_of(r, final(state)@) == match_spec(old(state)@, env.sender@, amount),
        r is Err ==> *final(state) == *old(state),
        r is Ok ==> final(state).wf(),
{
    let ghost s0 = state@;
    proof {
        lemma_match_wf(s0, env.sender@, amount);
    }
    if state.players.len() < 2 {
        return Err(GameError::NotInGame);
    }
    let highest = get_highest_bet(state);
    let seat = match find_player(state, &env.sender) {
        Some(i) => i,
        None => {
            return Err(GameError::NotInGame);
        },
    };
    if state.players[seat].folded {
        return Err(GameError::CantBetIfFolded);
    }
    if state.players[seat].chips < amount {
        return Err(GameError::NotEnoughChips);
    }
    if state.game_board.round != GameRound::Matching && state.game_board.round
        != GameRound::Matching2 {
        return Err(GameError::CantMatchNow);
    }
    let first_phase = state.game_board.round == GameRound::Matching;
    let own = if first_phase {
        state.players[seat].bet
    } else {
        state.players[seat].bet2
    };
    proof {
        lemma_highest_bet_bounds(s0.players, s0.game_board.round, seat as int);
    }
    if amount != highest - own {
        return Err(GameError::WrongMatchingAmount);
    }
    proof {
        lemma_total_chips_update(s0.players, seat as int, s0.players[seat as int]);
    }
    state.game_board.pool += amount;
    if first_phase {
        state.players[seat].bet = highest;
    } else {
        state.players[seat].bet2 = highest;
    }
    state.players[seat].chips -= amount;
    state.players[seat].last_action = Some(PlayerAction::MatchedBet);
    proof {
        let placed = match_placed(s0, seat as int, amount);
        assert(state@.players =~= placed.players);
        assert(state@ == placed);
        lemma_total_bets_update(s0.players, seat as int, placed.players[seat as int]);
    }
    advance_turn_if_necessary(state);
    Ok(Vec::new())
}

/// Why a check is turned down, if it is. Only a player checks, only in the
/// two betting phases, and not after a wager in the phase.
pub open spec fn check_refusal(s: StateModel, sender: Seq<char>) -> Option<GameError> {
    if s.players.len() < 2 {
        Some(GameError::NotInGame)
    } else if !is_seated(s.players, sender) {
        Some(GameError::NotInGame)
    } else if s.game_board.round != GameRound::Blind && s.game_board.round != GameRound::Flop {
        Some(GameError::CantCheckIfNeedToMatch)
    } else if phase_bet(s.players[seat_of(s.players, sender)], s.game_board.round) != 0 {
        Some(GameError::CantCheckAfterBet)
    } else {
        None
    }
}

/// The session after the check of the player with this address has been
/// recorded, before the advancement rule.
pub open spec fn check_placed(s: StateModel, sender: Seq<char>) -> StateModel {
    let seat = seat_of(s.players, sender);
    let p = s.players[seat];
    let marked = if s.game_board.round == GameRound::Blind {
        PlayerModel { checked: true, ..p }
    } else {
        PlayerModel { checked2: true, ..p }
    };
    StateModel {
        players: s.players.update(
            seat,
            PlayerModel { last_action: Some(PlayerAction::Checked), ..marked },
        ),
        ..s
    }
}

/// The outcome of a check.
pub open spec fn check_spec(s: StateModel, sender: Seq<char>) -> Outcome {
    match check_refusal(s, sender) {
        Some(e) => Err(e),
        None => settle_after_move(check_placed(s, sender)),
    }
}

/// A player passes in the blind or the flop phase.
pub fn check(state: &mut State, env: &Env) -> (r: Result<Vec<Effect>, GameError>)
    requires
        old(state).wf(),
    ensures
        outcome_of(r, final(state)@) == check_spec(old(state)@, env.sender@),
        r is Err ==> *final(state) == *old(state),
        r is Ok ==> final(state).wf(),
{
    let ghost s0 = state@;
    proof {
        lemma_check_wf(s0, env.sender@);
    }
    if state.players.len() < 2 {
        return Err(GameError::NotInGame);
    }
    let i = match find_player(state, &env.sender) {
        Some(i) => i,
        None => {
            return Err(GameError::NotInGame);
        },
    };
    let round = state.game_board.round;
    if round != GameRound::Blind && round != GameRound::Flop {
        return Err(GameError::CantCheckIfNeedToMatch);
    }
    let staked = if round == GameRound::Blind {
        state.players[i].bet
    } else {
        state.players[i].bet2
    };
    if staked != 0 {
        return Err(GameError::CantCheckAfterBet);
    }
    if round == GameRound::Blind {
        state.players[i].checked = true;
    } else {
        state.players[i].checked2 = true;
    }
    state.players[i].last_action = Some(PlayerAction::Checked);
    proof {
        let placed = check_placed(s0, env.sender@);
        assert(state@.players =~= placed.players);
        lemma_total_bets_update(s0.players, i as int, placed.players[i as int]);
        lemma_total_chips_update(s0.players, i as int, placed.players[i as int]);
    }
    assert(state@ == check_placed(s0, env.sender@));
    proof {
        lemma_advance_frame(state@);
    }
    advance_turn_if_necessary(state);
    let effects = advance_to_next_turn_if_all_players_but_one_folded(state);
    Ok(effects)
}

/// The session after the fold of the player with this address has been
/// recorded, before the advancement rule: the player is out for the turn and
/// holds five fresh cards.
pub open spec fn fold_placed(s: StateModel, sender: Seq<char>) -> StateModel {
    let seat = seat_of(s.players, sender);
    StateModel {
        deck: remaining(s.deck, 5),
        players: s.players.update(
            seat,
            PlayerModel {
                folded: true,
                hand: drawn(s.deck, 5),
                last_action: Some(PlayerAction::Folded),
                ..s.players[seat]
            },
        ),
        ..s
    }
}

/// Why a fold is turned down, if it is. A player can always fold.
pub open spec fn fold_refusal(s: StateModel, sender: Seq<char>) -> Option<GameError> {
    if s.players.len() < 2 {
        Some(GameError::NotInGame)
    } else if !is_seated(s.players, sender) {
        Some(GameError::NotInGame)
    } else {
        None
    }
}

/// The outcome of a fold.
pub open spec fn fold_spec(s: StateModel, sender: Seq<char>) -> Outcome {
    match fold_refusal(s, sender) {
        Some(e) => Err(e),
        None => settle_after_move(fold_placed(s, sender)),
    }
}

/// A fold that is carried out finds five cards in the draw pile.
pub open spec fn fold_fits(s: StateModel, sender: Seq<char>) -> bool {
    s.players.len() >= 2 && is_seated(s.players, sender) ==> s.deck.len() >= 5
}

/// A player withdraws from the turn and draws a fresh hand for the next.
pub fn fold(state: &mut State, env: &Env) -> (r: Result<Vec<Effect>, GameError>)
    requires
        old(state).wf(),
        fold_fits(old(state)@, env.sender@),
    ensures
        outcome_of(r, final(state)@) == fold_spec(old(state)@, env.sender@),
        r is Err ==> *final(state) == *old(state),
        r is Ok ==> final(state).wf(),
{
    let ghost s0 = state@;
    proof {
        lemma_fold_wf(s0, env.sender@);
    }
    if state.players.len() < 2 {
        return Err(GameError::NotInGame);
    }
    let i = match find_player(state, &env.sender) {
        Some(i) => i,
        None => {
            return Err(GameError::NotInGame);
        },
    };
    state.players[i].folded = true;
    let hand = draw_cards(&mut state.deck, 5);
    state.players[i].hand = hand;
    state.players[i].last_action = Some(PlayerAction::Folded);
    proof {
        let placed = fold_placed(s0, env.sender@);
        assert(state@.players =~= placed.players);
        lemma_total_bets_update(s0.players, i as int, placed.players[i as int]);
        lemma_total_chips_update(s0.players, i as int, placed.players[i as int]);
    }
    assert(state@ == fold_placed(s0, env.sender@));
    proof {
        lemma_advance_frame(state@);
    }
    advance_turn_if_necessary(state);
    let effects = advance_to_next_turn_if_all_players_but_one_folded(state);
    Ok(effects)
}

} // verus!
