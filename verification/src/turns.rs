//! The step from a settled turn to the next one.

use vstd::prelude::*;

use crate::constants::MIN_BET;
use crate::contract::{Effect, Env, GameError};
use crate::game_state::{
    find_player, is_seated, BoardModel, Card, GameRound, PlayerAction, PlayerModel, State,
    StateModel,
};
use crate::utils::cards::{draw_cards, drawn, lemma_draw_facts, remaining};
use crate::wagers::{outcome_of, Outcome};

verus! {

/// Why the next turn is not started, if so. Only a player may ask, and only
/// once the turn has a winner.
pub open spec fn next_turn_refusal(s: StateModel, sender: Seq<char>) -> Option<GameError> {
    if s.players.len() < 2 {
        Some(GameError::NotInGame)
    } else if !is_seated(s.players, sender) {
        Some(GameError::NotInGame)
    } else if s.game_board.winner_for_turn is None {
        Some(GameError::NoNextTurn)
    } else {
        None
    }
}

/// A player at the start of a turn, holding `hand`: without wager, check or
/// recorded action, and folded from the start where the chips do not reach
/// the smallest bet.
pub open spec fn refreshed(p: PlayerModel, hand: Seq<Card>) -> PlayerModel {
    let out = p.chips < MIN_BET;
    PlayerModel {
        bet: 0,
        bet2: 0,
        folded: out,
        last_action: if out {
            Some(PlayerAction::Folded)
        } else {
            None
        },
        checked: false,
        checked2: false,
        opened_dictionary: false,
        hand,
        ..p
    }
}

/// The players and the pile after the first `upto` seats have been readied
/// for the turn: in seat order, every player is refreshed and draws up to
/// five cards.
pub open spec fn refill_all(players: Seq<PlayerModel>, deck: Seq<Card>, upto: nat) -> (
    Seq<PlayerModel>,
    Seq<Card>,
)
    decreases upto,
{
    if upto == 0 {
        (players, deck)
    } else {
        let served = refill_all(players, deck, (upto - 1) as nat);
        let i = upto - 1;
        let p = served.0[i];
        if p.hand.len() < 5 {
            let need = (5 - p.hand.len()) as nat;
            (
                served.0.update(i, refreshed(p, p.hand + drawn(served.1, need))),
                remaining(served.1, need),
            )
        } else {
            (served.0.update(i, refreshed(p, p.hand)), served.1)
        }
    }
}

/// The session at the start of the next turn: the counter is one higher, the
/// turn has no winner and no words, the pot is empty, a new river lies on the
/// table, the blind phase begins, and every player is readied.
pub open spec fn next_turn_started(s: StateModel) -> StateModel {
    let served = refill_all(s.players, remaining(s.deck, 5), s.players.len());
    StateModel {
        game_board: BoardModel {
            turn: (s.game_board.turn + 1) as u8,
            winner_for_turn: None,
            words: Seq::empty(),
            river: drawn(s.deck, 5),
            round: GameRound::Blind,
            pool: 0,
            ..s.game_board
        },
        players: served.0,
        deck: served.1,
        ..s
    }
}

/// The outcome of asking for the next turn.
pub open spec fn next_turn_spec(s: StateModel, sender: Seq<char>) -> Outcome {
    match next_turn_refusal(s, sender) {
        Some(e) => Err(e),
        None => Ok((next_turn_started(s), Seq::empty())),
    }
}

/// How many cards the players of the list lack to hold five each.
pub open spec fn missing_cards(players: Seq<PlayerModel>) -> nat
    decreases players.len(),
{
    if players.len() == 0 {
        0
    } else {
        missing_cards(players.drop_last()) + if players.last().hand.len() < 5 {
            (5 - players.last().hand.len()) as nat
        } else {
            0nat
        }
    }
}

/// A next turn that is started finds room in the turn counter, and in the
/// draw pile five cards for the river and every card that a hand lacks.
pub open spec fn next_turn_fits(s: StateModel, sender: Seq<char>) -> bool {
    next_turn_refusal(s, sender) is None ==> s.game_board.turn < 255 && s.deck.len() >= 5
        + missing_cards(s.players)
}

/// The cards that a prefix of the players lacks are among those that all lack.
pub proof fn lemma_missing_prefix(players: Seq<PlayerModel>, k: int)
    requires
        0 <= k <= players.len(),
    ensures
        missing_cards(players.take(k)) <= missing_cards(players),
    decreases players.len(),
{
    if players.len() == 0 || k == players.len() {
        assert(players.take(k) =~= players);
    } else {
        assert(players.drop_last().take(k) =~= players.take(k));
        lemma_missing_prefix(players.drop_last(), k);
    }
}

/// Readying the first `upto` seats leaves the other seats alone and takes
/// from the pile exactly the cards that the readied hands lacked.
pub proof fn lemma_refill_all(players: Seq<PlayerModel>, deck: Seq<Card>, upto: nat)
    requires
        upto <= players.len(),
        deck.len() >= missing_cards(players.take(upto as int)),
    ensures
        refill_all(players, deck, upto).0.len() == players.len(),
        refill_all(players, deck, upto).1.len() == deck.len() - missing_cards(
            players.take(upto as int),
        ),
        forall|j: int|
            upto <= j < players.len() ==> (#[trigger] refill_all(players, deck, upto).0[j])
                == players[j],
        forall|j: int|
            0 <= j < upto ==> (#[trigger] refill_all(players, deck, upto).0[j]) == refreshed(
                players[j],
                refill_all(players, deck, upto).0[j].hand,
            ),
        forall|j: int|
            0 <= j < upto ==> (#[trigger] refill_all(players, deck, upto).0[j]).hand.len() == (
            if players[j].hand.len() < 5 {
                5
            } else {
                players[j].hand.len()
            }),
    decreases upto,
{
    if upto > 0 {
        let i = upto - 1;
        assert(players.take(upto as int).drop_last() =~= players.take(i));
        assert(players.take(upto as int).last() == players[i]);
        lemma_refill_all(players, deck, i as nat);
        let served = refill_all(players, deck, i as nat);
        assert(served.0[i] == players[i]);
        if players[i].hand.len() < 5 {
            lemma_draw_facts(served.1, (5 - players[i].hand.len()) as nat);
        }
    }
}

/// Starts the next turn once the current one has a winner.
pub fn request_next_turn(state: &mut State, env: &Env) -> (r: Result<Vec<Effect>, GameError>)
    requires
        old(state).wf(),
        next_turn_fits(old(state)@, env.sender@),
    ensures
        outcome_of(r, final(state)@) == next_turn_spec(old(state)@, env.sender@),
        r is Err ==> *final(state) == *old(state),
        r is Ok ==> final(state).wf(),
{
    let ghost s0 = state@;
    proof {
        crate::wellformed::lemma_next_turn_wf(s0, env.sender@);
    }
    if state.players.len() < 2 {
        return Err(GameError::NotInGame);
    }
    if find_player(state, &env.sender).is_none() {
        return Err(GameError::NotInGame);
    }
    if state.game_board.winner_for_turn.is_none() {
        return Err(GameError::NoNextTurn);
    }
    state.game_board.turn += 1;
    state.game_board.winner_for_turn = None;
    state.game_board.words = Vec::new();
    let river = draw_cards(&mut state.deck, 5);
    state.game_board.river = river;
    state.game_board.round = GameRound::Blind;
    state.game_board.pool = 0;
    let ghost pile = remaining(s0.deck, 5);
    let ghost board = state@.game_board;
    let n = state.players.len();
    let mut i: usize = 0;
    proof {
        lemma_draw_facts(s0.deck, 5);
        assert(board.words =~= Seq::empty());
        assert(s0.players.take(n as int) =~= s0.players);
    }
    while i < n
        invariant
            i <= n,
            n == s0.players.len(),
            n == state.players.len(),
            pile.len() >= missing_cards(s0.players),
            (state@.players, state@.deck) == refill_all(s0.players, pile, i as nat),
            state@ == (StateModel {
                players: state@.players,
                deck: state@.deck,
                game_board: board,
                ..s0
            }),
        decreases n - i,
    {
        proof {
            lemma_missing_prefix(s0.players, i as int);
            lemma_missing_prefix(s0.players, i + 1);
            lemma_refill_all(s0.players, pile, i as nat);
            assert(s0.players.take(i + 1).drop_last() =~= s0.players.take(i as int));
            assert(s0.players.take(i + 1).last() == s0.players[i as int]);
        }
        let ghost prev = state@.players;
        let ghost p = prev[i as int];
        state.players[i].bet = 0;
        state.players[i].bet2 = 0;
        if state.players[i].chips < MIN_BET {
            state.players[i].folded = true;
            state.players[i].last_action = Some(PlayerAction::Folded);
        } else {
            state.players[i].folded = false;
            state.players[i].last_action = None;
        }
        state.players[i].checked = false;
        state.players[i].checked2 = false;
        state.players[i].opened_dictionary = false;
        let held = state.players[i].hand.len();
        if held < 5 {
            let count: u8 = 5 - held as u8;
            let mut extra = draw_cards(&mut state.deck, count);
            state.players[i].hand.append(&mut extra);
        }
        proof {
            assert(state@.players =~= prev.update(
                i as int,
                refreshed(p, state@.players[i as int].hand),
            ));
        }
        i += 1;
    }
    Ok(Vec::new())
}

} // verus!
