//! Commands, their effects, and the reasons a command is turned down with.

use vstd::prelude::*;

use crate::constants::{
    ALREADY_IN_GAME, ALREADY_PUT_DOWN, BET_TOO_SMALL, BUY_OUT_OF_RANGE, BUY_OVER_MAX,
    CANT_BET_IF_FOLDED, CANT_BET_NOW, CANT_CHECK_AFTER_BET, CANT_MATCH_NOW, CANT_CHECK_IF_NEED_TO_MATCH,
    CANT_PUT_CARD_AT_THE_MOMENT, CANT_PUT_CARD_IF_FOLDED, CANT_USE_CARD_TWICE, GAME_FULL,
    GAME_OVER, NOT_ENOUGH_CHIPS, NOT_IN_GAME, NOT_IN_YOUR_HAND, NO_NEXT_TURN, ONLY_SCRT,
    WAITING_FOR_PLAYERS, WRONG_MATCHING_AMOUNT, WRONG_PASSWORD,
};
use crate::game_state::{BoardModel, Card, GameBoard, GameRound, State, StateModel};
use crate::table::{
    buy_chips, buy_fits, buy_spec, dealt_from, join, join_fits, join_spec, leave, leave_spec,
};
use crate::turns::{next_turn_fits, next_turn_spec, request_next_turn};
use crate::utils::cards::Dictionary;
use crate::wagers::{
    bet, bet_fits, bet_spec, check, check_spec, fold, fold_fits, fold_spec, match_bet,
    match_fits, match_spec, outcome_of, Outcome,
};
use crate::words::{put_down_card, put_fits, put_spec};

verus! {

/// What a new session is set up with.
#[derive(Debug)]
pub struct InitMsg {
    pub bg: u64,
    pub password: Option<String>,
    pub label: String,
    pub stamp_addr: String,
    pub stamp_hash: String,
    pub callback_addr: String,
    pub callback_hash: String,
    pub min_buy: u64,
    pub max_buy: u64,
    pub jackpot_addr: String,
    pub jackpot_hash: String,
}

/// The notice that tells the directory of sessions about a new one.
#[derive(Debug)]
pub enum PhonebookHandleMsg {
    RegisteredCallback { address: String, private: bool, label: String, referrer: String },
}

/// A collectible that a player brings to the table: a letter, plain or gold.
#[derive(Debug)]
pub struct SecretDreamscapeNFT {
    pub id: String,
    pub letter: String,
    pub gold: bool,
}

impl Clone for SecretDreamscapeNFT {
    fn clone(&self) -> (r: Self)
        ensures
            r == *self,
    {
        SecretDreamscapeNFT { id: self.id.clone(), letter: self.letter.clone(), gold: self.gold }
    }
}

/// The notice that hands the rake to the jackpot.
#[derive(Clone, Copy, Debug, PartialEq, Eq, Structural)]
pub enum SecretDreamscapeJackpot {
    Fund {  },
}

/// A command of a player.
#[derive(Debug)]
pub enum HandleMsg {
    Join { secret: u64, password: String, nfts: Vec<SecretDreamscapeNFT> },
    BuyChips {  },
    Bet { amount: u64 },
    Match { amount: u64 },
    Fold {  },
    Check {  },
    Leave {  },
    PutDownCard { indexes: Vec<u8>, opened_dictionary: bool },
    RequestNextTurn {  },
}

/// The notice that marks a collectible as used in a word.
#[derive(Debug)]
pub enum StampHandleMsg {
    Stamp { nft_id: String, word_id: u16, callee: String },
}

/// An amount of one currency that came with a command.
#[derive(Debug)]
pub struct Coin {
    pub denom: String,
    pub amount: u128,
}

/// What the host tells the engine about a call: who makes it, when, with
/// which funds, and the address of the session itself.
#[derive(Debug)]
pub struct Env {
    pub sender: String,
    pub block_time: u64,
    pub contract_address: String,
    pub sent_funds: Vec<Coin>,
}

/// Something the host has to carry out once the session is committed.
#[derive(Debug)]
pub enum Effect {
    /// Transfer `amount` of the native currency from the session to `to_address`.
    Send { to_address: String, amount: u64 },
    /// Notify the jackpot, with that much of the native currency attached.
    Jackpot(SecretDreamscapeJackpot, u64),
    /// Notify the stamp service.
    Stamp(StampHandleMsg),
    /// Notify the directory of sessions.
    Phonebook(PhonebookHandleMsg),
}

/// Why a command or a query was turned down.
#[derive(Clone, Copy, Debug, PartialEq, Eq, Structural)]
pub enum GameError {
    GameOver,
    WrongPassword,
    GameFull,
    AlreadyInGame,
    NotInGame,
    OnlyScrt,
    BuyOutOfRange,
    BuyOverMax,
    CantPutCardAtTheMoment,
    CantPutCardIfFolded,
    AlreadyPutDown,
    CantUseCardTwice,
    NotInYourHand,
    CantBetIfFolded,
    BetTooSmall,
    NotEnoughChips,
    CantBetNow,
    CantMatchNow,
    NoNextTurn,
    WrongMatchingAmount,
    CantCheckIfNeedToMatch,
    CantCheckAfterBet,
    WaitingForPlayers,
}

impl GameError {
    /// The reason in words, as the caller reads it.
    pub open spec fn text(self) -> &'static str {
        match self {
            GameError::GameOver => GAME_OVER,
            GameError::WrongPassword => WRONG_PASSWORD,
            GameError::GameFull => GAME_FULL,
            GameError::AlreadyInGame => ALREADY_IN_GAME,
            GameError::NotInGame => NOT_IN_GAME,
            GameError::OnlyScrt => ONLY_SCRT,
            GameError::BuyOutOfRange => BUY_OUT_OF_RANGE,
            GameError::BuyOverMax => BUY_OVER_MAX,
            GameError::CantPutCardAtTheMoment => CANT_PUT_CARD_AT_THE_MOMENT,
            GameError::CantPutCardIfFolded => CANT_PUT_CARD_IF_FOLDED,
            GameError::AlreadyPutDown => ALREADY_PUT_DOWN,
            GameError::CantUseCardTwice => CANT_USE_CARD_TWICE,
            GameError::NotInYourHand => NOT_IN_YOUR_HAND,
            GameError::CantBetIfFolded => CANT_BET_IF_FOLDED,
            GameError::BetTooSmall => BET_TOO_SMALL,
            GameError::NotEnoughChips => NOT_ENOUGH_CHIPS,
            GameError::CantBetNow => CANT_BET_NOW,
            GameError::CantMatchNow => CANT_MATCH_NOW,
            GameError::NoNextTurn => NO_NEXT_TURN,
            GameError::WrongMatchingAmount => WRONG_MATCHING_AMOUNT,
            GameError::CantCheckIfNeedToMatch => CANT_CHECK_IF_NEED_TO_MATCH,
            GameError::CantCheckAfterBet => CANT_CHECK_AFTER_BET,
            GameError::WaitingForPlayers => WAITING_FOR_PLAYERS,
        }
    }

    /// The reason in words, as the caller reads it.
    pub fn message(&self) -> (text: &'static str)
        ensures
            text == self.text(),
    {
        match self {
            GameError::GameOver => GAME_OVER,
            GameError::WrongPassword => WRONG_PASSWORD,
            GameError::GameFull => GAME_FULL,
            GameError::AlreadyInGame => ALREADY_IN_GAME,
            GameError::NotInGame => NOT_IN_GAME,
            GameError::OnlyScrt => ONLY_SCRT,
            GameError::BuyOutOfRange => BUY_OUT_OF_RANGE,
            GameError::BuyOverMax => BUY_OVER_MAX,
            GameError::CantPutCardAtTheMoment => CANT_PUT_CARD_AT_THE_MOMENT,
            GameError::CantPutCardIfFolded => CANT_PUT_CARD_IF_FOLDED,
            GameError::AlreadyPutDown => ALREADY_PUT_DOWN,
            GameError::CantUseCardTwice => CANT_USE_CARD_TWICE,
            GameError::NotInYourHand => NOT_IN_YOUR_HAND,
            GameError::CantBetIfFolded => CANT_BET_IF_FOLDED,
            GameError::BetTooSmall => BET_TOO_SMALL,
            GameError::NotEnoughChips => NOT_ENOUGH_CHIPS,
            GameError::CantBetNow => CANT_BET_NOW,
            GameError::CantMatchNow => CANT_MATCH_NOW,
            GameError::NoNextTurn => NO_NEXT_TURN,
            GameError::WrongMatchingAmount => WRONG_MATCHING_AMOUNT,
            GameError::CantCheckIfNeedToMatch => CANT_CHECK_IF_NEED_TO_MATCH,
            GameError::CantCheckAfterBet => CANT_CHECK_AFTER_BET,
            GameError::WaitingForPlayers => WAITING_FOR_PLAYERS,
        }
    }
}

/// The session that a setup message describes, before anybody has joined.
pub open spec fn init_state(env: Env, msg: InitMsg) -> StateModel {
    StateModel {
        can_join: true,
        deck: Seq::empty(),
        game_board: BoardModel {
            pool: 0,
            rake_percentage: 10,
            river: Seq::empty(),
            round: GameRound::NotStarted,
            turn: 0,
            winner_for_turn: None,
            words: Seq::empty(),
        },
        jackpot_addr: msg.jackpot_addr,
        jackpot_hash: msg.jackpot_hash,
        level_design: msg.bg,
        max_buy: msg.max_buy,
        min_buy: msg.min_buy,
        password: msg.password,
        players: Seq::empty(),
        stamp_addr: msg.stamp_addr,
        stamp_hash: msg.stamp_hash,
        started_time: env.block_time,
        winner: None,
    }
}

/// The notice that a new session sends to the directory of sessions.
pub open spec fn init_notice(env: Env, msg: InitMsg) -> Effect {
    Effect::Phonebook(
        PhonebookHandleMsg::RegisteredCallback {
            address: env.contract_address,
            private: msg.password is Some,
            label: msg.label,
            referrer: msg.callback_hash,
        },
    )
}

/// Sets up a session: empty, not started, with a rake of ten percent, and
/// with one notice for the directory of sessions.
pub fn init(env: &Env, msg: InitMsg) -> (r: (State, Vec<Effect>))
    ensures
        r.0@ == init_state(*env, msg),
        r.0.wf(),
        r.1@ == seq![init_notice(*env, msg)],
{
    let private = msg.password.is_some();
    let notice = Effect::Phonebook(
        PhonebookHandleMsg::RegisteredCallback {
            address: env.contract_address.clone(),
            private,
            label: msg.label,
            referrer: msg.callback_hash,
        },
    );
    let state = State {
        players: Vec::new(),
        winner: None,
        game_board: GameBoard {
            round: GameRound::NotStarted,
            winner_for_turn: None,
            words: Vec::new(),
            river: Vec::new(),
            pool: 0,
            turn: 0,
            rake_percentage: 10,
        },
        deck: Vec::new(),
        can_join: true,
        started_time: env.block_time,
        level_design: msg.bg,
        password: msg.password,
        stamp_hash: msg.stamp_hash,
        stamp_addr: msg.stamp_addr,
        min_buy: msg.min_buy,
        max_buy: msg.max_buy,
        jackpot_addr: msg.jackpot_addr,
        jackpot_hash: msg.jackpot_hash,
    };
    assert(state@.players =~= Seq::empty());
    assert(state@.game_board.words =~= Seq::empty());
    assert(state@ == init_state(*env, msg));
    let mut effects: Vec<Effect> = Vec::new();
    effects.push(notice);
    assert(effects@ =~= seq![init_notice(*env, msg)]);
    (state, effects)
}

/// The command stays within what the engine can count and deal: see the
/// condition of each command.
pub open spec fn command_fits(s: StateModel, env: Env, msg: HandleMsg, dict: Seq<Seq<u8>>) -> bool {
    s.winner is None ==> match msg {
        HandleMsg::Join { secret, password, nfts } => join_fits(s, env.sender@, password@),
        HandleMsg::BuyChips {  } => buy_fits(s, env.sender@, env.sent_funds@),
        HandleMsg::Bet { amount } => bet_fits(s, env.sender@, amount),
        HandleMsg::Match { amount } => match_fits(s, env.sender@, amount),
        HandleMsg::Fold {  } => fold_fits(s, env.sender@),
        HandleMsg::Check {  } => true,
        HandleMsg::Leave {  } => true,
        HandleMsg::PutDownCard { indexes, opened_dictionary } => put_fits(
            s,
            env.sender@,
            indexes@,
            dict,
        ),
        HandleMsg::RequestNextTurn {  } => next_turn_fits(s, env.sender@),
    }
}

/// The outcome of a command. A session that has a winner turns every command
/// down. `fresh` is the shuffled deck that joining opens the session with; no
/// other command looks at it.
pub open spec fn handle_spec(
    s: StateModel,
    env: Env,
    msg: HandleMsg,
    dict: Seq<Seq<u8>>,
    fresh: Seq<Card>,
) -> Outcome {
    if s.winner is Some {
        Err(GameError::GameOver)
    } else {
        match msg {
            HandleMsg::Join { secret, password, nfts } => join_spec(
                s,
                env.sender,
                secret,
                password@,
                nfts@,
                fresh,
            ),
            HandleMsg::BuyChips {  } => buy_spec(s, env.sender@, env.sent_funds@),
            HandleMsg::Bet { amount } => bet_spec(s, env.sender@, amount),
            HandleMsg::Match { amount } => match_spec(s, env.sender@, amount),
            HandleMsg::Fold {  } => fold_spec(s, env.sender@),
            HandleMsg::Check {  } => check_spec(s, env.sender@),
            HandleMsg::Leave {  } => leave_spec(s, env.sender),
            HandleMsg::PutDownCard { indexes, opened_dictionary } => put_spec(
                s,
                env.sender,
                indexes@,
                opened_dictionary,
                dict,
            ),
            HandleMsg::RequestNextTurn {  } => next_turn_spec(s, env.sender@),
        }
    }
}

/// The deck is the one that the command deals from: where the command is a
/// join that opens the session, it is the opening deck of the session.
pub open spec fn deck_fits(s: StateModel, env: Env, msg: HandleMsg, fresh: Seq<Card>) -> bool {
    match msg {
        HandleMsg::Join { secret, password, nfts } => dealt_from(
            s,
            env.sender,
            secret,
            nfts@,
            env.block_time,
            fresh,
        ),
        _ => true,
    }
}

/// Carries out one command on the session.
///
/// A command that is turned down leaves the session as it was. A command
/// that is carried out leaves a well-formed session and the effects for the
/// host.
pub fn handle(state: &mut State, env: &Env, msg: HandleMsg, dict: &Dictionary) -> (r: Result<
    Vec<Effect>,
    GameError,
>)
    requires
        old(state).wf(),
        command_fits(old(state)@, *env, msg, dict@),
    ensures
        r matches Err(e) ==> *final(state) == *old(state) && forall|fresh: Seq<Card>|
            #[trigger] handle_spec(old(state)@, *env, msg, dict@, fresh) == Err::<
                (StateModel, Seq<Effect>),
                GameError,
            >(e),
        r is Ok ==> final(state).wf() && exists|fresh: Seq<Card>|
            deck_fits(old(state)@, *env, msg, fresh) && outcome_of(r, final(state)@) == handle_spec(
                old(state)@,
                *env,
                msg,
                dict@,
                fresh,
            ),
{
    let ghost s0 = state@;
    let ghost none = Seq::<Card>::empty();
    if state.winner.is_some() {
        return Err(GameError::GameOver);
    }
    match msg {
        HandleMsg::Join { secret, password, nfts } => {
            let ghost pw = password@;
            let ghost held = nfts@;
            let r = join(state, env, secret, password, nfts);
            proof {
                if r is Ok {
                    let fresh = choose|fresh: Seq<Card>|
                        dealt_from(s0, env.sender, secret, held, env.block_time, fresh)
                            && outcome_of(r, state@) == join_spec(
                            s0,
                            env.sender,
                            secret,
                            pw,
                            held,
                            fresh,
                        );
                    assert(deck_fits(s0, *env, msg, fresh) && outcome_of(r, state@) == handle_spec(
                        s0,
                        *env,
                        msg,
                        dict@,
                        fresh,
                    ));
                }
            }
            r
        },
        HandleMsg::BuyChips {  } => {
            let r = buy_chips(state, env);
            proof {
                assert(r is Ok ==> deck_fits(s0, *env, msg, none) && outcome_of(r, state@)
                    == handle_spec(s0, *env, msg, dict@, none));
            }
            r
        },
        HandleMsg::Bet { amount } => {
            let r = bet(state, env, amount);
            proof {
                assert(r is Ok ==> deck_fits(s0, *env, msg, none) && outcome_of(r, state@)
                    == handle_spec(s0, *env, msg, dict@, none));
            }
            r
        },
        HandleMsg::Match { amount } => {
            let r = match_bet(state, env, amount);
            proof {
                assert(r is Ok ==> deck_fits(s0, *env, msg, none) && outcome_of(r, state@)
                    == handle_spec(s0, *env, msg, dict@, none));
            }
            r
        },
        HandleMsg::Fold {  } => {
            let r = fold(state, env);
            proof {
                assert(r is Ok ==> deck_fits(s0, *env, msg, none) && outcome_of(r, state@)
                    == handle_spec(s0, *env, msg, dict@, none));
            }
            r
        },
        HandleMsg::Check {  } => {
            let r = check(state, env);
            proof {
                assert(r is Ok ==> deck_fits(s0, *env, msg, none) && outcome_of(r, state@)
                    == handle_spec(s0, *env, msg, dict@, none));
            }
            r
        },
        HandleMsg::Leave {  } => {
            let r = leave(state, env);
            proof {
                assert(deck_fits(s0, *env, msg, none) && outcome_of(r, state@) == handle_spec(
                    s0,
                    *env,
                    msg,
                    dict@,
                    none,
                ));
            }
            r
        },
        HandleMsg::PutDownCard { indexes, opened_dictionary } => {
            let ghost chosen = indexes@;
            let r = put_down_card(state, env, indexes, opened_dictionary, dict);
            proof {
                assert(r is Ok ==> deck_fits(s0, *env, msg, none) && outcome_of(r, state@)
                    == handle_spec(s0, *env, msg, dict@, none));
            }
            r
        },
        HandleMsg::RequestNextTurn {  } => {
            let r = request_next_turn(state, env);
            proof {
                assert(r is Ok ==> deck_fits(s0, *env, msg, none) && outcome_of(r, state@)
                    == handle_spec(s0, *env, msg, dict@, none));
            }
            r
        },
    }
}

} // verus!
