//! The reasons a command or a query is turned down with.

use vstd::prelude::*;

verus! {

pub const NOT_IN_GAME: &'static str = "You are not in the game";

pub const NO_NEXT_TURN: &'static str = "You can't advance to the next turn yet";

pub const GAME_FULL: &'static str = "Game is full.";

pub const WAITING_FOR_PLAYERS: &'static str = "Still waiting for players.";

pub const NOT_IN_YOUR_HAND: &'static str = "You cannot place a card that's not in your hand";

pub const CANT_PUT_CARD_AT_THE_MOMENT: &'static str = "You can't put a card down at the moment";

pub const ALREADY_PUT_DOWN: &'static str =
    "You already put down a card for this turn. Please wait for your opponent";

pub const CANT_USE_CARD_TWICE: &'static str = "You can't use the same card more than once";

pub const ALREADY_IN_GAME: &'static str = "You're already in the game and can't join again.";

pub const WRONG_MATCHING_AMOUNT: &'static str = "You've sent the wrong bet amount.";

pub const CANT_BET_IF_FOLDED: &'static str = "You can't bet if you're folded.";

pub const CANT_PUT_CARD_IF_FOLDED: &'static str = "You can't put down a card if you're folded.";

pub const WRONG_PASSWORD: &'static str = "Wrong room password.";

pub const CANT_CHECK_IF_NEED_TO_MATCH: &'static str =
    "You can't check if you're in the matching round.";

pub const CANT_CHECK_AFTER_BET: &'static str = "You can't check after betting in this round.";

pub const GAME_OVER: &'static str = "Game is over";

pub const ONLY_SCRT: &'static str = "You can only send SCRT to this function";

pub const BUY_OUT_OF_RANGE: &'static str =
    "You didn't send enough SCRT to this function or you sent too much";

pub const BUY_OVER_MAX: &'static str = "You can't buy more chips than the maximum amount";

pub const BET_TOO_SMALL: &'static str = "Less than  0.125scrt";

pub const NOT_ENOUGH_CHIPS: &'static str = "Not enough chips";

pub const CANT_BET_NOW: &'static str = "You can't bet anything now";

pub const CANT_MATCH_NOW: &'static str = "You can't match a bet at the moment";

/// The smallest bet, and the chip balance below which a player sits a turn out.
pub const MIN_BET: u64 = 125_000;

} // verus!
