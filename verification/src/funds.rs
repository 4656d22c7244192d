//! No command makes money: what the session holds in pot and chips, together
//! with what it pays out, never exceeds what it held before, buying chips
//! aside.

use vstd::prelude::*;

use crate::contract::{command_fits, handle_spec, Effect, Env, HandleMsg, SecretDreamscapeNFT};
use crate::table::{join_spec, leave_spec};
use crate::turns::{next_turn_fits, next_turn_spec};
use crate::wagers::{bet_spec, check_spec, fold_fits, fold_spec, match_spec};
use crate::words::{put_fits, put_spec};
use crate::game_state::{
    active_count, is_seated, lemma_active_exists, lemma_chips_agree, lemma_total_chips_update,
    lemma_totals_push, lemma_totals_remove, seat_of, total_chips, Card, PlayerModel, StateModel,
};
use crate::rounds::{advance_spec, lemma_advance_frame};
use crate::settlement::{
    fold_out_spec, lemma_credit_all, lemma_winning_words, pay_spec, share_of, sole_active,
    winning_words,
};
use crate::table::{deal_hands, join_refusal, newcomer, seated, vacated};
use crate::turns::{next_turn_refusal, next_turn_started};
use crate::utils::cards::{lemma_draw_facts, remaining};
use crate::wagers::{
    bet_placed, bet_refusal, check_placed, check_refusal, fold_placed, fold_refusal,
    match_placed,
    match_refusal,
};
use crate::wellformed::{
    lemma_advance_wf, lemma_refill_table, lemma_seat_in_range, lemma_share_bounds,
};
use crate::words::{
    all_words_in, picked, put_applied, put_refusal, settle_words_spec, stamp_word_id, stamps_for,
    unstaked, winner_seats,
};

verus! {

/// What the session holds: the pot and the chips of all players.
pub open spec fn funds_of(s: StateModel) -> nat {
    s.game_board.pool as nat + total_chips(s.players)
}

/// What one effect pays out of the session.
pub open spec fn payment(effect: Effect) -> nat {
    match effect {
        Effect::Send { to_address, amount } => amount as nat,
        Effect::Jackpot(notice, funds) => funds as nat,
        Effect::Stamp(notice) => 0,
        Effect::Phonebook(notice) => 0,
    }
}

/// What a list of effects pays out of the session.
pub open spec fn paid_out(effects: Seq<Effect>) -> nat
    decreases effects.len(),
{
    if effects.len() == 0 {
        0
    } else {
        paid_out(effects.drop_last()) + payment(effects.last())
    }
}

/// Two lists of effects pay out what each pays out.
pub proof fn lemma_paid_out_add(a: Seq<Effect>, b: Seq<Effect>)
    ensures
        paid_out(a + b) == paid_out(a) + paid_out(b),
    decreases b.len(),
{
    if b.len() == 0 {
        assert(a + b =~= a);
    } else {
        assert((a + b).drop_last() =~= a + b.drop_last());
        assert((a + b).last() == b.last());
        lemma_paid_out_add(a, b.drop_last());
    }
}

/// Stamps pay nothing out.
pub proof fn lemma_stamps_pay_nothing(
    word: Seq<Card>,
    nfts: Seq<SecretDreamscapeNFT>,
    word_id: u16,
    callee: String,
)
    ensures
        paid_out(stamps_for(word, nfts, word_id, callee)) == 0,
    decreases word.len(),
{
    if word.len() > 0 {
        lemma_stamps_pay_nothing(word.drop_last(), nfts, word_id, callee);
        let rest = stamps_for(word.drop_last(), nfts, word_id, callee);
        let all = stamps_for(word, nfts, word_id, callee);
        if all.len() > rest.len() {
            assert(all.drop_last() =~= rest);
        }
    }
}

/// Paying the pot moves it to the winners and the jackpot, and loses at most
/// what the division leaves over.
pub proof fn lemma_pay_funds(s: StateModel, seats: Seq<int>)
    requires
        s.wf(),
        seats.len() > 0,
        forall|k: int| 0 <= k < seats.len() ==> 0 <= #[trigger] seats[k] < s.players.len(),
    ensures
        funds_of(pay_spec(s, seats).0) + paid_out(pay_spec(s, seats).1) <= funds_of(s),
{
    let board = s.game_board;
    if board.pool > 0 {
        let share = share_of(board.pool, board.rake_percentage, seats.len() as int);
        lemma_share_bounds(board.pool, board.rake_percentage, seats.len() as int);
        lemma_credit_all(s.players, seats, share);
        let effects = pay_spec(s, seats).1;
        assert(effects.drop_last() =~= Seq::<Effect>::empty());
        assert(paid_out(effects.drop_last()) == 0);
        assert(paid_out(effects) == payment(effects.last()));
    }
}

/// A move followed by both rules makes no money.
pub proof fn lemma_settle_funds(s: StateModel)
    requires
        s.wf(),
    ensures
        funds_of(fold_out_spec(advance_spec(s)).0) + paid_out(fold_out_spec(advance_spec(s)).1)
            <= funds_of(s),
{
    let moved = advance_spec(s);
    lemma_advance_frame(s);
    lemma_advance_wf(s);
    if active_count(moved.players) == 1 {
        lemma_active_exists(moved.players);
        let seats = seq![sole_active(moved.players)];
        assert(seats[0] == sole_active(moved.players));
        lemma_pay_funds(moved, seats);
    }
}

/// Settling the words makes no money.
pub proof fn lemma_settle_words_funds(s: StateModel, dict: Seq<Seq<u8>>)
    requires
        s.wf(),
        s.game_board.words.len() > 0,
        forall|k: int|
            0 <= k < winning_words(s.game_board.words, dict).len() ==> is_seated(
                s.players,
                (#[trigger] winning_words(s.game_board.words, dict)[k]).player_addr@,
            ),
    ensures
        funds_of(settle_words_spec(s, dict).0) + paid_out(settle_words_spec(s, dict).1)
            <= funds_of(s),
{
    let cleared = StateModel {
        players: Seq::new(s.players.len(), |i: int| unstaked(s.players[i])),
        ..s
    };
    let seats = winner_seats(s, dict);
    let winners = winning_words(s.game_board.words, dict);
    lemma_winning_words(s.game_board.words, dict);
    assert forall|k: int| 0 <= k < seats.len() implies 0 <= #[trigger] seats[k]
        < cleared.players.len() by {
        assert(is_seated(s.players, winners[k].player_addr@));
        lemma_seat_in_range(s.players, winners[k].player_addr@);
    }
    lemma_chips_agree(cleared.players, s.players);
    crate::wellformed::lemma_unstaked_wf(s);
    lemma_pay_funds(cleared, seats);
}

/// Dealing hands leaves the chips alone.
pub proof fn lemma_deal_chips(players: Seq<PlayerModel>, deck: Seq<Card>, upto: nat)
    requires
        upto <= players.len(),
    ensures
        deal_hands(players, deck, upto).0.len() == players.len(),
        forall|j: int|
            0 <= j < players.len() ==> (#[trigger] deal_hands(players, deck, upto).0[j]).chips
                == players[j].chips,
    decreases upto,
{
    if upto > 0 {
        lemma_deal_chips(players, deck, (upto - 1) as nat);
    }
}

/// Joining makes no money.
pub proof fn lemma_join_funds(
    s: StateModel,
    sender: String,
    secret: u64,
    password: Seq<char>,
    nfts: Seq<SecretDreamscapeNFT>,
    fresh: Seq<Card>,
)
    ensures
        join_spec(s, sender, secret, password, nfts, fresh) matches Ok(o) ==> funds_of(o.0)
            + paid_out(o.1) <= funds_of(s),
{
    if join_refusal(s, sender@, password) is None {
        let guest = newcomer(sender, secret, nfts);
        let sat = seated(s, sender, secret, nfts);
        lemma_totals_push(s.players, guest);
        if sat.players.len() >= 2 {
            let pile = if sat.players.len() == 2 {
                remaining(fresh, 5)
            } else {
                sat.deck
            };
            lemma_deal_chips(sat.players, pile, sat.players.len());
            lemma_chips_agree(deal_hands(sat.players, pile, sat.players.len()).0, sat.players);
        }
    }
}

/// A bet makes no money.
pub proof fn lemma_bet_funds(s: StateModel, sender: Seq<char>, amount: u64)
    requires
        s.wf(),
    ensures
        bet_spec(s, sender, amount) matches Ok(o) ==> funds_of(o.0) + paid_out(o.1) <= funds_of(s),
{
    if bet_refusal(s, sender, amount) is None {
        lemma_seat_in_range(s.players, sender);
        let seat = seat_of(s.players, sender);
        let placed = bet_placed(s, seat, amount);
        lemma_total_chips_update(s.players, seat, placed.players[seat]);
        lemma_advance_frame(placed);
    }
}

/// A match makes no money.
pub proof fn lemma_match_funds(s: StateModel, sender: Seq<char>, amount: u64)
    requires
        s.wf(),
    ensures
        match_spec(s, sender, amount) matches Ok(o) ==> funds_of(o.0) + paid_out(o.1) <= funds_of(
            s,
        ),
{
    if match_refusal(s, sender, amount) is None {
        lemma_seat_in_range(s.players, sender);
        let seat = seat_of(s.players, sender);
        let placed = match_placed(s, seat, amount);
        lemma_total_chips_update(s.players, seat, placed.players[seat]);
        lemma_advance_frame(placed);
    }
}

/// A fold makes no money.
pub proof fn lemma_fold_funds(s: StateModel, sender: Seq<char>)
    requires
        s.wf(),
        fold_fits(s, sender),
    ensures
        fold_spec(s, sender) matches Ok(o) ==> funds_of(o.0) + paid_out(o.1) <= funds_of(s),
{
    if fold_refusal(s, sender) is None {
        let placed = fold_placed(s, sender);
        crate::wellformed::lemma_fold_placed_wf(s, sender);
        lemma_seat_in_range(s.players, sender);
        let seat = seat_of(s.players, sender);
        lemma_total_chips_update(s.players, seat, placed.players[seat]);
        lemma_settle_funds(placed);
    }
}

/// A check makes no money.
pub proof fn lemma_check_funds(s: StateModel, sender: Seq<char>)
    requires
        s.wf(),
    ensures
        check_spec(s, sender) matches Ok(o) ==> funds_of(o.0) + paid_out(o.1) <= funds_of(s),
{
    if check_refusal(s, sender) is None {
        let placed = check_placed(s, sender);
        crate::wellformed::lemma_check_placed_wf(s, sender);
        lemma_seat_in_range(s.players, sender);
        let seat = seat_of(s.players, sender);
        lemma_total_chips_update(s.players, seat, placed.players[seat]);
        lemma_settle_funds(placed);
    }
}

/// Leaving makes no money: the chips that are sent back were the caller's.
pub proof fn lemma_leave_funds(s: StateModel, sender: String)
    requires
        s.wf(),
    ensures
        leave_spec(s, sender) matches Ok(o) ==> funds_of(o.0) + paid_out(o.1) <= funds_of(s),
{
    if is_seated(s.players, sender@) {
        let seat = seat_of(s.players, sender@);
        let left = vacated(s, sender@);
        crate::wellformed::lemma_vacated_wf(s, sender@);
        lemma_settle_funds(left);
        lemma_seat_in_range(s.players, sender@);
        lemma_totals_remove(s.players, seat);
        let settled = fold_out_spec(advance_spec(left));
        let refund = Effect::Send { to_address: sender, amount: s.players[seat].chips };
        assert(settled.1.push(refund).drop_last() =~= settled.1);
    }
}

/// Laying down a word makes no money.
pub proof fn lemma_put_funds(
    s: StateModel,
    sender: String,
    indexes: Seq<u8>,
    opened: bool,
    dict: Seq<Seq<u8>>,
)
    requires
        s.wf(),
        put_fits(s, sender@, indexes, dict),
    ensures
        put_spec(s, sender, indexes, opened, dict) matches Ok(o) ==> funds_of(o.0) + paid_out(o.1)
            <= funds_of(s),
{
    if put_refusal(s, sender@, indexes) is None {
        lemma_seat_in_range(s.players, sender@);
        let seat = seat_of(s.players, sender@);
        let p = s.players[seat];
        let placed = put_applied(s, seat, indexes, opened);
        let word = picked(p.hand, s.game_board.river, indexes);
        let stamps = stamps_for(word, p.nfts, stamp_word_id(dict), sender);
        lemma_stamps_pay_nothing(word, p.nfts, stamp_word_id(dict), sender);
        lemma_total_chips_update(s.players, seat, placed.players[seat]);
        crate::wellformed::lemma_put_applied_wf(s, sender, indexes, opened, dict);
        if all_words_in(placed) {
            lemma_settle_words_funds(placed, dict);
            lemma_paid_out_add(stamps, settle_words_spec(placed, dict).1);
        }
    }
}

/// Starting the next turn makes no money.
pub proof fn lemma_next_turn_funds(s: StateModel, sender: Seq<char>)
    requires
        s.wf(),
        next_turn_fits(s, sender),
    ensures
        next_turn_spec(s, sender) matches Ok(o) ==> funds_of(o.0) + paid_out(o.1) <= funds_of(s),
{
    if next_turn_refusal(s, sender) is None {
        let after = next_turn_started(s);
        lemma_draw_facts(s.deck, 5);
        assert(s.players.take(s.players.len() as int) =~= s.players);
        assert forall|i: int| 0 <= i < s.players.len() implies crate::game_state::cards_valid(
            (#[trigger] s.players[i]).hand,
        ) && s.players[i].hand.len() <= 5 by {
            assert(s.players[i].hand_ok(s.game_board.words));
        }
        lemma_refill_table(s.players, remaining(s.deck, 5), s.players.len());
        lemma_chips_agree(after.players, s.players);
    }
}

/// No command makes money.
///
/// Whatever command but the purchase of chips is carried out on a well-formed
/// session, the pot and the chips afterwards, together with what the effects
/// pay out, are no more than the pot and the chips before.
pub proof fn law_no_money_is_made(
    s: StateModel,
    env: Env,
    msg: HandleMsg,
    dict: Seq<Seq<u8>>,
    fresh: Seq<Card>,
)
    requires
        s.wf(),
        command_fits(s, env, msg, dict),
        !(msg is BuyChips),
    ensures
        handle_spec(s, env, msg, dict, fresh) matches Ok(o) ==> funds_of(o.0) + paid_out(o.1)
            <= funds_of(s),
{
    if s.winner is None {
        match msg {
            HandleMsg::Join { secret, password, nfts } => {
                lemma_join_funds(s, env.sender, secret, password@, nfts@, fresh);
            },
            HandleMsg::BuyChips {  } => {},
            HandleMsg::Bet { amount } => {
                lemma_bet_funds(s, env.sender@, amount);
            },
            HandleMsg::Match { amount } => {
                lemma_match_funds(s, env.sender@, amount);
            },
            HandleMsg::Fold {  } => {
                lemma_fold_funds(s, env.sender@);
            },
            HandleMsg::Check {  } => {
                lemma_check_funds(s, env.sender@);
            },
            HandleMsg::Leave {  } => {
                lemma_leave_funds(s, env.sender);
            },
            HandleMsg::PutDownCard { indexes, opened_dictionary } => {
                lemma_put_funds(s, env.sender, indexes@, opened_dictionary, dict);
            },
            HandleMsg::RequestNextTurn {  } => {
                lemma_next_turn_funds(s, env.sender@);
            },
        }
    }
}

} // verus!
