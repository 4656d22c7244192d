//! Every transition keeps a well-formed session well formed.

use vstd::prelude::*;

use crate::contract::{Coin, SecretDreamscapeNFT};
use crate::game_state::{
    active_count, cards_valid, has_word, is_seated, lemma_active_exists, lemma_bets_agree,
    lemma_chips_agree, lemma_no_bets, lemma_total_bets_update, lemma_total_chips_update,
    lemma_totals_agree, lemma_totals_push, lemma_totals_remove, seat_of, total_bets,
    total_chips, Card, GameRound, PlayerModel, StateModel,
};
use crate::rounds::{advance_spec, lemma_advance_frame, lemma_highest_bet_bounds};
use crate::settlement::{
    credit_all, fold_out_spec, lemma_credit_all, lemma_winning_words, pay_spec, rake_of,
    share_of, sole_active, winning_words,
};
use crate::table::{
    buy_fits, buy_refusal, buy_spec, deal_hands, deal_spec, empty_hands, join_fits,
    join_refusal, join_spec, leave_spec, lemma_deal_hands, vacated, lemma_empty_hands_bound,
    lemma_empty_hands_push, newcomer, opens_with, seated,
};
use crate::turns::{
    lemma_refill_all, missing_cards, next_turn_fits, next_turn_refusal, next_turn_spec,
    next_turn_started, refill_all,
};
use crate::utils::cards::{drawn, lemma_draw_facts, remaining};
use crate::wagers::{
    bet_fits, bet_placed, bet_refusal, bet_spec, check_placed, check_refusal, check_spec,
    fold_fits, fold_placed, fold_refusal, fold_spec, gap_of, match_fits, match_placed, match_refusal,
    match_spec,
};
use crate::words::{
    all_words_in, kept, lemma_picked_valid, picked, put_applied, put_fits, put_refusal, put_spec,
    settle_words_spec, unstaked, winner_seats,
};

verus! {

/// Two lists of players hold the same addresses and hands, seat by seat.
pub open spec fn seats_agree(a: Seq<PlayerModel>, b: Seq<PlayerModel>) -> bool {
    a.len() == b.len() && forall|i: int|
        0 <= i < a.len() ==> (#[trigger] a[i]).addr == b[i].addr && a[i].hand == b[i].hand
}

/// A seat that is taken lies within the table.
pub proof fn lemma_seat_in_range(players: Seq<PlayerModel>, addr: Seq<char>)
    requires
        is_seated(players, addr),
    ensures
        0 <= seat_of(players, addr) < players.len(),
        players[seat_of(players, addr)].addr@ == addr,
{
}

/// A session whose table differs from an orderly one in nothing but what the
/// players wager, hold in chips and have done, is orderly too.
pub proof fn lemma_table_frame(s: StateModel, t: StateModel)
    requires
        s.table_ok(),
        seats_agree(t.players, s.players),
        t.deck == s.deck,
        t.game_board.river == s.game_board.river,
        t.game_board.words == s.game_board.words,
        (t.game_board.round == GameRound::NotStarted) == (s.game_board.round
            == GameRound::NotStarted),
    ensures
        t.table_ok(),
{
    assert forall|i: int, j: int| 0 <= i < j < t.players.len() implies (#[trigger] t.players[i]).addr@
        != (#[trigger] t.players[j]).addr@ by {
        assert(s.players[i].addr@ != s.players[j].addr@);
    }
    assert forall|i: int| 0 <= i < t.players.len() implies (#[trigger] t.players[i]).hand_ok(
        t.game_board.words,
    ) by {
        assert(s.players[i].hand_ok(s.game_board.words));
    }
    assert forall|i: int|
        0 <= i < t.players.len() && t.players.len() >= 2 && !has_word(
            t.game_board.words,
            (#[trigger] t.players[i]).addr@,
        ) implies t.players[i].hand.len() == 5 by {
        assert(!has_word(s.game_board.words, s.players[i].addr@));
    }
}

/// The advancement rule keeps the session well formed.
pub proof fn lemma_advance_wf(s: StateModel)
    requires
        s.wf(),
    ensures
        advance_spec(s).wf(),
{
    lemma_advance_frame(s);
    let t = advance_spec(s);
    assert(seats_agree(t.players, s.players));
    lemma_table_frame(s, t);
}

/// Crediting touches chips only.
pub proof fn lemma_credit_frame(players: Seq<PlayerModel>, seats: Seq<int>, share: int)
    requires
        forall|k: int| 0 <= k < seats.len() ==> 0 <= #[trigger] seats[k] < players.len(),
        0 <= share,
        total_chips(players) + seats.len() * share <= u64::MAX,
    ensures
        seats_agree(credit_all(players, seats, share), players),
        total_bets(credit_all(players, seats, share)) == total_bets(players),
{
    lemma_credit_all(players, seats, share);
    lemma_bets_agree(credit_all(players, seats, share), players);
}

/// What the rake leaves is shared out without exceeding the pot.
pub proof fn lemma_share_bounds(pool: u64, percent: u64, winners: int)
    requires
        percent <= 100,
        winners > 0,
    ensures
        0 <= rake_of(pool, percent) <= pool,
        0 <= share_of(pool, percent, winners),
        winners * share_of(pool, percent, winners) <= pool - rake_of(pool, percent),
{
    assert(0 <= pool * percent <= pool * 100) by (nonlinear_arith)
        requires
            percent <= 100,
            0 <= pool,
            0 <= percent,
    ;
    let left = pool - rake_of(pool, percent);
    assert(0 <= left / winners && winners * (left / winners) <= left) by (nonlinear_arith)
        requires
            0 <= left,
            winners > 0,
    ;
}

/// Paying the pot keeps the session well formed.
pub proof fn lemma_pay_wf(s: StateModel, seats: Seq<int>)
    requires
        s.wf(),
        seats.len() > 0,
        forall|k: int| 0 <= k < seats.len() ==> 0 <= #[trigger] seats[k] < s.players.len(),
    ensures
        pay_spec(s, seats).0.wf(),
{
    let t = pay_spec(s, seats).0;
    let board = s.game_board;
    if board.pool > 0 {
        let share = share_of(board.pool, board.rake_percentage, seats.len() as int);
        lemma_share_bounds(board.pool, board.rake_percentage, seats.len() as int);
        lemma_credit_all(s.players, seats, share);
        lemma_credit_frame(s.players, seats, share);
    } else {
        assert(seats_agree(t.players, s.players));
    }
    lemma_table_frame(s, t);
}

/// The fold-out rule keeps the session well formed.
pub proof fn lemma_fold_out_wf(s: StateModel)
    requires
        s.wf(),
    ensures
        fold_out_spec(s).0.wf(),
{
    if active_count(s.players) == 1 {
        lemma_active_exists(s.players);
        let w = sole_active(s.players);
        let seats = seq![w];
        assert(seats[0] == w);
        lemma_pay_wf(s, seats);
    }
}

/// A move followed by both rules keeps the session well formed.
pub proof fn lemma_settle_after_move_wf(s: StateModel)
    requires
        s.wf(),
    ensures
        fold_out_spec(advance_spec(s)).0.wf(),
{
    lemma_advance_wf(s);
    lemma_fold_out_wf(advance_spec(s));
}

/// A bet keeps the session well formed.
pub proof fn lemma_bet_wf(s: StateModel, sender: Seq<char>, amount: u64)
    requires
        s.wf(),
        bet_fits(s, sender, amount),
    ensures
        bet_spec(s, sender, amount) matches Ok(o) ==> o.0.wf(),
{
    if bet_refusal(s, sender, amount) is None {
        lemma_seat_in_range(s.players, sender);
        let seat = seat_of(s.players, sender);
        let t = bet_placed(s, seat, amount);
        lemma_total_chips_update(s.players, seat, t.players[seat]);
        lemma_total_bets_update(s.players, seat, t.players[seat]);
        assert(seats_agree(t.players, s.players));
        lemma_table_frame(s, t);
        lemma_advance_wf(t);
    }
}

/// A match keeps the session well formed.
pub proof fn lemma_match_wf(s: StateModel, sender: Seq<char>, amount: u64)
    requires
        s.wf(),
        match_fits(s, sender, amount),
    ensures
        match_spec(s, sender, amount) matches Ok(o) ==> o.0.wf(),
{
    if match_refusal(s, sender, amount) is None {
        lemma_seat_in_range(s.players, sender);
        let seat = seat_of(s.players, sender);
        let t = match_placed(s, seat, amount);
        lemma_highest_bet_bounds(s.players, s.game_board.round, seat);
        lemma_total_chips_update(s.players, seat, t.players[seat]);
        lemma_total_bets_update(s.players, seat, t.players[seat]);
        assert(amount == gap_of(s, seat));
        assert(seats_agree(t.players, s.players));
        lemma_table_frame(s, t);
        lemma_advance_wf(t);
    }
}

/// A check that is taken leaves a well-formed session behind, before the
/// rules are applied.
pub proof fn lemma_check_placed_wf(s: StateModel, sender: Seq<char>)
    requires
        s.wf(),
        is_seated(s.players, sender),
    ensures
        check_placed(s, sender).wf(),
{
    let t = check_placed(s, sender);
    {
        lemma_seat_in_range(s.players, sender);
        let seat = seat_of(s.players, sender);
        lemma_total_chips_update(s.players, seat, t.players[seat]);
        lemma_total_bets_update(s.players, seat, t.players[seat]);
        assert(seats_agree(t.players, s.players));
        lemma_table_frame(s, t);
    }
}

/// A check keeps the session well formed.
pub proof fn lemma_check_wf(s: StateModel, sender: Seq<char>)
    requires
        s.wf(),
    ensures
        check_spec(s, sender) matches Ok(o) ==> o.0.wf(),
{
    if check_refusal(s, sender) is None {
        lemma_check_placed_wf(s, sender);
        lemma_settle_after_move_wf(check_placed(s, sender));
    }
}

/// A fold that is taken leaves a well-formed session behind, before the
/// rules are applied.
pub proof fn lemma_fold_placed_wf(s: StateModel, sender: Seq<char>)
    requires
        s.wf(),
        fold_fits(s, sender),
        s.players.len() >= 2,
        is_seated(s.players, sender),
    ensures
        fold_placed(s, sender).wf(),
{
    let t = fold_placed(s, sender);
    {
        lemma_seat_in_range(s.players, sender);
        let seat = seat_of(s.players, sender);
        lemma_draw_facts(s.deck, 5);
        lemma_total_chips_update(s.players, seat, t.players[seat]);
        lemma_total_bets_update(s.players, seat, t.players[seat]);
        assert forall|i: int, j: int| 0 <= i < j < t.players.len() implies (
        #[trigger] t.players[i]).addr@ != (#[trigger] t.players[j]).addr@ by {
            assert(s.players[i].addr@ != s.players[j].addr@);
        }
        assert forall|i: int| 0 <= i < t.players.len() implies (#[trigger] t.players[i]).hand_ok(
            t.game_board.words,
        ) by {
            assert(s.players[i].hand_ok(s.game_board.words));
        }
        assert forall|i: int|
            0 <= i < t.players.len() && t.players.len() >= 2 && !has_word(
                t.game_board.words,
                (#[trigger] t.players[i]).addr@,
            ) implies t.players[i].hand.len() == 5 by {
            if i != seat {
                assert(!has_word(s.game_board.words, s.players[i].addr@));
            }
        }
        assert(t.table_ok());
    }
}

/// A fold keeps the session well formed.
pub proof fn lemma_fold_wf(s: StateModel, sender: Seq<char>)
    requires
        s.wf(),
        fold_fits(s, sender),
    ensures
        fold_spec(s, sender) matches Ok(o) ==> o.0.wf(),
{
    if fold_refusal(s, sender) is None {
        lemma_fold_placed_wf(s, sender);
        lemma_settle_after_move_wf(fold_placed(s, sender));
    }
}

/// The session without the caller's seat is well formed, before the rules
/// are applied.
pub proof fn lemma_vacated_wf(s: StateModel, sender: Seq<char>)
    requires
        s.wf(),
        is_seated(s.players, sender),
    ensures
        vacated(s, sender).wf(),
{
    let t = vacated(s, sender);
    {
        lemma_seat_in_range(s.players, sender);
        let seat = seat_of(s.players, sender);
        lemma_totals_remove(s.players, seat);
        assert forall|i: int| 0 <= i < t.players.len() implies #[trigger] t.players[i] == s.players[if i
            < seat {
            i
        } else {
            i + 1
        }] by {}
        assert forall|i: int, j: int| 0 <= i < j < t.players.len() implies (#[trigger] t.players[i]).addr@
            != (#[trigger] t.players[j]).addr@ by {
            let a = if i < seat {
                i
            } else {
                i + 1
            };
            let b = if j < seat {
                j
            } else {
                j + 1
            };
            assert(s.players[a].addr@ != s.players[b].addr@);
        }
        assert forall|i: int| 0 <= i < t.players.len() implies (#[trigger] t.players[i]).hand_ok(
            t.game_board.words,
        ) by {
            let a = if i < seat {
                i
            } else {
                i + 1
            };
            assert(s.players[a].hand_ok(s.game_board.words));
        }
        assert forall|i: int|
            0 <= i < t.players.len() && t.players.len() >= 2 && !has_word(
                t.game_board.words,
                (#[trigger] t.players[i]).addr@,
            ) implies t.players[i].hand.len() == 5 by {
            let a = if i < seat {
                i
            } else {
                i + 1
            };
            assert(!has_word(s.game_board.words, s.players[a].addr@));
        }
        assert(t.table_ok());
    }
}

/// Leaving keeps the session well formed.
pub proof fn lemma_leave_wf(s: StateModel, sender: String)
    requires
        s.wf(),
    ensures
        leave_spec(s, sender) matches Ok(o) ==> o.0.wf(),
{
    if is_seated(s.players, sender@) {
        lemma_vacated_wf(s, sender@);
        lemma_settle_after_move_wf(vacated(s, sender@));
    }
}

/// Buying chips keeps the session well formed.
pub proof fn lemma_buy_wf(s: StateModel, sender: Seq<char>, funds: Seq<Coin>)
    requires
        s.wf(),
        buy_fits(s, sender, funds),
    ensures
        buy_spec(s, sender, funds) matches Ok(o) ==> o.0.wf(),
{
    if buy_refusal(s, sender, funds) is None {
        lemma_seat_in_range(s.players, sender);
        let seat = seat_of(s.players, sender);
        let t = buy_spec(s, sender, funds)->Ok_0.0;
        lemma_total_chips_update(s.players, seat, t.players[seat]);
        lemma_total_bets_update(s.players, seat, t.players[seat]);
        assert(seats_agree(t.players, s.players));
        lemma_table_frame(s, t);
    }
}

/// The cards that are kept are cards of the hand.
pub proof fn lemma_kept(hand: Seq<Card>, indexes: Seq<u8>)
    ensures
        kept(hand, indexes).len() <= hand.len(),
        cards_valid(hand) ==> cards_valid(kept(hand, indexes)),
    decreases hand.len(),
{
    if hand.len() > 0 {
        lemma_kept(hand.drop_last(), indexes);
        if cards_valid(hand) {
            assert forall|i: int| 0 <= i < hand.drop_last().len() implies (
            #[trigger] hand.drop_last()[i]).letter < 26 by {
                assert(hand[i].letter < 26);
            }
            assert(hand[hand.len() - 1].letter < 26);
        }
    }
}

/// A word that is taken leaves a well-formed session behind, before any
/// settlement, and one in which everybody who laid down a winning word has a
/// seat where the word settles the turn.
pub proof fn lemma_put_applied_wf(
    s: StateModel,
    sender: String,
    indexes: Seq<u8>,
    opened: bool,
    dict: Seq<Seq<u8>>,
)
    requires
        s.wf(),
        put_fits(s, sender@, indexes, dict),
    ensures
        put_refusal(s, sender@, indexes) is None ==> ({
            let t = put_applied(s, seat_of(s.players, sender@), indexes, opened);
            &&& t.wf()
            &&& t.game_board.words.len() > 0
            &&& all_words_in(t) ==> forall|k: int|
                0 <= k < winning_words(t.game_board.words, dict).len() ==> is_seated(
                    t.players,
                    (#[trigger] winning_words(t.game_board.words, dict)[k]).player_addr@,
                )
        }),
{
    if put_refusal(s, sender@, indexes) is None {
        lemma_seat_in_range(s.players, sender@);
        let seat = seat_of(s.players, sender@);
        let p = s.players[seat];
        let t = put_applied(s, seat, indexes, opened);
        let cards = picked(p.hand, s.game_board.river, indexes);
        assert(p.hand_ok(s.game_board.words));
        assert(p.hand.len() == 5);
        lemma_picked_valid(p.hand, s.game_board.river, indexes);
        lemma_kept(p.hand, indexes);
        lemma_total_chips_update(s.players, seat, t.players[seat]);
        lemma_total_bets_update(s.players, seat, t.players[seat]);
        let words = t.game_board.words;
        assert(words[words.len() - 1].player_addr@ == sender@);
        assert forall|a: Seq<char>| has_word(s.game_board.words, a) implies has_word(words, a) by {
            let k = choose|k: int|
                0 <= k < s.game_board.words.len() && (#[trigger] s.game_board.words[k]).player_addr@
                    == a;
            assert(words[k].player_addr@ == a);
        }
        assert(has_word(words, sender@));
        assert forall|i: int, j: int| 0 <= i < j < t.players.len() implies (#[trigger] t.players[i]).addr@
            != (#[trigger] t.players[j]).addr@ by {
            assert(s.players[i].addr@ != s.players[j].addr@);
        }
        assert forall|i: int| 0 <= i < t.players.len() implies (#[trigger] t.players[i]).hand_ok(
            words,
        ) by {
            assert(s.players[i].hand_ok(s.game_board.words));
            if i != seat && !has_word(words, t.players[i].addr@) {
                assert(!has_word(s.game_board.words, s.players[i].addr@));
            }
        }
        assert forall|i: int|
            0 <= i < t.players.len() && t.players.len() >= 2 && !has_word(
                words,
                (#[trigger] t.players[i]).addr@,
            ) implies t.players[i].hand.len() == 5 by {
            assert(!has_word(s.game_board.words, s.players[i].addr@));
        }
        assert forall|k: int| 0 <= k < words.len() implies (#[trigger] words[k]).wf() by {
            if k < s.game_board.words.len() {
                assert(s.game_board.words[k].wf());
            }
        }
        assert(t.table_ok());
        assert(t.wf());
        lemma_totals_agree(t.players, s.players);
        if all_words_in(t) {
            assert forall|k: int| 0 <= k < winning_words(words, dict).len() implies is_seated(
                t.players,
                (#[trigger] winning_words(words, dict)[k]).player_addr@,
            ) by {
                let addr = winning_words(words, dict)[k].player_addr@;
                assert(is_seated(s.players, addr));
                let c = seat_of(s.players, addr);
                assert(t.players[c].addr == s.players[c].addr);
            }
        }
    }
}

/// Laying down a word keeps the session well formed.
pub proof fn lemma_put_wf(
    s: StateModel,
    sender: String,
    indexes: Seq<u8>,
    opened: bool,
    dict: Seq<Seq<u8>>,
)
    requires
        s.wf(),
        put_fits(s, sender@, indexes, dict),
    ensures
        put_spec(s, sender, indexes, opened, dict) matches Ok(o) ==> o.0.wf(),
{
    if put_refusal(s, sender@, indexes) is None {
        lemma_put_applied_wf(s, sender, indexes, opened, dict);
        let t = put_applied(s, seat_of(s.players, sender@), indexes, opened);
        if all_words_in(t) {
            lemma_settle_words_wf(t, dict);
        }
    }
}

/// Wiping all wagers keeps the session well formed.
pub proof fn lemma_unstaked_wf(s: StateModel)
    requires
        s.wf(),
    ensures
        (StateModel { players: Seq::new(s.players.len(), |i: int| unstaked(s.players[i])), ..s }).wf(),
{
    let cleared = StateModel {
        players: Seq::new(s.players.len(), |i: int| unstaked(s.players[i])),
        ..s
    };
    lemma_no_bets(cleared.players);
    lemma_chips_agree(cleared.players, s.players);
    assert(seats_agree(cleared.players, s.players));
    lemma_table_frame(s, cleared);
}

/// Settling the words keeps the session well formed, where everybody who
/// laid down a winning word still has a seat.
pub proof fn lemma_settle_words_wf(s: StateModel, dict: Seq<Seq<u8>>)
    requires
        s.wf(),
        s.game_board.words.len() > 0,
        forall|k: int|
            0 <= k < winning_words(s.game_board.words, dict).len() ==> is_seated(
                s.players,
                (#[trigger] winning_words(s.game_board.words, dict)[k]).player_addr@,
            ),
    ensures
        settle_words_spec(s, dict).0.wf(),
{
    let cleared = StateModel {
        players: Seq::new(s.players.len(), |i: int| unstaked(s.players[i])),
        ..s
    };
    let seats = winner_seats(s, dict);
    let winners = winning_words(s.game_board.words, dict);
    lemma_winning_words(s.game_board.words, dict);
    assert forall|k: int| 0 <= k < seats.len() implies 0 <= #[trigger] seats[k]
        < cleared.players.len() by {
        assert(is_seated(s.players, winners[k].player_addr@));
        lemma_seat_in_range(s.players, winners[k].player_addr@);
    }
    lemma_unstaked_wf(s);
    lemma_pay_wf(cleared, seats);
}

/// Readying the players for a turn gives each a valid hand of five and
/// leaves addresses and chips alone.
pub proof fn lemma_refill_table(players: Seq<PlayerModel>, deck: Seq<Card>, upto: nat)
    requires
        upto <= players.len(),
        deck.len() >= missing_cards(players.take(upto as int)),
        cards_valid(deck),
        forall|i: int|
            0 <= i < players.len() ==> cards_valid((#[trigger] players[i]).hand)
                && players[i].hand.len() <= 5,
    ensures
        cards_valid(refill_all(players, deck, upto).1),
        refill_all(players, deck, upto).0.len() == players.len(),
        forall|j: int|
            0 <= j < players.len() ==> cards_valid(
                (#[trigger] refill_all(players, deck, upto).0[j]).hand,
            ) && refill_all(players, deck, upto).0[j].addr == players[j].addr && refill_all(
                players,
                deck,
                upto,
            ).0[j].chips == players[j].chips,
        forall|j: int|
            0 <= j < upto ==> (#[trigger] refill_all(players, deck, upto).0[j]).hand.len() == 5
                && refill_all(players, deck, upto).0[j].bet == 0 && refill_all(
                players,
                deck,
                upto,
            ).0[j].bet2 == 0,
    decreases upto,
{
    if upto > 0 {
        let i = upto - 1;
        assert(players.take(upto as int).drop_last() =~= players.take(i));
        assert(players.take(upto as int).last() == players[i]);
        lemma_refill_table(players, deck, i as nat);
        lemma_refill_all(players, deck, i as nat);
        let served = refill_all(players, deck, i as nat);
        assert(served.0[i] == players[i]);
        let p = players[i];
        assert(cards_valid(p.hand) && p.hand.len() <= 5);
        if p.hand.len() < 5 {
            let need = (5 - p.hand.len()) as nat;
            lemma_draw_facts(served.1, need);
            let extra = drawn(served.1, need);
            assert forall|k: int| 0 <= k < (p.hand + extra).len() implies (#[trigger] (p.hand
                + extra)[k]).letter < 26 by {
                if k < p.hand.len() {
                    assert(p.hand[k].letter < 26);
                } else {
                    assert(extra[k - p.hand.len()].letter < 26);
                }
            }
        }
    }
}

/// Starting the next turn keeps the session well formed.
pub proof fn lemma_next_turn_wf(s: StateModel, sender: Seq<char>)
    requires
        s.wf(),
        next_turn_fits(s, sender),
    ensures
        next_turn_spec(s, sender) matches Ok(o) ==> o.0.wf(),
{
    if next_turn_refusal(s, sender) is None {
        let t = next_turn_started(s);
        let pile = remaining(s.deck, 5);
        lemma_draw_facts(s.deck, 5);
        assert(s.players.take(s.players.len() as int) =~= s.players);
        assert forall|i: int| 0 <= i < s.players.len() implies cards_valid(
            (#[trigger] s.players[i]).hand,
        ) && s.players[i].hand.len() <= 5 by {
            assert(s.players[i].hand_ok(s.game_board.words));
        }
        lemma_refill_table(s.players, pile, s.players.len());
        assert forall|i: int, j: int| 0 <= i < j < t.players.len() implies (#[trigger] t.players[i]).addr@
            != (#[trigger] t.players[j]).addr@ by {
            assert(s.players[i].addr@ != s.players[j].addr@);
        }
        assert(t.table_ok());
        lemma_no_bets(t.players);
        lemma_chips_agree(t.players, s.players);
    }
}

/// Dealing hands gives every player that held nothing a valid hand of five
/// and leaves the others as they were.
pub proof fn lemma_deal_table(players: Seq<PlayerModel>, deck: Seq<Card>, words: Seq<
    crate::game_state::WordModel,
>)
    requires
        deck.len() >= 5 * empty_hands(players),
        cards_valid(deck),
        forall|i: int| 0 <= i < players.len() ==> (#[trigger] players[i]).hand_ok(words),
    ensures
        cards_valid(deal_hands(players, deck, players.len()).1),
        deal_hands(players, deck, players.len()).0.len() == players.len(),
        forall|j: int|
            0 <= j < players.len() ==> (#[trigger] deal_hands(players, deck, players.len()).0[j])
                == (PlayerModel {
                hand: deal_hands(players, deck, players.len()).0[j].hand,
                ..players[j]
            }),
        forall|j: int|
            0 <= j < players.len() ==> (#[trigger] deal_hands(
                players,
                deck,
                players.len(),
            ).0[j]).hand_ok(words) && deal_hands(players, deck, players.len()).0[j].hand.len()
                != 0 && (!has_word(words, players[j].addr@) ==> deal_hands(
                players,
                deck,
                players.len(),
            ).0[j].hand.len() == 5),
{
    assert(players.take(players.len() as int) =~= players);
    lemma_deal_hands(players, deck, players.len());
    let dealt = deal_hands(players, deck, players.len());
    assert forall|j: int| 0 <= j < players.len() implies (#[trigger] dealt.0[j]).hand_ok(words)
        && dealt.0[j].hand.len() != 0 && (!has_word(words, players[j].addr@)
        ==> dealt.0[j].hand.len() == 5) by {
        assert(players[j].hand_ok(words));
        assert(dealt.0[j] == (PlayerModel { hand: dealt.0[j].hand, ..players[j] }));
        assert(cards_valid(players[j].hand));
    }
}

/// Joining keeps the session well formed.
pub proof fn lemma_join_wf(
    s: StateModel,
    sender: String,
    secret: u64,
    password: Seq<char>,
    nfts: Seq<SecretDreamscapeNFT>,
    fresh: Seq<Card>,
)
    requires
        s.wf(),
        join_fits(s, sender@, password),
        opens_with(s, fresh),
    ensures
        join_spec(s, sender, secret, password, nfts, fresh) matches Ok(o) ==> o.0.wf(),
{
    if join_refusal(s, sender@, password) is None {
        let guest = newcomer(sender, secret, nfts);
        let sat = seated(s, sender, secret, nfts);
        let t = deal_spec(sat, fresh);
        let words = s.game_board.words;
        lemma_totals_push(s.players, guest);
        lemma_empty_hands_push(s.players, guest);
        lemma_empty_hands_bound(sat.players);
        assert forall|i: int| 0 <= i < sat.players.len() implies (#[trigger] sat.players[i]).hand_ok(
            words,
        ) by {
            if i < s.players.len() {
                assert(s.players[i].hand_ok(words));
            }
        }
        assert forall|i: int, j: int| 0 <= i < j < sat.players.len() implies (
        #[trigger] sat.players[i]).addr@ != (#[trigger] sat.players[j]).addr@ by {
            if j < s.players.len() {
                assert(s.players[i].addr@ != s.players[j].addr@);
            } else {
                assert(s.players[i].addr@ != sender@);
            }
        }
        if sat.players.len() >= 2 {
            let opened = if sat.players.len() == 2 {
                StateModel {
                    deck: remaining(fresh, 5),
                    game_board: crate::game_state::BoardModel {
                        river: drawn(fresh, 5),
                        ..sat.game_board
                    },
                    ..sat
                }
            } else {
                sat
            };
            if sat.players.len() == 2 {
                lemma_draw_facts(fresh, 5);
            }
            lemma_deal_table(opened.players, opened.deck, words);
            let dealt = deal_hands(opened.players, opened.deck, opened.players.len());
            assert forall|i: int, j: int| 0 <= i < j < t.players.len() implies (
            #[trigger] t.players[i]).addr@ != (#[trigger] t.players[j]).addr@ by {
                assert(sat.players[i].addr@ != sat.players[j].addr@);
                assert(t.players[i].addr == sat.players[i].addr);
                assert(t.players[j].addr == sat.players[j].addr);
            }
            assert forall|i: int|
                0 <= i < t.players.len() && t.players.len() >= 2 && !has_word(
                    t.game_board.words,
                    (#[trigger] t.players[i]).addr@,
                ) implies t.players[i].hand.len() == 5 by {
                assert(t.players[i].addr == sat.players[i].addr);
            }
            assert(t.table_ok());
            lemma_chips_agree(t.players, sat.players);
            lemma_bets_agree(t.players, sat.players);
        } else {
            assert(t == sat);
            assert(t.table_ok());
        }
    }
}

} // verus!
