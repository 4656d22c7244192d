//! Run-time tests of what the commands ask of a session: that it is well
//! formed, and that a command stays within what the engine can count and
//! deal.

use vstd::arithmetic::power2::{lemma_pow2_pos, lemma_pow2_strictly_increases, lemma_pow2_unfold, pow2};
use vstd::prelude::*;
use vstd::string::StringExecFns;

use crate::constants::MIN_BET;
use crate::contract::{
    command_fits, deck_fits, handle, handle_spec, Effect, Env, GameError, HandleMsg,
};
use crate::game_state::{
    addresses_distinct, cards_valid, find_player, has_word, is_seated, total_bets, total_chips,
    Card, GameRound, PlayerModel, State, StateModel, WordModel,
};
use crate::rounds::{get_highest_bet, lemma_highest_bet_bounds};
use crate::settlement::{best_score, winning_words, words_scoring};
use crate::table::empty_hands;
use crate::turns::missing_cards;
use crate::utils::cards::{
    base_points, get_score_for_word, gold_count, points_of, raw_points, word_score, Dictionary,
};
use crate::words::{count_active, has_put_down, lemma_picked_valid, pick_cards, put_fits};

verus! {

/// Whether every card of the list carries a letter of the alphabet.
pub fn cards_ok(cards: &Vec<Card>) -> (ok: bool)
    ensures
        ok == cards_valid(cards@),
{
    let mut i: usize = 0;
    while i < cards.len()
        invariant
            i <= cards.len(),
            forall|j: int| 0 <= j < i ==> (#[trigger] cards@[j]).letter < 26,
        decreases cards.len() - i,
    {
        if cards[i].letter >= 26 {
            return false;
        }
        i += 1;
    }
    true
}

/// Whether the cards score within `u16`.
pub fn points_fit(cards: &Vec<Card>) -> (ok: bool)
    requires
        cards_valid(cards@),
    ensures
        ok == (raw_points(cards@) <= u16::MAX),
{
    let ghost all = cards@;
    let mut base: u128 = 0;
    let mut golds: usize = 0;
    let mut i: usize = 0;
    assert(all.take(0) =~= Seq::<Card>::empty());
    while i < cards.len()
        invariant
            i <= cards.len(),
            all == cards@,
            cards_valid(all),
            base == base_points(all.take(i as int)),
            base <= 10 * i,
            golds == gold_count(all.take(i as int)),
            golds <= i,
        decreases cards.len() - i,
    {
        let card = cards[i];
        proof {
            assert(all.take(i + 1).drop_last() =~= all.take(i as int));
            assert(all.take(i + 1).last() == card);
        }
        if card.gold {
            golds += 1;
        }
        base += points_of(card.letter) as u128;
        i += 1;
    }
    assert(all.take(cards.len() as int) =~= all);
    proof {
        assert(pow2(0) == 1) by {
            vstd::arithmetic::power2::lemma2_to64();
        }
        lemma_pow2_pos(golds as nat);
        assert(base <= base * pow2(golds as nat)) by (nonlinear_arith)
            requires
                pow2(golds as nat) >= 1,
                base >= 0,
        ;
    }
    if base > 65535 {
        return false;
    }
    let mut value: u128 = base;
    let mut k: usize = 0;
    while k < golds
        invariant
            k <= golds,
            all == cards@,
            golds == gold_count(all),
            base == base_points(all),
            value == base * pow2(k as nat),
            value <= u16::MAX,
        decreases golds - k,
    {
        proof {
            lemma_pow2_unfold((k + 1) as nat);
            if k + 1 < golds {
                lemma_pow2_strictly_increases((k + 1) as nat, golds as nat);
            }
            assert(base * pow2((k + 1) as nat) <= base * pow2(golds as nat)) by (nonlinear_arith)
                requires
                    pow2((k + 1) as nat) <= pow2(golds as nat),
            ;
            assert(base * pow2((k + 1) as nat) == 2 * (base * pow2(k as nat))) by (nonlinear_arith)
                requires
                    pow2((k + 1) as nat) == 2 * pow2(k as nat),
            ;
        }
        value = value * 2;
        if value > 65535 {
            return false;
        }
        k += 1;
    }
    value <= 65535
}

/// Whether no two players share an address.
pub fn addresses_ok(state: &State) -> (ok: bool)
    ensures
        ok == addresses_distinct(state@.players),
{
    let ghost ps = state@.players;
    let mut j: usize = 0;
    while j < state.players.len()
        invariant
            j <= state.players.len(),
            ps == state@.players,
            ps.len() == state.players.len(),
            forall|a: int, b: int| 0 <= a < b < j ==> (#[trigger] ps[a]).addr@ != (#[trigger] ps[b]).addr@,
        decreases state.players.len() - j,
    {
        let mut i: usize = 0;
        while i < j
            invariant
                i <= j,
                j < state.players.len(),
                ps == state@.players,
                ps.len() == state.players.len(),
                forall|a: int| 0 <= a < i ==> (#[trigger] ps[a]).addr@ != ps[j as int].addr@,
            decreases j - i,
        {
            if state.players[i].addr == state.players[j].addr {
                assert(ps[i as int].addr@ == ps[j as int].addr@);
                return false;
            }
            i += 1;
        }
        j += 1;
    }
    true
}

/// Whether every hand is in order: valid cards, five at most, and none or
/// five for a player who still owes a word, five where two players sit.
pub fn hands_ok(state: &State) -> (ok: bool)
    ensures
        ok == ((forall|i: int|
            0 <= i < state@.players.len() ==> (#[trigger] state@.players[i]).hand_ok(
                state@.game_board.words,
            )) && (forall|i: int|
            0 <= i < state@.players.len() && state@.players.len() >= 2 && !has_word(
                state@.game_board.words,
                (#[trigger] state@.players[i]).addr@,
            ) ==> state@.players[i].hand.len() == 5)),
{
    let ghost ps = state@.players;
    let ghost ws = state@.game_board.words;
    let mut i: usize = 0;
    while i < state.players.len()
        invariant
            i <= state.players.len(),
            ps == state@.players,
            ws == state@.game_board.words,
            ps.len() == state.players.len(),
            forall|j: int| 0 <= j < i ==> (#[trigger] ps[j]).hand_ok(ws),
            forall|j: int|
                0 <= j < i && ps.len() >= 2 && !has_word(ws, (#[trigger] ps[j]).addr@)
                    ==> ps[j].hand.len() == 5,
        decreases state.players.len() - i,
    {
        let player = &state.players[i];
        assert(ps[i as int] == player@);
        let held = player.hand.len();
        if !cards_ok(&player.hand) || held > 5 {
            assert(!ps[i as int].hand_ok(ws));
            return false;
        }
        if !has_put_down(state, &player.addr) {
            if held != 0 && held != 5 {
                assert(!ps[i as int].hand_ok(ws));
                return false;
            }
            if state.players.len() >= 2 && held != 5 {
                return false;
            }
        }
        i += 1;
    }
    true
}

/// Whether every word on the table holds valid cards and scores within `u16`.
pub fn words_ok(state: &State) -> (ok: bool)
    ensures
        ok == (forall|k: int|
            0 <= k < state@.game_board.words.len() ==> (#[trigger] state@.game_board.words[k]).wf()),
{
    let ghost ws = state@.game_board.words;
    let mut k: usize = 0;
    while k < state.game_board.words.len()
        invariant
            k <= state.game_board.words.len(),
            ws == state@.game_board.words,
            ws.len() == state.game_board.words.len(),
            forall|j: int| 0 <= j < k ==> (#[trigger] ws[j]).wf(),
        decreases state.game_board.words.len() - k,
    {
        let word = &state.game_board.words[k];
        assert(ws[k as int] == word@);
        if !cards_ok(&word.cards) {
            assert(!ws[k as int].wf());
            return false;
        }
        if !points_fit(&word.cards) {
            assert(!ws[k as int].wf());
            return false;
        }
        k += 1;
    }
    true
}

/// The chips of all players together.
pub fn sum_chips(state: &State) -> (sum: u128)
    requires
        state@.players.len() <= 4,
    ensures
        sum == total_chips(state@.players),
        sum <= 4 * u64::MAX,
{
    let ghost ps = state@.players;
    let mut sum: u128 = 0;
    let mut i: usize = 0;
    assert(ps.take(0) =~= Seq::<PlayerModel>::empty());
    while i < state.players.len()
        invariant
            i <= state.players.len(),
            ps == state@.players,
            ps.len() == state.players.len(),
            ps.len() <= 4,
            sum == total_chips(ps.take(i as int)),
            sum <= i * u64::MAX,
        decreases state.players.len() - i,
    {
        proof {
            assert(ps.take(i + 1).drop_last() =~= ps.take(i as int));
            assert(ps.take(i + 1).last() == state.players[i as int]@);
        }
        sum += state.players[i].chips as u128;
        i += 1;
    }
    assert(ps.take(state.players.len() as int) =~= ps);
    sum
}

/// The wagers of all players together.
pub fn sum_bets(state: &State) -> (sum: u128)
    requires
        state@.players.len() <= 4,
    ensures
        sum == total_bets(state@.players),
        sum <= 8 * u64::MAX,
{
    let ghost ps = state@.players;
    let mut sum: u128 = 0;
    let mut i: usize = 0;
    assert(ps.take(0) =~= Seq::<PlayerModel>::empty());
    while i < state.players.len()
        invariant
            i <= state.players.len(),
            ps == state@.players,
            ps.len() == state.players.len(),
            ps.len() <= 4,
            sum == total_bets(ps.take(i as int)),
            sum <= 2 * i * u64::MAX,
        decreases state.players.len() - i,
    {
        proof {
            assert(ps.take(i + 1).drop_last() =~= ps.take(i as int));
            assert(ps.take(i + 1).last() == state.players[i as int]@);
        }
        sum += state.players[i].bet as u128;
        sum += state.players[i].bet2 as u128;
        i += 1;
    }
    assert(ps.take(state.players.len() as int) =~= ps);
    sum
}

/// Whether the session is well formed.
pub fn is_well_formed(state: &State) -> (ok: bool)
    ensures
        ok == state.wf(),
{
    if state.players.len() > 4 {
        return false;
    }
    if !addresses_ok(state) {
        return false;
    }
    if !cards_ok(&state.deck) || !cards_ok(&state.game_board.river) {
        return false;
    }
    if !hands_ok(state) {
        return false;
    }
    if !words_ok(state) {
        return false;
    }
    let started = state.game_board.round != GameRound::NotStarted;
    if started && state.game_board.river.len() != 5 {
        return false;
    }
    if state.players.len() >= 2 && !started {
        return false;
    }
    if state.game_board.rake_percentage > 100 {
        return false;
    }
    let chips = sum_chips(state);
    let bets = sum_bets(state);
    if state.game_board.pool as u128 + chips > u64::MAX as u128 {
        return false;
    }
    if bets > u64::MAX as u128 {
        return false;
    }
    if state.game_board.winner_for_turn.is_none() && bets > state.game_board.pool as u128 {
        return false;
    }
    true
}

/// How many players hold no card.
pub fn count_empty_hands(state: &State) -> (count: usize)
    ensures
        count == empty_hands(state@.players),
{
    let ghost ps = state@.players;
    let mut count: usize = 0;
    let mut i: usize = 0;
    assert(ps.take(0) =~= Seq::<PlayerModel>::empty());
    while i < state.players.len()
        invariant
            i <= state.players.len(),
            ps == state@.players,
            ps.len() == state.players.len(),
            count <= i,
            count == empty_hands(ps.take(i as int)),
        decreases state.players.len() - i,
    {
        proof {
            assert(ps.take(i + 1).drop_last() =~= ps.take(i as int));
            assert(ps.take(i + 1).last() == state.players[i as int]@);
        }
        if state.players[i].hand.len() == 0 {
            count += 1;
        }
        i += 1;
    }
    assert(ps.take(state.players.len() as int) =~= ps);
    count
}

/// How many cards the players lack to hold five each.
pub fn count_missing(state: &State) -> (count: usize)
    requires
        state@.players.len() <= 4,
    ensures
        count == missing_cards(state@.players),
        count <= 20,
{
    let ghost ps = state@.players;
    let mut count: usize = 0;
    let mut i: usize = 0;
    assert(ps.take(0) =~= Seq::<PlayerModel>::empty());
    while i < state.players.len()
        invariant
            i <= state.players.len(),
            ps == state@.players,
            ps.len() == state.players.len(),
            ps.len() <= 4,
            count <= 5 * i,
            count == missing_cards(ps.take(i as int)),
        decreases state.players.len() - i,
    {
        proof {
            assert(ps.take(i + 1).drop_last() =~= ps.take(i as int));
            assert(ps.take(i + 1).last() == state.players[i as int]@);
        }
        let held = state.players[i].hand.len();
        if held < 5 {
            count += 5 - held;
        }
        i += 1;
    }
    assert(ps.take(state.players.len() as int) =~= ps);
    count
}

/// A word scores a given mark and is among the words that score it, or it
/// does neither.
pub proof fn lemma_scoring_complete(words: Seq<WordModel>, dict: Seq<Seq<u8>>, mark: nat, j: int)
    requires
        0 <= j < words.len(),
        word_score(words[j].cards, dict) == mark,
    ensures
        words_scoring(words, dict, mark).contains(words[j]),
    decreases words.len(),
{
    let found = words_scoring(words, dict, mark);
    if j == words.len() - 1 {
        assert(found[found.len() - 1] == words[j]);
    } else {
        lemma_scoring_complete(words.drop_last(), dict, mark, j);
        let rest = words_scoring(words.drop_last(), dict, mark);
        let k = choose|k: int| 0 <= k < rest.len() && rest[k] == words.drop_last()[j];
        assert(found[k] == words[j]);
    }
}

/// Every word among those that score a given mark is a word of the list that
/// scores it.
pub proof fn lemma_scoring_sound(words: Seq<WordModel>, dict: Seq<Seq<u8>>, mark: nat, k: int)
    requires
        0 <= k < words_scoring(words, dict, mark).len(),
    ensures
        exists|j: int|
            0 <= j < words.len() && (#[trigger] words[j]) == words_scoring(words, dict, mark)[k]
                && word_score(words[j].cards, dict) == mark,
    decreases words.len(),
{
    if words.len() > 0 {
        let rest = words_scoring(words.drop_last(), dict, mark);
        if k < rest.len() {
            lemma_scoring_sound(words.drop_last(), dict, mark, k);
            let j = choose|j: int|
                0 <= j < words.drop_last().len() && (#[trigger] words.drop_last()[j]) == rest[k]
                    && word_score(words.drop_last()[j].cards, dict) == mark;
            assert(words[j] == words.drop_last()[j]);
        } else {
            assert(words[words.len() - 1] == words_scoring(words, dict, mark)[k]);
        }
    }
}

/// Whether everybody who laid down a word that scores `best` has a seat.
pub fn scorers_seated(state: &State, dict: &Dictionary, best: u16) -> (ok: bool)
    requires
        forall|k: int|
            0 <= k < state@.game_board.words.len() ==> (#[trigger] state@.game_board.words[k]).wf(),
    ensures
        ok == (forall|j: int|
            0 <= j < state@.game_board.words.len() && word_score(
                (#[trigger] state@.game_board.words[j]).cards,
                dict@,
            ) == best ==> is_seated(state@.players, state@.game_board.words[j].player_addr@)),
{
    let ghost ws = state@.game_board.words;
    let mut k: usize = 0;
    while k < state.game_board.words.len()
        invariant
            k <= state.game_board.words.len(),
            ws == state@.game_board.words,
            ws.len() == state.game_board.words.len(),
            forall|j: int| 0 <= j < ws.len() ==> (#[trigger] ws[j]).wf(),
            forall|j: int|
                0 <= j < k && word_score((#[trigger] ws[j]).cards, dict@) == best ==> is_seated(
                    state@.players,
                    ws[j].player_addr@,
                ),
        decreases state.game_board.words.len() - k,
    {
        let word = &state.game_board.words[k];
        proof {
            assert(ws[k as int] == word@);
            assert(ws[k as int].wf());
        }
        let score = get_score_for_word(word.cards.as_slice(), dict);
        if score == best && find_player(state, &word.player_addr).is_none() {
            return false;
        }
        k += 1;
    }
    true
}

/// The highest score among the words on the table.
pub fn best_on_table(state: &State, dict: &Dictionary) -> (best: u16)
    requires
        forall|k: int|
            0 <= k < state@.game_board.words.len() ==> (#[trigger] state@.game_board.words[k]).wf(),
    ensures
        best == best_score(state@.game_board.words, dict@),
{
    let ghost ws = state@.game_board.words;
    let mut best: u16 = 0;
    let mut k: usize = 0;
    assert(ws.take(0) =~= Seq::<WordModel>::empty());
    while k < state.game_board.words.len()
        invariant
            k <= state.game_board.words.len(),
            ws == state@.game_board.words,
            ws.len() == state.game_board.words.len(),
            forall|j: int| 0 <= j < ws.len() ==> (#[trigger] ws[j]).wf(),
            best == best_score(ws.take(k as int), dict@),
        decreases state.game_board.words.len() - k,
    {
        let word = &state.game_board.words[k];
        proof {
            assert(ws.take(k + 1).drop_last() =~= ws.take(k as int));
            assert(ws.take(k + 1).last() == ws[k as int]);
            assert(ws[k as int] == word@);
            assert(ws[k as int].wf());
        }
        let score = get_score_for_word(word.cards.as_slice(), dict);
        if score > best {
            best = score;
        }
        k += 1;
    }
    assert(ws.take(state.game_board.words.len() as int) =~= ws);
    best
}

/// Whether laying down the word stays within the engine's limits.
pub fn put_ok(state: &State, env: &Env, indexes: &Vec<u8>, dict: &Dictionary) -> (ok: bool)
    requires
        state.wf(),
    ensures
        ok == put_fits(state@, env.sender@, indexes@, dict@),
{
    let ghost s = state@;
    if state.players.len() < 2 {
        return true;
    }
    let seat = match find_player(state, &env.sender) {
        Some(i) => i,
        None => {
            return true;
        },
    };
    if state.game_board.round != GameRound::Choice {
        return true;
    }
    if state.players[seat].folded {
        return true;
    }
    if has_put_down(state, &state.players[seat].addr) {
        return true;
    }
    let ghost p = s.players[seat as int];
    proof {
        assert(p.hand_ok(s.game_board.words));
        assert(p.hand.len() == 5);
        assert(state.players[seat as int].hand@ == p.hand);
    }
    let word = match pick_cards(&state.players[seat].hand, &state.game_board.river, indexes) {
        Ok(w) => w,
        Err(_) => {
            return true;
        },
    };
    proof {
        lemma_picked_valid(p.hand, s.game_board.river, indexes@);
    }
    if !points_fit(&word) {
        return false;
    }
    let ghost added = WordModel { cards: word@, player_addr: p.addr };
    let ghost words = s.game_board.words.push(added);
    let active = count_active(state);
    if active == 0 || state.game_board.words.len() != active - 1 {
        return true;
    }
    let own = get_score_for_word(word.as_slice(), dict);
    let table = best_on_table(state, dict);
    let best = if own > table {
        own
    } else {
        table
    };
    let ok = scorers_seated(state, dict, best);
    proof {
        assert(words.drop_last() =~= s.game_board.words);
        assert(words.last() == added);
        assert(best == best_score(words, dict@));
        let winners = winning_words(words, dict@);
        if ok {
            assert forall|k: int| 0 <= k < winners.len() implies is_seated(
                s.players,
                (#[trigger] winners[k]).player_addr@,
            ) by {
                lemma_scoring_sound(words, dict@, best as nat, k);
                let j = choose|j: int|
                    0 <= j < words.len() && (#[trigger] words[j]) == winners[k] && word_score(
                        words[j].cards,
                        dict@,
                    ) == best;
                if j < s.game_board.words.len() {
                    assert(words[j] == s.game_board.words[j]);
                } else {
                    assert(words[j] == added);
                    assert(s.players[seat as int].addr@ == env.sender@);
                }
            }
        } else {
            let j = choose|j: int|
                0 <= j < s.game_board.words.len() && word_score(
                    (#[trigger] s.game_board.words[j]).cards,
                    dict@,
                ) == best && !is_seated(s.players, s.game_board.words[j].player_addr@);
            assert(words[j] == s.game_board.words[j]);
            lemma_scoring_complete(words, dict@, best as nat, j);
            let k = choose|k: int| 0 <= k < winners.len() && winners[k] == words[j];
            assert(!is_seated(s.players, winners[k].player_addr@));
        }
    }
    ok
}

/// Whether the command stays within the engine's limits.
pub fn fits(state: &State, env: &Env, msg: &HandleMsg, dict: &Dictionary) -> (ok: bool)
    requires
        state.wf(),
    ensures
        ok == command_fits(state@, *env, *msg, dict@),
{
    let ghost s = state@;
    if state.winner.is_some() {
        return true;
    }
    match msg {
        HandleMsg::Join { secret, password, nfts } => {
            match &state.password {
                Some(pass) => {
                    if !(*password == *pass) {
                        return true;
                    }
                },
                None => {},
            }
            if state.players.len() >= 4 || find_player(state, &env.sender).is_some() {
                return true;
            }
            if state.players.len() < 2 {
                return true;
            }
            let empty = count_empty_hands(state);
            proof {
                crate::table::lemma_empty_hands_bound(s.players);
            }
            state.deck.len() >= 5 * (empty + 1)
        },
        HandleMsg::BuyChips {  } => {
            let seat = match find_player(state, &env.sender) {
                Some(i) => i,
                None => {
                    return true;
                },
            };
            if env.sent_funds.len() != 1 {
                return true;
            }
            let native = String::from_str("uscrt");
            if !(env.sent_funds[0].denom == native) {
                return true;
            }
            let amount = env.sent_funds[0].amount as u64;
            if amount < state.min_buy || amount > state.max_buy {
                return true;
            }
            if state.players[seat].chips as u128 + amount as u128 > state.max_buy as u128 {
                return true;
            }
            state.game_board.pool as u128 + sum_chips(state) + amount as u128 <= u64::MAX as u128
        },
        HandleMsg::Bet { amount } => {
            if state.players.len() < 2 {
                return true;
            }
            let seat = match find_player(state, &env.sender) {
                Some(i) => i,
                None => {
                    return true;
                },
            };
            let round = state.game_board.round;
            if state.players[seat].folded || *amount < MIN_BET || state.players[seat].chips
                < *amount || (round != GameRound::Blind && round != GameRound::Flop) {
                return true;
            }
            sum_bets(state) + *amount as u128 <= u64::MAX as u128
        },
        HandleMsg::Match { amount } => {
            if state.players.len() < 2 {
                return true;
            }
            let highest = get_highest_bet(state);
            let seat = match find_player(state, &env.sender) {
                Some(i) => i,
                None => {
                    return true;
                },
            };
            if state.players[seat].folded || state.players[seat].chips < *amount {
                return true;
            }
            if state.game_board.round != GameRound::Matching && state.game_board.round
                != GameRound::Matching2 {
                return true;
            }
            let own = if state.game_board.round == GameRound::Matching {
                state.players[seat].bet
            } else {
                state.players[seat].bet2
            };
            proof {
                lemma_highest_bet_bounds(s.players, s.game_board.round, seat as int);
            }
            if *amount != highest - own {
                return true;
            }
            sum_bets(state) + *amount as u128 <= u64::MAX as u128
        },
        HandleMsg::Fold {  } => {
            if state.players.len() < 2 || find_player(state, &env.sender).is_none() {
                return true;
            }
            state.deck.len() >= 5
        },
        HandleMsg::Check {  } => true,
        HandleMsg::Leave {  } => true,
        HandleMsg::PutDownCard { indexes, opened_dictionary } => put_ok(state, env, indexes, dict),
        HandleMsg::RequestNextTurn {  } => {
            if state.players.len() < 2 || find_player(state, &env.sender).is_none()
                || state.game_board.winner_for_turn.is_none() {
                return true;
            }
            state.game_board.turn < 255 && state.deck.len() >= 5 + count_missing(state)
        },
    }
}

/// Carries out one command, or does nothing and returns `None` where the
/// session is not well formed or the command is beyond the engine's limits.
pub fn try_handle(state: &mut State, env: &Env, msg: HandleMsg, dict: &Dictionary) -> (r: Option<
    Result<Vec<Effect>, GameError>,
>)
    ensures
        r is Some <==> old(state).wf() && command_fits(old(state)@, *env, msg, dict@),
        r is None ==> *final(state) == *old(state),
        r matches Some(Err(e)) ==> *final(state) == *old(state) && forall|fresh: Seq<Card>|
            #[trigger] handle_spec(old(state)@, *env, msg, dict@, fresh) == Err::<
                (StateModel, Seq<Effect>),
                GameError,
            >(e),
        r matches Some(Ok(effects)) ==> final(state).wf() && exists|fresh: Seq<Card>|
            deck_fits(old(state)@, *env, msg, fresh) && handle_spec(old(state)@, *env, msg, dict@, fresh)
                == Ok::<(StateModel, Seq<Effect>), GameError>((final(state)@, effects@)),
{
    if !is_well_formed(state) {
        return None;
    }
    if !fits(state, env, &msg, dict) {
        return None;
    }
    Some(handle(state, env, msg, dict))
}

} // verus!
