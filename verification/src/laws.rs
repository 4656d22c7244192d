//! What holds of the engine across its functions.

use vstd::arithmetic::power2::pow2;
use vstd::prelude::*;

use crate::contract::{handle_spec, Effect, Env, GameError, HandleMsg, SecretDreamscapeNFT};
use crate::game_state::{
    active_count, cards_valid, is_seated, lemma_active_exists, lemma_total_chips_update, seat_of,
    Card, GameRound, PlayerModel, StateModel,
};
use crate::rounds::{
    advance_spec, all_active_checked, all_active_staked, all_acted, any_checked,
    lemma_advance_frame, phase_checked, round_after, stakes_equal,
};
use crate::settlement::{fold_out_spec, rake_of, sole_active};
use crate::table::{join_refusal, join_spec};
use crate::turns::{next_turn_fits, next_turn_refusal, next_turn_spec};
use crate::utils::cards::{
    base_points, drawn, gold_count, lemma_draw_facts, remaining, word_score, word_text,
};
use crate::wagers::{fold_fits, fold_placed, fold_spec};
use crate::wellformed::{
    lemma_next_turn_wf, lemma_refill_table, lemma_seat_in_range, lemma_share_bounds,
};
use crate::words::{index_refusal, put_refusal, put_spec, selects_card};

verus! {

/// The main phase that follows a betting phase.
pub open spec fn main_phase_after(round: GameRound) -> GameRound {
    match round {
        GameRound::Blind | GameRound::Matching => GameRound::Flop,
        GameRound::Flop | GameRound::Matching2 => GameRound::Choice,
        _ => round,
    }
}

/// The matching phase that belongs to a betting phase.
pub open spec fn matching_phase_of(round: GameRound) -> GameRound {
    match round {
        GameRound::Blind => GameRound::Matching,
        GameRound::Flop => GameRound::Matching2,
        _ => round,
    }
}

/// Equal wagers skip the matching phase.
///
/// In a betting phase in which somebody is still in and nobody still in has
/// checked, as long as the wagers placed so far agree, the turn stays in the
/// phase until everybody has acted and everybody still in has wagered, and
/// then goes on to the next main phase. It never enters the matching phase.
pub proof fn law_equal_bets_skip_matching(s: StateModel)
    requires
        s.game_board.round == GameRound::Blind || s.game_board.round == GameRound::Flop,
        !any_checked(s.players, s.game_board.round),
        active_count(s.players) >= 1,
        stakes_equal(s.players, s.game_board.round),
    ensures
        all_acted(s.players) && all_active_staked(s.players, s.game_board.round) ==> round_after(s)
            == main_phase_after(s.game_board.round),
        !(all_acted(s.players) && all_active_staked(s.players, s.game_board.round))
            ==> round_after(s) == s.game_board.round,
        round_after(s) != matching_phase_of(s.game_board.round),
        advance_spec(s).game_board.round == round_after(s),
{
    lemma_active_exists(s.players);
    let i = choose|i: int| 0 <= i < s.players.len() && !(#[trigger] s.players[i]).folded;
    assert(!phase_checked(s.players[i], s.game_board.round));
}

/// Unequal wagers lead through the matching phase.
///
/// In a betting phase in which the wagers of two players still in differ,
/// unless all those still in have checked, the turn cannot go on to the next
/// main phase: it stays, or it enters the matching phase, and it does enter
/// it once everybody has acted and everybody still in has wagered or checked.
/// From the matching phase the turn goes on only when the wagers agree.
pub proof fn law_unequal_bets_pass_matching(s: StateModel)
    requires
        !stakes_equal(s.players, s.game_board.round),
        !all_active_checked(s.players, s.game_board.round),
    ensures
        s.game_board.round == GameRound::Blind || s.game_board.round == GameRound::Flop ==> (
        round_after(s) == s.game_board.round || round_after(s) == matching_phase_of(
            s.game_board.round,
        )),
        (s.game_board.round == GameRound::Blind || s.game_board.round == GameRound::Flop)
            && all_acted(s.players) && all_active_staked(s.players, s.game_board.round)
            ==> round_after(s) == matching_phase_of(s.game_board.round),
        s.game_board.round == GameRound::Matching || s.game_board.round == GameRound::Matching2
            ==> round_after(s) == s.game_board.round,
        advance_spec(s).game_board.round == round_after(s),
{
}

/// Where exactly one player is still in, that player's seat is the only one
/// that has not folded.
pub proof fn lemma_sole_active(players: Seq<PlayerModel>, i: int)
    requires
        active_count(players) == 1,
        0 <= i < players.len(),
        !players[i].folded,
    ensures
        sole_active(players) == i,
    decreases players.len(),
{
    lemma_one_active(players, i, sole_active(players));
}

/// Two seats that have not folded are the same seat where only one player is
/// still in.
pub proof fn lemma_one_active(players: Seq<PlayerModel>, i: int, j: int)
    requires
        active_count(players) == 1,
        0 <= i < players.len(),
        !players[i].folded,
    ensures
        0 <= j < players.len() && !players[j].folded ==> i == j,
    decreases players.len(),
{
    if 0 <= j < players.len() && !players[j].folded && i != j {
        if i < j {
            lemma_count_two(players, i, j);
        } else {
            lemma_count_two(players, j, i);
        }
    }
}

/// Two seats that have not folded count twice.
pub proof fn lemma_count_two(players: Seq<PlayerModel>, i: int, j: int)
    requires
        0 <= i < j < players.len(),
        !players[i].folded,
        !players[j].folded,
    ensures
        active_count(players) >= 2,
    decreases players.len(),
{
    if j == players.len() - 1 {
        lemma_count_positive(players.drop_last(), i);
    } else {
        lemma_count_two(players.drop_last(), i, j);
    }
}

/// A seat that has not folded counts.
pub proof fn lemma_count_positive(players: Seq<PlayerModel>, i: int)
    requires
        0 <= i < players.len(),
        !players[i].folded,
    ensures
        active_count(players) >= 1,
    decreases players.len(),
{
    if i < players.len() - 1 {
        lemma_count_positive(players.drop_last(), i);
    }
}

/// Folding down to one player ends the turn at once.
///
/// Where a fold leaves exactly one player in the turn, that player is the
/// winner of the turn, the pot is empty afterwards, the winner's chips have
/// grown by the whole pot less the rake, and nobody else's chips have changed.
pub proof fn law_fold_out_pays_last_player(s: StateModel, sender: Seq<char>, last: int)
    requires
        s.wf(),
        fold_fits(s, sender),
        s.players.len() >= 2,
        is_seated(s.players, sender),
        active_count(fold_placed(s, sender).players) == 1,
        0 <= last < s.players.len(),
        !fold_placed(s, sender).players[last].folded,
    ensures
        fold_spec(s, sender) is Ok,
        ({
            let after = fold_spec(s, sender)->Ok_0.0;
            let pool = s.game_board.pool;
            let rake = rake_of(pool, s.game_board.rake_percentage);
            &&& after.game_board.winner_for_turn == Some(s.players[last].addr)
            &&& after.game_board.pool == 0
            &&& after.players.len() == s.players.len()
            &&& after.players[last].chips == s.players[last].chips + (pool - rake)
            &&& forall|i: int|
                0 <= i < s.players.len() && i != last ==> (#[trigger] after.players[i]).chips
                    == s.players[i].chips
            &&& pool > 0 ==> fold_spec(s, sender)->Ok_0.1 == seq![
                Effect::Jackpot(crate::contract::SecretDreamscapeJackpot::Fund {  }, rake as u64),
            ]
        }),
{
    let placed = fold_placed(s, sender);
    let moved = advance_spec(placed);
    lemma_advance_frame(placed);
    if is_seated(s.players, sender) {
        lemma_seat_in_range(s.players, sender);
    }
    assert(placed.players.len() == s.players.len());
    assert(placed.players[last].addr == s.players[last].addr);
    assert(placed.players[last].chips == s.players[last].chips);
    assert(moved.players[last] == (PlayerModel {
        last_action: moved.players[last].last_action,
        ..placed.players[last]
    }));
    lemma_sole_active(moved.players, last);
    lemma_share_bounds(s.game_board.pool, s.game_board.rake_percentage, 1);
    let pool = s.game_board.pool;
    let rake = rake_of(pool, s.game_board.rake_percentage);
    assert((pool - rake) / 1 == pool - rake) by (nonlinear_arith);
    let after = fold_out_spec(moved).0;
    let seats = seq![last];
    let share = crate::settlement::share_of(pool, s.game_board.rake_percentage, 1);
    assert(seats.drop_last() =~= Seq::<int>::empty());
    assert(seats.last() == last);
    assert(seats.len() == 1);
    assert(crate::settlement::credit_all(moved.players, seats.drop_last(), share)
        == moved.players);
    assert(crate::settlement::credit_all(moved.players, seats, share) == moved.players.update(
        last,
        crate::settlement::credited(moved.players[last], share),
    ));
    assert(fold_out_spec(moved) == crate::settlement::pay_spec(moved, seats));
    lemma_total_chips_update(s.players, last, s.players[last]);
    if is_seated(s.players, sender) {
        let seat = seat_of(s.players, sender);
        lemma_total_chips_update(s.players, seat, placed.players[seat]);
    }
    assert forall|i: int| 0 <= i < s.players.len() && i != last implies (#[trigger] after.players[i]).chips
        == s.players[i].chips by {
        assert(moved.players[i] == (PlayerModel {
            last_action: moved.players[i].last_action,
            ..placed.players[i]
        }));
    }
}

/// A word that the dictionary does not list scores nothing, whatever its
/// letters and however many of its cards are gold.
pub proof fn law_unlisted_word_scores_nothing(cards: Seq<Card>, dict: Seq<Seq<u8>>)
    requires
        !dict.contains(word_text(cards)),
    ensures
        word_score(cards, dict) == 0,
{
}

/// A word that the dictionary lists scores the sum of its letter points,
/// times two to the number of its gold cards.
pub proof fn law_gold_doubles_score(cards: Seq<Card>, dict: Seq<Seq<u8>>)
    requires
        dict.contains(word_text(cards)),
    ensures
        word_score(cards, dict) == base_points(cards) * pow2(gold_count(cards)),
{
}

/// Indexes with a repetition, or with a byte that selects no card, are
/// turned down from wherever the check starts at or before the offence.
pub proof fn lemma_bad_index_refused(indexes: Seq<u8>, from: int, k: int)
    requires
        0 <= from <= k < indexes.len(),
        !selects_card(indexes[k]) || exists|j: int| 0 <= j < k && indexes[j] == indexes[k],
    ensures
        index_refusal(indexes, from) is Some,
    decreases k - from,
{
    if from < k {
        lemma_bad_index_refused(indexes, from + 1, k);
    }
}

/// A word with a repeated index, or with an index that is neither 0 to 4 nor
/// 250 to 254, is always turned down.
pub proof fn law_bad_indexes_rejected(
    s: StateModel,
    sender: String,
    indexes: Seq<u8>,
    opened: bool,
    dict: Seq<Seq<u8>>,
    k: int,
)
    requires
        0 <= k < indexes.len(),
        !selects_card(indexes[k]) || exists|j: int| 0 <= j < k && indexes[j] == indexes[k],
    ensures
        put_refusal(s, sender@, indexes) is Some,
        put_spec(s, sender, indexes, opened, dict) is Err,
{
    lemma_bad_index_refused(indexes, 0, k);
}

/// The next turn cannot be started before the turn has a winner, and can
/// always be started by a player once it has one: then the pot, the wagers
/// and the words are cleared, a new river of five lies on the table, the
/// blind phase begins and the turn counter is one higher.
pub proof fn law_next_turn(s: StateModel, sender: Seq<char>)
    requires
        s.wf(),
        next_turn_fits(s, sender),
    ensures
        s.game_board.winner_for_turn is None ==> next_turn_spec(s, sender) is Err,
        s.game_board.winner_for_turn is Some && s.players.len() >= 2 && is_seated(
            s.players,
            sender,
        ) ==> next_turn_spec(s, sender) is Ok && ({
            let after = next_turn_spec(s, sender)->Ok_0.0;
            &&& after.wf()
            &&& after.game_board.pool == 0
            &&& after.game_board.words.len() == 0
            &&& after.game_board.river == drawn(s.deck, 5)
            &&& after.game_board.river.len() == 5
            &&& after.game_board.winner_for_turn is None
            &&& after.game_board.round == GameRound::Blind
            &&& after.game_board.turn == s.game_board.turn + 1
            &&& after.players.len() == s.players.len()
            &&& forall|i: int|
                0 <= i < after.players.len() ==> (#[trigger] after.players[i]).bet == 0
                    && after.players[i].bet2 == 0 && after.players[i].hand.len() == 5
        }),
{
    if next_turn_refusal(s, sender) is None {
        lemma_draw_facts(s.deck, 5);
        lemma_next_turn_wf(s, sender);
        assert(s.players.take(s.players.len() as int) =~= s.players);
        assert forall|i: int| 0 <= i < s.players.len() implies cards_valid(
            (#[trigger] s.players[i]).hand,
        ) && s.players[i].hand.len() <= 5 by {
            assert(s.players[i].hand_ok(s.game_board.words));
        }
        lemma_refill_table(s.players, remaining(s.deck, 5), s.players.len());
    }
}

/// Once the session has a winner, every command is turned down.
pub proof fn law_over_is_over(
    s: StateModel,
    env: Env,
    msg: HandleMsg,
    dict: Seq<Seq<u8>>,
    fresh: Seq<Card>,
)
    requires
        s.winner is Some,
    ensures
        handle_spec(s, env, msg, dict, fresh) == Err::<(StateModel, Seq<Effect>), GameError>(
            GameError::GameOver,
        ),
{
}

/// Nobody joins a full table, joins twice, joins with a wrong password, or
/// joins a session that has a winner.
pub proof fn law_join_refused(
    s: StateModel,
    env: Env,
    secret: u64,
    password: String,
    nfts: Vec<SecretDreamscapeNFT>,
    dict: Seq<Seq<u8>>,
    fresh: Seq<Card>,
)
    requires
        s.players.len() >= 4 || is_seated(s.players, env.sender@) || (s.password matches Some(p)
            && p@ != password@) || s.winner is Some,
    ensures
        handle_spec(s, env, HandleMsg::Join { secret, password, nfts }, dict, fresh) is Err,
        s.winner is None ==> join_refusal(s, env.sender@, password@) is Some && join_spec(
            s,
            env.sender,
            secret,
            password@,
            nfts@,
            fresh,
        ) is Err,
{
}

} // verus!
