//! Who wins a turn and how the pot is paid.

use vstd::prelude::*;

use crate::contract::{Effect, SecretDreamscapeJackpot};
use crate::game_state::{
    active_count, lemma_total_chips_update, total_chips, word_models,
    BoardModel, PlayerModel, State, StateModel, Word, WordModel,
};
use crate::utils::cards::{get_score_for_word, word_score, Dictionary};

verus! {

/// The part of the pot that goes to the jackpot.
pub open spec fn rake_of(pool: u64, percent: u64) -> int {
    pool * percent / 100
}

/// What each of `winners` players gets of the pot: an equal part of what the
/// rake leaves, rounded down.
pub open spec fn share_of(pool: u64, percent: u64, winners: int) -> int {
    (pool - rake_of(pool, percent)) / winners
}

/// The player with `share` more chips.
pub open spec fn credited(p: PlayerModel, share: int) -> PlayerModel {
    PlayerModel { chips: (p.chips + share) as u64, ..p }
}

/// The players after `share` has been credited to each seat of the list.
pub open spec fn credit_all(players: Seq<PlayerModel>, seats: Seq<int>, share: int) -> Seq<
    PlayerModel,
>
    decreases seats.len(),
{
    if seats.len() == 0 {
        players
    } else {
        let before = credit_all(players, seats.drop_last(), share);
        before.update(seats.last(), credited(before[seats.last()], share))
    }
}

/// The session and the effects after the pot has been paid to the players
/// at `seats`. The first of them becomes the winner of the turn. While the
/// pot holds anything, each winner is credited an equal share of what the
/// rake leaves, the pot is emptied, and the rake goes to the jackpot.
pub open spec fn pay_spec(s: StateModel, seats: Seq<int>) -> (StateModel, Seq<Effect>) {
    let board = s.game_board;
    let winner = Some(s.players[seats[0]].addr);
    if board.pool > 0 {
        (
            StateModel {
                players: credit_all(
                    s.players,
                    seats,
                    share_of(board.pool, board.rake_percentage, seats.len() as int),
                ),
                game_board: BoardModel { pool: 0, winner_for_turn: winner, ..board },
                ..s
            },
            seq![
                Effect::Jackpot(
                    SecretDreamscapeJackpot::Fund {  },
                    rake_of(board.pool, board.rake_percentage) as u64,
                ),
            ],
        )
    } else {
        (
            StateModel { game_board: BoardModel { winner_for_turn: winner, ..board }, ..s },
            Seq::empty(),
        )
    }
}

/// The seats of a list as mathematical integers.
pub open spec fn seats_of(winners: Seq<usize>) -> Seq<int> {
    Seq::new(winners.len(), |k: int| winners[k] as int)
}

/// Crediting keeps the number of players, touches chips only, and adds
/// `share` to the chips of all once for every seat of the list.
pub proof fn lemma_credit_all(players: Seq<PlayerModel>, seats: Seq<int>, share: int)
    requires
        forall|k: int| 0 <= k < seats.len() ==> 0 <= #[trigger] seats[k] < players.len(),
        0 <= share,
        total_chips(players) + seats.len() * share <= u64::MAX,
    ensures
        credit_all(players, seats, share).len() == players.len(),
        total_chips(credit_all(players, seats, share)) == total_chips(players) + seats.len()
            * share,
        forall|i: int|
            0 <= i < players.len() ==> (#[trigger] credit_all(players, seats, share)[i])
                == (PlayerModel { chips: credit_all(players, seats, share)[i].chips, ..players[i] }),
    decreases seats.len(),
{
    if seats.len() > 0 {
        let rest = seats.drop_last();
        assert((seats.len() - 1) * share + share == seats.len() * share) by (nonlinear_arith);
        assert(0 <= (seats.len() - 1) * share) by (nonlinear_arith)
            requires
                0 <= share,
                seats.len() >= 1,
        ;
        assert forall|k: int| 0 <= k < rest.len() implies 0 <= #[trigger] rest[k] < players.len() by {
            assert(rest[k] == seats[k]);
        }
        lemma_credit_all(players, rest, share);
        let before = credit_all(players, rest, share);
        let w = seats.last();
        lemma_total_chips_update(before, w, credited(before[w], share));
    }
}

/// Pays the pot to the players at the seats `winners`.
pub fn give_winners_their_money(state: &mut State, winners: Vec<usize>) -> (effects: Vec<Effect>)
    requires
        winners@.len() > 0,
        forall|k: int| 0 <= k < winners@.len() ==> #[trigger] winners@[k] < old(state)@.players.len(),
        old(state)@.game_board.rake_percentage <= 100,
        old(state)@.game_board.pool + total_chips(old(state)@.players) <= u64::MAX,
    ensures
        (final(state)@, effects@) == pay_spec(old(state)@, seats_of(winners@)),
{
    let ghost s0 = state@;
    let ghost seats = seats_of(winners@);
    let pool = state.game_board.pool;
    let percent = state.game_board.rake_percentage;
    let n = winners.len();
    state.game_board.winner_for_turn = Some(state.players[winners[0]].addr.clone());
    assert(pool * percent <= pool * 100) by (nonlinear_arith)
        requires
            percent <= 100,
    ;
    let rake: u64 = ((pool as u128) * (percent as u128) / 100) as u64;
    assert(rake == rake_of(pool, percent));
    let amount_per_transfer: u64 = (pool - rake) / (n as u64);
    assert(amount_per_transfer == share_of(pool, percent, seats.len() as int));
    let ghost share = amount_per_transfer as int;
    assert(n * share <= pool - rake) by (nonlinear_arith)
        requires
            share == (pool - rake) / (n as int),
            n > 0,
            pool - rake >= 0,
    ;
    if pool > 0 {
        let mut i: usize = 0;
        assert(seats.take(0) =~= Seq::<int>::empty());
        while i < n
            invariant
                i <= n,
                n == winners@.len(),
                seats == seats_of(winners@),
                0 <= share == amount_per_transfer,
                n * share <= pool,
                forall|k: int| 0 <= k < winners@.len() ==> #[trigger] winners@[k] < s0.players.len(),
                pool + total_chips(s0.players) <= u64::MAX,
                state@.players == credit_all(s0.players, seats.take(i as int), share),
                state@ == (StateModel {
                    players: state@.players,
                    game_board: BoardModel {
                        winner_for_turn: Some(s0.players[seats[0]].addr),
                        ..s0.game_board
                    },
                    ..s0
                }),
            decreases n - i,
        {
            let ghost prefix = seats.take(i as int);
            let ghost next = seats.take(i + 1);
            proof {
                assert(next.drop_last() =~= prefix);
                assert(next.last() == winners@[i as int]);
                assert(i * share <= n * share && (i + 1) * share <= n * share && (i + 1) * share
                    == i * share + share) by (nonlinear_arith)
                    requires
                        0 <= share,
                        i < n,
                ;
                assert forall|k: int| 0 <= k < prefix.len() implies 0 <= #[trigger] prefix[k]
                    < s0.players.len() by {
                    assert(prefix[k] == winners@[k]);
                }
                lemma_credit_all(s0.players, prefix, share);
                lemma_total_chips_update(
                    state@.players,
                    winners@[i as int] as int,
                    state@.players[winners@[i as int] as int],
                );
            }
            let w = winners[i];
            let ghost prev = state@.players;
            assert(prev[w as int].chips + share <= u64::MAX);
            assert(prev[w as int].chips == state.players[w as int].chips);
            state.players[w].chips += amount_per_transfer;
            proof {
                assert(state@.players =~= prev.update(w as int, credited(prev[w as int], share)));
            }
            i += 1;
        }
        assert(seats.take(n as int) =~= seats);
        state.game_board.pool = 0;
        let mut effects: Vec<Effect> = Vec::new();
        effects.push(Effect::Jackpot(SecretDreamscapeJackpot::Fund {  }, rake));
        assert(effects@ =~= pay_spec(s0, seats).1);
        return effects;
    }
    Vec::new()
}

/// A seat whose player has not folded. Where exactly one player is still in,
/// it is that player's.
pub open spec fn sole_active(players: Seq<PlayerModel>) -> int {
    choose|i: int| 0 <= i < players.len() && !(#[trigger] players[i]).folded
}

/// The session and the effects once the fold-out rule has been applied: where
/// exactly one player has not folded, that player wins the turn and is paid
/// the pot; otherwise nothing changes.
pub open spec fn fold_out_spec(s: StateModel) -> (StateModel, Seq<Effect>) {
    if active_count(s.players) == 1 {
        pay_spec(s, seq![sole_active(s.players)])
    } else {
        (s, Seq::empty())
    }
}

/// Ends the turn at once where all players but one have folded: the one
/// still in wins and is paid the pot.
pub fn advance_to_next_turn_if_all_players_but_one_folded(state: &mut State) -> (effects: Vec<
    Effect,
>)
    requires
        old(state)@.game_board.rake_percentage <= 100,
        old(state)@.game_board.pool + total_chips(old(state)@.players) <= u64::MAX,
    ensures
        (final(state)@, effects@) == fold_out_spec(old(state)@),
{
    let ghost ps = state@.players;
    let mut count: usize = 0;
    let mut first: usize = 0;
    let mut i: usize = 0;
    assert(ps.take(0) =~= Seq::<PlayerModel>::empty());
    while i < state.players.len()
        invariant
            i <= state.players.len(),
            ps == state@.players,
            ps.len() == state.players.len(),
            count <= i,
            count == active_count(ps.take(i as int)),
            count == 0 ==> forall|j: int| 0 <= j < i ==> (#[trigger] ps[j]).folded,
            count >= 1 ==> first < i && !ps[first as int].folded,
            count == 1 ==> forall|j: int| 0 <= j < i && j != first ==> (#[trigger] ps[j]).folded,
        decreases state.players.len() - i,
    {
        proof {
            assert(ps.take(i + 1).drop_last() =~= ps.take(i as int));
            assert(ps.take(i + 1).last() == ps[i as int]);
            assert(ps[i as int] == state.players[i as int]@);
        }
        if !state.players[i].folded {
            if count == 0 {
                first = i;
            }
            count += 1;
        }
        i += 1;
    }
    assert(ps.take(state.players.len() as int) =~= ps);
    if count == 1 {
        proof {
            let c = sole_active(ps);
            assert(!ps[first as int].folded);
            assert(c == first);
        }
        let mut winners: Vec<usize> = Vec::new();
        winners.push(first);
        assert(seats_of(winners@) =~= seq![sole_active(ps)]);
        return give_winners_their_money(state, winners);
    }
    Vec::new()
}

/// The highest score among the words; nothing where there is no word.
pub open spec fn best_score(words: Seq<WordModel>, dict: Seq<Seq<u8>>) -> nat
    decreases words.len(),
{
    if words.len() == 0 {
        0
    } else {
        let rest = best_score(words.drop_last(), dict);
        let own = word_score(words.last().cards, dict);
        if own > rest {
            own
        } else {
            rest
        }
    }
}

/// The words that score exactly `best`, in the order in which they were laid
/// down.
pub open spec fn words_scoring(words: Seq<WordModel>, dict: Seq<Seq<u8>>, best: nat) -> Seq<
    WordModel,
>
    decreases words.len(),
{
    if words.len() == 0 {
        Seq::empty()
    } else {
        let rest = words_scoring(words.drop_last(), dict, best);
        if word_score(words.last().cards, dict) == best {
            rest.push(words.last())
        } else {
            rest
        }
    }
}

/// The words that win the turn: those that share the highest score.
pub open spec fn winning_words(words: Seq<WordModel>, dict: Seq<Seq<u8>>) -> Seq<WordModel> {
    words_scoring(words, dict, best_score(words, dict))
}

/// No word scores more than the best.
pub proof fn lemma_none_above_best(words: Seq<WordModel>, dict: Seq<Seq<u8>>, mark: nat)
    requires
        best_score(words, dict) < mark,
    ensures
        words_scoring(words, dict, mark) =~= Seq::empty(),
    decreases words.len(),
{
    if words.len() > 0 {
        lemma_none_above_best(words.drop_last(), dict, mark);
    }
}

/// The winning words are words that were laid down, and there is one unless
/// no word was laid down at all.
pub proof fn lemma_winning_words(words: Seq<WordModel>, dict: Seq<Seq<u8>>)
    ensures
        words.len() > 0 ==> winning_words(words, dict).len() > 0,
        forall|k: int|
            0 <= k < winning_words(words, dict).len() ==> words.contains(
                #[trigger] winning_words(words, dict)[k],
            ),
    decreases words.len(),
{
    lemma_words_scoring_members(words, dict, best_score(words, dict));
    if words.len() > 0 {
        let rest = words.drop_last();
        if word_score(words.last().cards, dict) >= best_score(rest, dict) {
        } else {
            lemma_winning_words(rest, dict);
            assert(rest.len() > 0);
        }
    }
}

/// The words that score a given mark are words of the list.
pub proof fn lemma_words_scoring_members(words: Seq<WordModel>, dict: Seq<Seq<u8>>, mark: nat)
    ensures
        forall|k: int|
            0 <= k < words_scoring(words, dict, mark).len() ==> words.contains(
                #[trigger] words_scoring(words, dict, mark)[k],
            ),
    decreases words.len(),
{
    if words.len() > 0 {
        let rest = words.drop_last();
        lemma_words_scoring_members(rest, dict, mark);
        let found = words_scoring(words, dict, mark);
        assert forall|k: int| 0 <= k < found.len() implies words.contains(#[trigger] found[k]) by {
            if k < words_scoring(rest, dict, mark).len() {
                let w = words_scoring(rest, dict, mark)[k];
                assert(rest.contains(w));
                let j = choose|j: int| 0 <= j < rest.len() && rest[j] == w;
                assert(words[j] == w);
            } else {
                assert(found[k] == words[words.len() - 1]);
            }
        }
    }
}

/// The words that share the highest score of the turn, in the order in which
/// they were laid down.
pub fn get_winners_for_turn(state: &State, dict: &Dictionary) -> (winners: Vec<Word>)
    requires
        forall|k: int|
            0 <= k < state@.game_board.words.len() ==> (#[trigger] state@.game_board.words[k]).wf(),
    ensures
        word_models(winners@) == winning_words(state@.game_board.words, dict@),
{
    let ghost ws = state@.game_board.words;
    let mut max_score: u16 = 0;
    let mut highest: Vec<Word> = Vec::new();
    let mut i: usize = 0;
    assert(ws.take(0) =~= Seq::<WordModel>::empty());
    assert(word_models(highest@) =~= winning_words(ws.take(0), dict@));
    while i < state.game_board.words.len()
        invariant
            i <= state.game_board.words.len(),
            ws == state@.game_board.words,
            ws.len() == state.game_board.words.len(),
            forall|k: int| 0 <= k < ws.len() ==> (#[trigger] ws[k]).wf(),
            max_score == best_score(ws.take(i as int), dict@),
            word_models(highest@) == winning_words(ws.take(i as int), dict@),
        decreases state.game_board.words.len() - i,
    {
        let ghost before = ws.take(i as int);
        proof {
            assert(ws.take(i + 1).drop_last() =~= before);
            assert(ws.take(i + 1).last() == ws[i as int]);
            assert(ws[i as int] == state.game_board.words[i as int]@);
            assert(ws[i as int].wf());
        }
        let word = state.game_board.words[i].clone();
        let score = get_score_for_word(word.cards.as_slice(), dict);
        if score == max_score {
            let ghost prev = highest@;
            highest.push(word);
            assert(word_models(highest@) =~= word_models(prev).push(ws[i as int]));
        } else if score > max_score {
            proof {
                lemma_none_above_best(before, dict@, score as nat);
            }
            max_score = score;
            highest = Vec::new();
            highest.push(word);
            assert(word_models(highest@) =~= seq![ws[i as int]]);
            assert(Seq::<WordModel>::empty().push(ws[i as int]) =~= seq![ws[i as int]]);
        }
        i += 1;
    }
    assert(ws.take(state.game_board.words.len() as int) =~= ws);
    highest
}

} // verus!
