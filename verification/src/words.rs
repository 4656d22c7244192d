//! Laying down a word, and settling the turn once every word is in.

use vstd::prelude::*;
use vstd::string::StrSliceExecFns;

use crate::contract::{Effect, Env, GameError, SecretDreamscapeNFT, StampHandleMsg};
use crate::game_state::{
    active_count, addresses_distinct, cards_valid, find_player, has_word, is_seated,
    lemma_chips_agree, lemma_total_chips_update, lemma_totals_agree, seat_of, total_chips, word_models, BoardModel,
    Card, GameRound, PlayerAction, PlayerModel, State, StateModel, Word, WordModel,
};
use crate::settlement::{
    get_winners_for_turn, give_winners_their_money, lemma_winning_words, pay_spec, seats_of,
    winning_words,
};
use crate::utils::cards::{find_word_id, first_index_of, raw_points, Dictionary};
use crate::wagers::{outcome_of, Outcome};

verus! {

/// Whether an index byte selects a card: 0 to 4 a slot of the hand, 250 to
/// 254 a slot of the river.
pub open spec fn selects_card(index: u8) -> bool {
    index <= 4 || (250 <= index && index <= 254)
}

/// Why the indexes from place `from` on are turned down, if they are. The
/// first index that repeats an earlier one, or that selects no card, decides;
/// at one place the repetition is named first.
pub open spec fn index_refusal(indexes: Seq<u8>, from: int) -> Option<GameError>
    decreases indexes.len() - from,
{
    if from < 0 || from >= indexes.len() {
        None
    } else if exists|j: int| 0 <= j < from && indexes[j] == indexes[from] {
        Some(GameError::CantUseCardTwice)
    } else if !selects_card(indexes[from]) {
        Some(GameError::NotInYourHand)
    } else {
        index_refusal(indexes, from + 1)
    }
}

/// Why a word is turned down, if it is. Words are laid down in the choice
/// phase, by players still in the turn, once per player and turn.
pub open spec fn put_refusal(s: StateModel, sender: Seq<char>, indexes: Seq<u8>) -> Option<
    GameError,
> {
    if s.players.len() < 2 {
        Some(GameError::NotInGame)
    } else if !is_seated(s.players, sender) {
        Some(GameError::NotInGame)
    } else if s.game_board.round != GameRound::Choice {
        Some(GameError::CantPutCardAtTheMoment)
    } else if s.players[seat_of(s.players, sender)].folded {
        Some(GameError::CantPutCardIfFolded)
    } else if has_word(s.game_board.words, sender) {
        Some(GameError::AlreadyPutDown)
    } else {
        index_refusal(indexes, 0)
    }
}

/// The card that an index byte selects.
pub open spec fn pick(hand: Seq<Card>, river: Seq<Card>, index: u8) -> Card {
    if index >= 250 {
        river[index - 250]
    } else {
        hand[index as int]
    }
}

/// The word that the indexes spell: the selected cards in the order of the
/// indexes.
pub open spec fn picked(hand: Seq<Card>, river: Seq<Card>, indexes: Seq<u8>) -> Seq<Card> {
    Seq::new(indexes.len(), |k: int| pick(hand, river, indexes[k]))
}

/// The cards of the hand that no index selects, in the order of the hand.
pub open spec fn kept(hand: Seq<Card>, indexes: Seq<u8>) -> Seq<Card>
    decreases hand.len(),
{
    if hand.len() == 0 {
        Seq::empty()
    } else {
        let rest = kept(hand.drop_last(), indexes);
        if indexes.contains((hand.len() - 1) as u8) {
            rest
        } else {
            rest.push(hand.last())
        }
    }
}

/// The text of a collectible that goes with the card: its letter, upper case.
pub open spec fn letter_name(card: Card) -> Seq<char> {
    seq![(card.letter + 65) as char]
}

/// Whether the collectible goes with the card: same letter, same gold.
pub open spec fn nft_fits(nft: SecretDreamscapeNFT, card: Card) -> bool {
    nft.letter@ == letter_name(card) && nft.gold == card.gold
}

/// The first collectible of the list that goes with the card.
pub open spec fn nft_for(nfts: Seq<SecretDreamscapeNFT>, card: Card) -> Option<
    SecretDreamscapeNFT,
>
    decreases nfts.len(),
{
    if nfts.len() == 0 {
        None
    } else {
        match nft_for(nfts.drop_last(), card) {
            Some(n) => Some(n),
            None => if nft_fits(nfts.last(), card) {
                Some(nfts.last())
            } else {
                None
            },
        }
    }
}

/// The stamps that a word earns: one for every card, in the order of the
/// word, for which the player holds a collectible that goes with it.
pub open spec fn stamps_for(
    word: Seq<Card>,
    nfts: Seq<SecretDreamscapeNFT>,
    word_id: u16,
    callee: String,
) -> Seq<Effect>
    decreases word.len(),
{
    if word.len() == 0 {
        Seq::empty()
    } else {
        let rest = stamps_for(word.drop_last(), nfts, word_id, callee);
        match nft_for(nfts, word.last()) {
            Some(n) => rest.push(
                Effect::Stamp(StampHandleMsg::Stamp { nft_id: n.id, word_id, callee }),
            ),
            None => rest,
        }
    }
}

/// The word number that every stamp carries: the place of the empty text in
/// the dictionary, cut to sixteen bits, and nothing where the dictionary has
/// no empty entry.
pub open spec fn stamp_word_id(dict: Seq<Seq<u8>>) -> u16 {
    match first_index_of(dict, Seq::empty()) {
        Some(i) => (i as usize) as u16,
        None => 0,
    }
}

/// The session after the word has been laid down, before any settlement.
pub open spec fn put_applied(s: StateModel, seat: int, indexes: Seq<u8>, opened: bool) -> StateModel {
    let p = s.players[seat];
    StateModel {
        game_board: BoardModel {
            words: s.game_board.words.push(
                WordModel {
                    cards: picked(p.hand, s.game_board.river, indexes),
                    player_addr: p.addr,
                },
            ),
            ..s.game_board
        },
        players: s.players.update(
            seat,
            PlayerModel {
                opened_dictionary: opened,
                last_action: Some(PlayerAction::ChoseWord),
                hand: kept(p.hand, indexes),
                ..p
            },
        ),
        ..s
    }
}

/// A player without wagers.
pub open spec fn unstaked(p: PlayerModel) -> PlayerModel {
    PlayerModel { bet: 0, bet2: 0, ..p }
}

/// The seats of those who laid down the winning words.
pub open spec fn winner_seats(s: StateModel, dict: Seq<Seq<u8>>) -> Seq<int> {
    let winners = winning_words(s.game_board.words, dict);
    Seq::new(winners.len(), |k: int| seat_of(s.players, winners[k].player_addr@))
}

/// The session and the effects after the words have been settled: all
/// wagers are wiped, and the pot is paid to those who laid down the words
/// that share the highest score.
pub open spec fn settle_words_spec(s: StateModel, dict: Seq<Seq<u8>>) -> (StateModel, Seq<Effect>) {
    pay_spec(
        StateModel { players: Seq::new(s.players.len(), |i: int| unstaked(s.players[i])), ..s },
        winner_seats(s, dict),
    )
}

/// Whether the turn is settled now: there are as many words as players still
/// in the turn.
pub open spec fn all_words_in(s: StateModel) -> bool {
    s.game_board.words.len() == active_count(s.players)
}

/// The outcome of laying down a word.
pub open spec fn put_spec(
    s: StateModel,
    sender: String,
    indexes: Seq<u8>,
    opened: bool,
    dict: Seq<Seq<u8>>,
) -> Outcome {
    match put_refusal(s, sender@, indexes) {
        Some(e) => Err(e),
        None => {
            let seat = seat_of(s.players, sender@);
            let p = s.players[seat];
            let placed = put_applied(s, seat, indexes, opened);
            let stamps = stamps_for(
                picked(p.hand, s.game_board.river, indexes),
                p.nfts,
                stamp_word_id(dict),
                sender,
            );
            if all_words_in(placed) {
                let paid = settle_words_spec(placed, dict);
                Ok((paid.0, stamps + paid.1))
            } else {
                Ok((placed, stamps))
            }
        },
    }
}

/// A word that is laid down scores within `u16`; and where it settles the
/// turn, everybody who laid down a winning word still has a seat.
pub open spec fn put_fits(s: StateModel, sender: Seq<char>, indexes: Seq<u8>, dict: Seq<Seq<u8>>) -> bool {
    put_refusal(s, sender, indexes) is None ==> {
        let p = s.players[seat_of(s.players, sender)];
        let cards = picked(p.hand, s.game_board.river, indexes);
        let words = s.game_board.words.push(WordModel { cards, player_addr: p.addr });
        &&& raw_points(cards) <= u16::MAX
        &&& words.len() == active_count(s.players) ==> forall|k: int|
            0 <= k < winning_words(words, dict).len() ==> is_seated(
                s.players,
                (#[trigger] winning_words(words, dict)[k]).player_addr@,
            )
    }
}

/// Whether the list holds the byte.
pub fn contains_byte(list: &Vec<u8>, byte: u8) -> (found: bool)
    ensures
        found == list@.contains(byte),
{
    let mut i: usize = 0;
    while i < list.len()
        invariant
            i <= list.len(),
            forall|j: int| 0 <= j < i ==> list@[j] != byte,
        decreases list.len() - i,
    {
        if list[i] == byte {
            return true;
        }
        i += 1;
    }
    false
}

/// The first collectible of the list that goes with the card, by its place.
pub fn find_nft(nfts: &Vec<SecretDreamscapeNFT>, card: Card) -> (place: Option<usize>)
    requires
        card.letter < 26,
    ensures
        match place {
            Some(i) => i < nfts@.len() && nft_for(nfts@, card) == Some(nfts@[i as int]),
            None => nft_for(nfts@, card) is None,
        },
{
    let letter = (card.letter + 65u8) as char;
    let mut i: usize = 0;
    assert(nfts@.take(0) =~= Seq::<SecretDreamscapeNFT>::empty());
    while i < nfts.len()
        invariant
            i <= nfts.len(),
            letter == (card.letter + 65) as char,
            nft_for(nfts@.take(i as int), card) is None,
        decreases nfts.len() - i,
    {
        let text = nfts[i].letter.as_str();
        let fits = text.unicode_len() == 1 && text.get_char(0) == letter && nfts[i].gold
            == card.gold;
        proof {
            assert(nfts@.take(i + 1).drop_last() =~= nfts@.take(i as int));
            assert(nfts@.take(i + 1).last() == nfts@[i as int]);
            if fits {
                assert(nfts@[i as int].letter@ =~= letter_name(card));
            }
            if nft_fits(nfts@[i as int], card) {
                assert(letter_name(card).len() == 1);
                assert(letter_name(card)[0] == letter);
            }
            assert(fits == nft_fits(nfts@[i as int], card));
        }
        if fits {
            proof {
                lemma_nft_for_prefix(nfts@, i + 1, card);
            }
            return Some(i);
        }
        i += 1;
    }
    assert(nfts@.take(nfts.len() as int) =~= nfts@);
    None
}

/// A collectible found in a prefix of the list is the one found in the list.
pub proof fn lemma_nft_for_prefix(nfts: Seq<SecretDreamscapeNFT>, k: int, card: Card)
    requires
        0 <= k <= nfts.len(),
        nft_for(nfts.take(k), card) is Some,
    ensures
        nft_for(nfts, card) == nft_for(nfts.take(k), card),
    decreases nfts.len(),
{
    if k == nfts.len() {
        assert(nfts.take(k) =~= nfts);
    } else {
        assert(nfts.drop_last().take(k) =~= nfts.take(k));
        lemma_nft_for_prefix(nfts.drop_last(), k, card);
    }
}

/// How many players have not folded.
pub fn count_active(state: &State) -> (count: usize)
    ensures
        count == active_count(state@.players),
{
    let ghost ps = state@.players;
    let mut count: usize = 0;
    let mut i: usize = 0;
    assert(ps.take(0) =~= Seq::<PlayerModel>::empty());
    while i < state.players.len()
        invariant
            i <= state.players.len(),
            ps == state@.players,
            ps.len() == state.players.len(),
            count <= i,
            count == active_count(ps.take(i as int)),
        decreases state.players.len() - i,
    {
        proof {
            assert(ps.take(i + 1).drop_last() =~= ps.take(i as int));
            assert(ps.take(i + 1).last() == state.players[i as int]@);
        }
        if !state.players[i].folded {
            count += 1;
        }
        i += 1;
    }
    assert(ps.take(state.players.len() as int) =~= ps);
    count
}

/// Whether the player has laid down a word this turn.
pub fn has_put_down(state: &State, addr: &String) -> (found: bool)
    ensures
        found == has_word(state@.game_board.words, addr@),
{
    let ghost ws = state@.game_board.words;
    let mut i: usize = 0;
    while i < state.game_board.words.len()
        invariant
            i <= state.game_board.words.len(),
            ws == state@.game_board.words,
            ws.len() == state.game_board.words.len(),
            forall|j: int| 0 <= j < i ==> (#[trigger] ws[j]).player_addr@ != addr@,
        decreases state.game_board.words.len() - i,
    {
        if state.game_board.words[i].player_addr == *addr {
            assert(ws[i as int].player_addr@ == addr@);
            return true;
        }
        i += 1;
    }
    false
}

/// Checks the indexes of a word and picks its cards.
pub fn pick_cards(hand: &Vec<Card>, river: &Vec<Card>, indexes: &Vec<u8>) -> (r: Result<
    Vec<Card>,
    GameError,
>)
    requires
        hand@.len() == 5,
        river@.len() == 5,
    ensures
        match r {
            Ok(word) => index_refusal(indexes@, 0) is None && word@ == picked(
                hand@,
                river@,
                indexes@,
            ),
            Err(e) => index_refusal(indexes@, 0) == Some(e),
        },
{
    let mut word: Vec<Card> = Vec::new();
    let mut k: usize = 0;
    while k < indexes.len()
        invariant
            k <= indexes.len(),
            hand@.len() == 5,
            river@.len() == 5,
            index_refusal(indexes@, 0) == index_refusal(indexes@, k as int),
            word@.len() == k,
            forall|j: int| 0 <= j < k ==> #[trigger] word@[j] == pick(hand@, river@, indexes@[j]),
        decreases indexes.len() - k,
    {
        let index = indexes[k];
        let mut j: usize = 0;
        let mut repeated = false;
        while j < k
            invariant
                j <= k,
                k < indexes.len(),
                index == indexes@[k as int],
                repeated == exists|m: int| 0 <= m < j && indexes@[m] == index,
            decreases k - j,
        {
            if indexes[j] == index {
                repeated = true;
            }
            j += 1;
        }
        if repeated {
            return Err(GameError::CantUseCardTwice);
        }
        if index > 4 && (index < 250 || index > 254) {
            return Err(GameError::NotInYourHand);
        }
        word.push(
            if index >= 250 {
                river[(index as usize) - 250]
            } else {
                hand[index as usize]
            },
        );
        k += 1;
    }
    assert(word@ =~= picked(hand@, river@, indexes@));
    Ok(word)
}

/// The picked cards are valid where hand and river are.
pub proof fn lemma_picked_valid(hand: Seq<Card>, river: Seq<Card>, indexes: Seq<u8>)
    requires
        hand.len() == 5,
        river.len() == 5,
        cards_valid(hand),
        cards_valid(river),
        index_refusal(indexes, 0) is None,
    ensures
        cards_valid(picked(hand, river, indexes)),
{
    assert forall|k: int| 0 <= k < indexes.len() implies selects_card(#[trigger] indexes[k]) by {
        lemma_index_accepted(indexes, 0, k);
    }
    assert forall|k: int| 0 <= k < picked(hand, river, indexes).len() implies (#[trigger] picked(
        hand,
        river,
        indexes,
    )[k]).letter < 26 by {
        assert(selects_card(indexes[k]));
        if indexes[k] >= 250 {
            assert(river[indexes[k] - 250].letter < 26);
        } else {
            assert(hand[indexes[k] as int].letter < 26);
        }
    }
}

/// Indexes that are not turned down select a card each and never repeat.
pub proof fn lemma_index_accepted(indexes: Seq<u8>, from: int, k: int)
    requires
        0 <= from <= k < indexes.len(),
        index_refusal(indexes, from) is None,
    ensures
        selects_card(indexes[k]),
        forall|j: int| 0 <= j < k ==> indexes[j] != indexes[k],
    decreases k - from,
{
    if from < k {
        lemma_index_accepted(indexes, from + 1, k);
    }
}

/// The cards of the hand that no index selects.
pub fn keep_cards(hand: &Vec<Card>, indexes: &Vec<u8>) -> (rest: Vec<Card>)
    requires
        hand@.len() <= 255,
    ensures
        rest@ == kept(hand@, indexes@),
{
    let mut rest: Vec<Card> = Vec::new();
    let mut i: usize = 0;
    assert(hand@.take(0) =~= Seq::<Card>::empty());
    while i < hand.len()
        invariant
            i <= hand.len(),
            hand@.len() <= 255,
            rest@ == kept(hand@.take(i as int), indexes@),
        decreases hand.len() - i,
    {
        proof {
            assert(hand@.take(i + 1).drop_last() =~= hand@.take(i as int));
            assert(hand@.take(i + 1).last() == hand@[i as int]);
        }
        if !contains_byte(indexes, i as u8) {
            rest.push(hand[i]);
        }
        i += 1;
    }
    assert(hand@.take(hand.len() as int) =~= hand@);
    rest
}

/// The stamps that the word earns the player at `seat`.
pub fn collect_stamps(state: &State, seat: usize, word: &Vec<Card>, word_id: u16, callee: &String) -> (stamps:
    Vec<Effect>)
    requires
        seat < state@.players.len(),
        cards_valid(word@),
    ensures
        stamps@ == stamps_for(word@, state@.players[seat as int].nfts, word_id, *callee),
{
    let ghost nfts = state@.players[seat as int].nfts;
    let mut stamps: Vec<Effect> = Vec::new();
    let mut i: usize = 0;
    assert(word@.take(0) =~= Seq::<Card>::empty());
    while i < word.len()
        invariant
            i <= word.len(),
            seat < state.players.len(),
            nfts == state.players[seat as int].nfts@,
            cards_valid(word@),
            stamps@ == stamps_for(word@.take(i as int), nfts, word_id, *callee),
        decreases word.len() - i,
    {
        proof {
            assert(word@.take(i + 1).drop_last() =~= word@.take(i as int));
            assert(word@.take(i + 1).last() == word@[i as int]);
        }
        match find_nft(&state.players[seat].nfts, word[i]) {
            Some(n) => {
                stamps.push(
                    Effect::Stamp(
                        StampHandleMsg::Stamp {
                            nft_id: state.players[seat].nfts[n].id.clone(),
                            word_id,
                            callee: callee.clone(),
                        },
                    ),
                );
            },
            None => {},
        }
        i += 1;
    }
    assert(word@.take(word.len() as int) =~= word@);
    stamps
}

/// Settles the turn on the words that lie on the table: wipes all wagers and
/// pays the pot to those who laid down the words with the highest score.
pub fn settle_words(state: &mut State, dict: &Dictionary) -> (effects: Vec<Effect>)
    requires
        addresses_distinct(old(state)@.players),
        old(state)@.game_board.rake_percentage <= 100,
        old(state)@.game_board.pool + total_chips(old(state)@.players) <= u64::MAX,
        old(state)@.game_board.words.len() > 0,
        forall|k: int|
            0 <= k < old(state)@.game_board.words.len() ==> (
            #[trigger] old(state)@.game_board.words[k]).wf(),
        forall|k: int|
            0 <= k < winning_words(old(state)@.game_board.words, dict@).len() ==> is_seated(
                old(state)@.players,
                (#[trigger] winning_words(old(state)@.game_board.words, dict@)[k]).player_addr@,
            ),
    ensures
        (final(state)@, effects@) == settle_words_spec(old(state)@, dict@),
{
    let ghost s0 = state@;
    let ghost champions = winning_words(s0.game_board.words, dict@);
    let winners = get_winners_for_turn(state, dict);
    proof {
        lemma_winning_words(s0.game_board.words, dict@);
        assert(word_models(winners@).len() == winners@.len());
    }
    let mut winner_indexes: Vec<usize> = Vec::new();
    let mut k: usize = 0;
    while k < winners.len()
        invariant
            k <= winners.len(),
            state@ == s0,
            addresses_distinct(s0.players),
            word_models(winners@) == champions,
            winners@.len() == champions.len(),
            forall|m: int|
                0 <= m < champions.len() ==> is_seated(
                    s0.players,
                    (#[trigger] champions[m]).player_addr@,
                ),
            winner_indexes@.len() == k,
            forall|m: int|
                0 <= m < k ==> (#[trigger] winner_indexes@[m]) < s0.players.len()
                    && winner_indexes@[m] as int == seat_of(s0.players, champions[m].player_addr@),
        decreases winners.len() - k,
    {
        proof {
            assert(champions[k as int] == winners@[k as int]@);
            assert(is_seated(s0.players, champions[k as int].player_addr@));
        }
        let seat = find_player(state, &winners[k].player_addr);
        winner_indexes.push(seat.unwrap());
        k += 1;
    }
    assert(seats_of(winner_indexes@) =~= winner_seats(s0, dict@));
    let mut i: usize = 0;
    while i < state.players.len()
        invariant
            i <= state.players.len(),
            state.players.len() == s0.players.len(),
            state@ == (StateModel { players: state@.players, ..s0 }),
            forall|j: int| 0 <= j < i ==> #[trigger] state@.players[j] == unstaked(s0.players[j]),
            forall|j: int| i <= j < s0.players.len() ==> #[trigger] state@.players[j] == s0.players[j],
        decreases state.players.len() - i,
    {
        let ghost prev = state@.players;
        state.players[i].bet = 0;
        state.players[i].bet2 = 0;
        proof {
            assert forall|j: int| 0 <= j < s0.players.len() && j != i implies #[trigger] state@.players[j]
                == prev[j] by {}
            assert(state@.players[i as int] == unstaked(prev[i as int]));
        }
        i += 1;
    }
    proof {
        let cleared = Seq::new(s0.players.len(), |i: int| unstaked(s0.players[i]));
        assert(state@.players =~= cleared);
        lemma_chips_agree(cleared, s0.players);
    }
    give_winners_their_money(state, winner_indexes)
}

/// A player lays down a word made of cards of the hand and of the river.
/// Once every player still in the turn has laid down a word, the turn is
/// settled.
pub fn put_down_card(
    state: &mut State,
    env: &Env,
    indexes: Vec<u8>,
    opened_dictionary: bool,
    dict: &Dictionary,
) -> (r: Result<Vec<Effect>, GameError>)
    requires
        old(state).wf(),
        put_fits(old(state)@, env.sender@, indexes@, dict@),
    ensures
        outcome_of(r, final(state)@) == put_spec(
            old(state)@,
            env.sender,
            indexes@,
            opened_dictionary,
            dict@,
        ),
        r is Err ==> *final(state) == *old(state),
        r is Ok ==> final(state).wf(),
{
    let ghost s0 = state@;
    proof {
        crate::wellformed::lemma_put_wf(s0, env.sender, indexes@, opened_dictionary, dict@);
    }
    if state.players.len() < 2 {
        return Err(GameError::NotInGame);
    }
    let seat = match find_player(state, &env.sender) {
        Some(i) => i,
        None => {
            return Err(GameError::NotInGame);
        },
    };
    if state.game_board.round != GameRound::Choice {
        return Err(GameError::CantPutCardAtTheMoment);
    }
    if state.players[seat].folded {
        return Err(GameError::CantPutCardIfFolded);
    }
    if has_put_down(state, &state.players[seat].addr) {
        return Err(GameError::AlreadyPutDown);
    }
    let ghost p = s0.players[seat as int];
    proof {
        assert(p.hand_ok(s0.game_board.words));
        assert(p.hand.len() == 5);
        assert(state.players[seat as int].hand@ == p.hand);
    }
    let word = match pick_cards(&state.players[seat].hand, &state.game_board.river, &indexes) {
        Ok(w) => w,
        Err(e) => {
            return Err(e);
        },
    };
    proof {
        lemma_picked_valid(p.hand, s0.game_board.river, indexes@);
    }
    let new_hand = keep_cards(&state.players[seat].hand, &indexes);
    let empty_text: Vec<u8> = Vec::new();
    let word_id = match find_word_id(dict, &empty_text) {
        Some(id) => id as u16,
        None => 0,
    };
    assert(empty_text@ =~= Seq::<u8>::empty());
    assert(word_id == stamp_word_id(dict@));
    let mut messages = collect_stamps(state, seat, &word, word_id, &env.sender);
    let ghost stamps = messages@;
    let ghost cards = word@;
    let addr = state.players[seat].addr.clone();
    let ghost old_words = state.game_board.words@;
    state.game_board.words.push(Word { cards: word, player_addr: addr });
    state.players[seat].opened_dictionary = opened_dictionary;
    state.players[seat].last_action = Some(PlayerAction::ChoseWord);
    state.players[seat].hand = new_hand;
    let ghost placed = put_applied(s0, seat as int, indexes@, opened_dictionary);
    proof {
        assert(state@.game_board.words =~= placed.game_board.words);
        assert(state@.players =~= placed.players);
        assert(state@ == placed);
    }
    proof {
        lemma_totals_agree(placed.players, s0.players);
    }
    let active = count_active(state);
    if state.game_board.words.len() == active {
        proof {
            lemma_total_chips_update(s0.players, seat as int, placed.players[seat as int]);
            assert forall|i: int, j: int| 0 <= i < j < placed.players.len() implies (
            #[trigger] placed.players[i]).addr@ != (#[trigger] placed.players[j]).addr@ by {
                assert(placed.players[i].addr == s0.players[i].addr);
                assert(placed.players[j].addr == s0.players[j].addr);
            }
            assert forall|k: int| 0 <= k < placed.game_board.words.len() implies (
            #[trigger] placed.game_board.words[k]).wf() by {
                if k < s0.game_board.words.len() {
                    assert(s0.game_board.words[k].wf());
                }
            }
            assert forall|k: int|
                0 <= k < winning_words(placed.game_board.words, dict@).len() implies is_seated(
                placed.players,
                (#[trigger] winning_words(placed.game_board.words, dict@)[k]).player_addr@,
            ) by {
                let addr = winning_words(placed.game_board.words, dict@)[k].player_addr@;
                assert(is_seated(s0.players, addr));
                let c = seat_of(s0.players, addr);
                assert(placed.players[c].addr == s0.players[c].addr);
            }
        }
        let mut transfers = settle_words(state, dict);
        let ghost paid = transfers@;
        messages.append(&mut transfers);
        assert(messages@ =~= stamps + paid);
    }
    Ok(messages)
}

} // verus!
