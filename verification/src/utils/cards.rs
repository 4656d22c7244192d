//! Scoring, the dictionary, the draw pile and the shuffled deck.

use vstd::arithmetic::power2::{lemma_pow2_pos, lemma_pow2_strictly_increases, lemma_pow2_unfold, pow2};
use vstd::prelude::*;
use vstd::string::StringSliceAdditionalSpecFns;

use crate::contract::Env;
use crate::game_state::{cards_valid, Card, PlayerModel, State};

verus! {

/// The points of each letter, from `A` to `Z`.
pub open spec fn points_table() -> Seq<nat> {
    seq![1, 3, 3, 2, 1, 4, 2, 4, 1, 8, 5, 1, 3, 1, 1, 3, 10, 1, 1, 1, 1, 4, 4, 8, 4, 8]
}

/// The points of one letter; nothing for a value that is no letter.
pub open spec fn letter_points(letter: u8) -> nat {
    if letter < 26 {
        points_table()[letter as int]
    } else {
        0
    }
}

/// The sum of the letter points of the cards.
pub open spec fn base_points(cards: Seq<Card>) -> nat
    decreases cards.len(),
{
    if cards.len() == 0 {
        0
    } else {
        base_points(cards.drop_last()) + letter_points(cards.last().letter)
    }
}

/// How many cards of the sequence meet the predicate.
pub open spec fn tally(cards: Seq<Card>, pred: spec_fn(Card) -> bool) -> nat
    decreases cards.len(),
{
    if cards.len() == 0 {
        0
    } else {
        tally(cards.drop_last(), pred) + if pred(cards.last()) {
            1nat
        } else {
            0nat
        }
    }
}

/// The predicate that holds of a gold card.
pub open spec fn is_gold() -> spec_fn(Card) -> bool {
    |c: Card| c.gold
}

/// The predicate that holds of a card with the letter.
pub open spec fn has_letter(letter: u8) -> spec_fn(Card) -> bool {
    |c: Card| c.letter == letter
}

/// How many cards of the sequence are gold.
pub open spec fn gold_count(cards: Seq<Card>) -> nat {
    tally(cards, is_gold())
}

/// How many cards of the sequence carry the letter.
pub open spec fn letter_total(cards: Seq<Card>, letter: u8) -> nat {
    tally(cards, has_letter(letter))
}

/// The letter points of the cards, doubled once for every gold card.
pub open spec fn raw_points(cards: Seq<Card>) -> nat {
    base_points(cards) * pow2(gold_count(cards))
}

/// The upper-case ASCII text that the cards spell.
pub open spec fn word_text(cards: Seq<Card>) -> Seq<u8> {
    Seq::new(cards.len(), |i: int| (cards[i].letter + 65) as u8)
}

/// The score of a word: its doubled points where the dictionary lists its
/// text, nothing otherwise.
pub open spec fn word_score(cards: Seq<Card>, dict: Seq<Seq<u8>>) -> nat {
    if dict.contains(word_text(cards)) {
        raw_points(cards)
    } else {
        0
    }
}

/// The lines of a text: the stretches between line feeds, the empty ones too.
pub open spec fn text_lines(text: Seq<u8>) -> Seq<Seq<u8>>
    decreases text.len(),
{
    if text.len() == 0 {
        seq![Seq::<u8>::empty()]
    } else {
        let before = text_lines(text.drop_last());
        if text.last() == 10u8 {
            before.push(Seq::<u8>::empty())
        } else {
            before.drop_last().push(before.last().push(text.last()))
        }
    }
}

/// The first place at which the list holds the word, if it holds it at all.
pub open spec fn first_index_of(list: Seq<Seq<u8>>, word: Seq<u8>) -> Option<int> {
    if list.contains(word) {
        Some(choose|i: int| 0 <= i < list.len() && list[i] == word && forall|j: int| 0 <= j < i ==> list[j] != word)
    } else {
        None
    }
}

/// The list of words that score. Its view is the sequence of its entries.
#[derive(Debug)]
pub struct Dictionary {
    pub words: Vec<Vec<u8>>,
}

impl View for Dictionary {
    type V = Seq<Seq<u8>>;

    open spec fn view(&self) -> Seq<Seq<u8>> {
        Seq::new(self.words@.len(), |i: int| self.words@[i]@)
    }
}

/// Whether two byte strings are the same.
pub fn bytes_equal(a: &Vec<u8>, b: &Vec<u8>) -> (same: bool)
    ensures
        same == (a@ == b@),
{
    if a.len() != b.len() {
        return false;
    }
    let mut i: usize = 0;
    while i < a.len()
        invariant
            i <= a.len(),
            a.len() == b.len(),
            forall|j: int| 0 <= j < i ==> a@[j] == b@[j],
        decreases a.len() - i,
    {
        if a[i] != b[i] {
            return false;
        }
        i += 1;
    }
    assert(a@ =~= b@);
    true
}

impl Dictionary {
    /// The dictionary whose entries are the lines of `text`.
    pub fn from_text(text: &str) -> (dict: Dictionary)
        ensures
            dict@ == text_lines(text.spec_bytes()),
    {
        let bytes = text.as_bytes();
        let mut words: Vec<Vec<u8>> = Vec::new();
        let mut current: Vec<u8> = Vec::new();
        let mut i: usize = 0;
        assert(bytes@.take(0) =~= Seq::<u8>::empty());
        while i < bytes.len()
            invariant
                i <= bytes.len(),
                Seq::new(words@.len(), |k: int| words@[k]@).push(current@) == text_lines(
                    bytes@.take(i as int),
                ),
            decreases bytes.len() - i,
        {
            let ghost before = text_lines(bytes@.take(i as int));
            let ghost listed = Seq::new(words@.len(), |k: int| words@[k]@);
            assert(bytes@.take(i + 1).drop_last() =~= bytes@.take(i as int));
            assert(before.drop_last() =~= listed);
            assert(before.last() == current@);
            let b = bytes[i];
            if b == 10u8 {
                words.push(current);
                current = Vec::new();
                assert(Seq::new(words@.len(), |k: int| words@[k]@) =~= before);
            } else {
                current.push(b);
                assert(Seq::new(words@.len(), |k: int| words@[k]@) =~= listed);
            }
            i += 1;
        }
        assert(bytes@.take(bytes.len() as int) =~= bytes@);
        words.push(current);
        let dict = Dictionary { words };
        assert(dict@ =~= text_lines(bytes@));
        dict
    }

    /// Whether the dictionary lists the word.
    pub fn contains(&self, word: &Vec<u8>) -> (found: bool)
        ensures
            found == self@.contains(word@),
    {
        find_word_id(self, word).is_some()
    }
}

/// The place of the word in the dictionary: the index of its first entry that
/// equals it.
pub fn find_word_id(dict: &Dictionary, word: &Vec<u8>) -> (id: Option<usize>)
    ensures
        id is Some <==> dict@.contains(word@),
        match id {
            Some(i) => first_index_of(dict@, word@) == Some(i as int),
            None => first_index_of(dict@, word@) is None,
        },
        id matches Some(i) ==> i < dict@.len() && dict@[i as int] == word@,
{
    let mut i: usize = 0;
    while i < dict.words.len()
        invariant
            i <= dict.words.len(),
            forall|j: int| 0 <= j < i ==> dict@[j] != word@,
        decreases dict.words.len() - i,
    {
        if bytes_equal(&dict.words[i], word) {
            proof {
                let list = dict@;
                let w = word@;
                assert(list[i as int] == w);
                assert(list.contains(w));
                let c = choose|c: int|
                    0 <= c < list.len() && list[c] == w && forall|j: int|
                        0 <= j < c ==> list[j] != w;
                assert(c == i);
            }
            return Some(i);
        }
        i += 1;
    }
    None
}

/// The points of one letter.
pub fn points_of(letter: u8) -> (points: u16)
    requires
        letter < 26,
    ensures
        points == letter_points(letter),
        1 <= points <= 10,
{
    let table: [u16; 26] = [
        1, 3, 3, 2, 1, 4, 2, 4, 1, 8, 5, 1, 3, 1, 1, 3, 10, 1, 1, 1, 1, 4, 4, 8, 4, 8,
    ];
    table[letter as usize]
}

/// The points of a prefix are at most those of the whole, and a gold card is
/// counted at most once per card.
pub proof fn lemma_points_prefix(cards: Seq<Card>, k: int)
    requires
        0 <= k <= cards.len(),
    ensures
        base_points(cards.take(k)) <= base_points(cards),
        gold_count(cards.take(k)) <= gold_count(cards),
        gold_count(cards) <= cards.len(),
    decreases cards.len(),
{
    if cards.len() == 0 {
        assert(cards.take(k) =~= cards);
    } else if k == cards.len() {
        assert(cards.take(k) =~= cards);
        lemma_points_prefix(cards.drop_last(), 0);
    } else {
        assert(cards.drop_last().take(k) =~= cards.take(k));
        lemma_points_prefix(cards.drop_last(), k);
    }
}

/// The score of a word.
///
/// The letter points are summed and doubled once for each gold card; a word
/// that the dictionary does not list scores nothing.
pub fn get_score_for_word(cards: &[Card], dict: &Dictionary) -> (score: u16)
    requires
        cards_valid(cards@),
        raw_points(cards@) <= u16::MAX,
    ensures
        score == word_score(cards@, dict@),
{
    let ghost all = cards@;
    let mut score: u16 = 0;
    let mut golds: usize = 0;
    let mut word: Vec<u8> = Vec::new();
    let mut i: usize = 0;
    proof {
        lemma_pow2_pos(gold_count(all));
        assert(base_points(all) <= raw_points(all)) by (nonlinear_arith)
            requires
                raw_points(all) == base_points(all) * pow2(gold_count(all)),
                pow2(gold_count(all)) >= 1,
        ;
        assert(all.take(0) =~= Seq::<Card>::empty());
    }
    while i < cards.len()
        invariant
            i <= cards.len(),
            all == cards@,
            cards_valid(all),
            base_points(all) <= u16::MAX,
            score == base_points(all.take(i as int)),
            golds == gold_count(all.take(i as int)),
            word@ == word_text(all.take(i as int)),
        decreases cards.len() - i,
    {
        let card = cards[i];
        proof {
            assert(all.take(i + 1).drop_last() =~= all.take(i as int));
            assert(all.take(i + 1).last() == card);
            lemma_points_prefix(all, i + 1);
            lemma_points_prefix(all.take(i + 1), i as int);
        }
        if card.gold {
            golds += 1;
        }
        score += points_of(card.letter);
        word.push(card.letter + 65u8);
        assert(word@ =~= word_text(all.take(i + 1)));
        i += 1;
    }
    assert(all.take(cards.len() as int) =~= all);
    let ghost base = base_points(all);
    let mut k: usize = 0;
    proof {
        assert(pow2(0) == 1) by {
            lemma_pow2_unfold(1);
            lemma_pow2_pos(0);
            vstd::arithmetic::power2::lemma2_to64();
        }
    }
    while k < golds
        invariant
            k <= golds,
            golds == gold_count(all),
            base == base_points(all),
            raw_points(all) <= u16::MAX,
            score == base * pow2(k as nat),
        decreases golds - k,
    {
        proof {
            lemma_pow2_unfold((k + 1) as nat);
            if k + 1 < golds {
                lemma_pow2_strictly_increases((k + 1) as nat, golds as nat);
            }
            assert(base * pow2((k + 1) as nat) <= base * pow2(golds as nat)) by (nonlinear_arith)
                requires
                    pow2((k + 1) as nat) <= pow2(golds as nat),
            ;
            assert(base * pow2((k + 1) as nat) == 2 * (base * pow2(k as nat))) by (nonlinear_arith)
                requires
                    pow2((k + 1) as nat) == 2 * pow2(k as nat),
            ;
        }
        score *= 2;
        k += 1;
    }
    if !dict.contains(&word) {
        return 0;
    }
    score
}

/// The cards that `n` draws take from the pile, in the order drawn: the front
/// card first, then the cards from the back of the pile towards its front,
/// because every draw fills the front slot from the back.
pub open spec fn drawn(deck: Seq<Card>, n: nat) -> Seq<Card> {
    Seq::new(
        n,
        |k: int|
            if k == 0 {
                deck[0]
            } else {
                deck[deck.len() - k]
            },
    )
}

/// The pile that `n` draws leave: the card that the last draw moved to the
/// front, then what was behind the front card and was never moved.
pub open spec fn remaining(deck: Seq<Card>, n: nat) -> Seq<Card> {
    if n == 0 {
        deck
    } else if n >= deck.len() {
        Seq::empty()
    } else {
        seq![deck[deck.len() - n]] + deck.subrange(1, deck.len() - n)
    }
}

/// Drawing keeps cards valid and moves exactly `n` of them.
pub proof fn lemma_draw_facts(deck: Seq<Card>, n: nat)
    requires
        n <= deck.len(),
    ensures
        drawn(deck, n).len() == n,
        remaining(deck, n).len() == deck.len() - n,
        cards_valid(deck) ==> cards_valid(drawn(deck, n)) && cards_valid(remaining(deck, n)),
{
    if cards_valid(deck) {
        assert forall|i: int| 0 <= i < drawn(deck, n).len() implies (#[trigger] drawn(
            deck,
            n,
        )[i]).letter < 26 by {
            if i == 0 {
                assert(deck[0].letter < 26);
            } else {
                assert(deck[deck.len() - i].letter < 26);
            }
        }
        assert forall|i: int| 0 <= i < remaining(deck, n).len() implies (#[trigger] remaining(
            deck,
            n,
        )[i]).letter < 26 by {
            if n == 0 {
                assert(deck[i].letter < 26);
            } else if i == 0 {
                assert(deck[deck.len() - n].letter < 26);
            } else {
                assert(deck[i].letter < 26);
            }
        }
    }
}

/// Takes `count` cards from the pile. Each draw takes the front card and moves
/// the last card of the pile into its place.
pub fn draw_cards(deck: &mut Vec<Card>, count: u8) -> (cards: Vec<Card>)
    requires
        count <= old(deck)@.len(),
    ensures
        cards@ == drawn(old(deck)@, count as nat),
        final(deck)@ == remaining(old(deck)@, count as nat),
{
    let ghost start = deck@;
    let mut cards: Vec<Card> = Vec::new();
    let mut k: u8 = 0;
    assert(cards@ =~= drawn(start, 0));
    while k < count
        invariant
            k <= count,
            count <= start.len(),
            cards@ == drawn(start, k as nat),
            deck@ == remaining(start, k as nat),
        decreases count - k,
    {
        let ghost pile = deck@;
        assert(pile.len() == start.len() - k) by {
            lemma_draw_facts(start, k as nat);
        }
        let card = deck.swap_remove(0);
        cards.push(card);
        assert(cards@ =~= drawn(start, (k + 1) as nat));
        assert(deck@ =~= remaining(start, (k + 1) as nat));
        k += 1;
    }
    cards
}

/// Takes `count` cards from the session's draw pile.
pub fn get_n_cards(state: &mut State, count: u8) -> (cards: Vec<Card>)
    requires
        count <= old(state).deck@.len(),
    ensures
        cards@ == drawn(old(state).deck@, count as nat),
        final(state)@ == old(state)@.with_deck(remaining(old(state).deck@, count as nat)),
{
    draw_cards(&mut state.deck, count)
}

/// The letters of the deck, each with the number of cards that carry it:
/// forty cards in all, twelve of the most frequent letter, two of each of the
/// three next, and one of every other letter.
pub open spec fn deck_table() -> Seq<(u8, u8)> {
    seq![
        (4u8, 12u8),
        (0u8, 2u8),
        (8u8, 2u8),
        (14u8, 2u8),
        (13u8, 1u8),
        (17u8, 1u8),
        (19u8, 1u8),
        (11u8, 1u8),
        (18u8, 1u8),
        (20u8, 1u8),
        (3u8, 1u8),
        (6u8, 1u8),
        (1u8, 1u8),
        (2u8, 1u8),
        (12u8, 1u8),
        (15u8, 1u8),
        (5u8, 1u8),
        (7u8, 1u8),
        (21u8, 1u8),
        (22u8, 1u8),
        (24u8, 1u8),
        (10u8, 1u8),
        (9u8, 1u8),
        (23u8, 1u8),
        (16u8, 1u8),
        (25u8, 1u8),
    ]
}

/// The cards of the first `entries` lines of the table before any shuffle:
/// line by line, as many plain cards of the line's letter as the line says.
pub open spec fn plain_deck(entries: nat) -> Seq<Card>
    decreases entries,
{
    if entries == 0 || entries > deck_table().len() {
        Seq::empty()
    } else {
        let line = deck_table()[entries - 1];
        plain_deck((entries - 1) as nat) + Seq::new(
            line.1 as nat,
            |i: int| Card { letter: line.0, gold: false },
        )
    }
}

/// What holds of every deck that is dealt from: it has the 40 cards of the
/// table, each letter as often as the table says, and exactly five of the
/// cards are gold.
pub open spec fn is_fresh_deck(deck: Seq<Card>) -> bool {
    &&& deck.len() == 40
    &&& cards_valid(deck)
    &&& forall|letter: u8| #[trigger]
        letter_total(deck, letter) == letter_total(plain_deck(26), letter)
    &&& gold_count(deck) == 5
}

/// The cards with the first five of them made gold.
pub open spec fn gilded(cards: Seq<Card>) -> Seq<Card> {
    Seq::new(
        cards.len(),
        |i: int|
            if i < 5 {
                Card { gold: true, ..cards[i] }
            } else {
                cards[i]
            },
    )
}

/// The order in which a shuffle with the generator leaves the cards.
pub uninterp spec fn shuffled(cards: Seq<Card>, rng: rand_chacha::ChaCha20Rng) -> Seq<Card>;

/// The generator as a shuffle of the cards with it leaves it.
pub uninterp spec fn rng_after_shuffle(
    cards: Seq<Card>,
    rng: rand_chacha::ChaCha20Rng,
) -> rand_chacha::ChaCha20Rng;

/// The deck that a generator yields: the cards of the table are shuffled, the
/// five cards that then lie in front are made gold, and the deck is shuffled
/// once more with the generator as the first shuffle left it.
pub open spec fn deck_of(rng: rand_chacha::ChaCha20Rng) -> Seq<Card> {
    shuffled(gilded(shuffled(plain_deck(26), rng)), rng_after_shuffle(plain_deck(26), rng))
}

/// Taking one card out lowers the tally by one where the card meets the
/// predicate, and leaves it otherwise.
pub proof fn lemma_tally_remove(cards: Seq<Card>, i: int, pred: spec_fn(Card) -> bool)
    requires
        0 <= i < cards.len(),
    ensures
        tally(cards, pred) == tally(cards.remove(i), pred) + if pred(cards[i]) {
            1nat
        } else {
            0nat
        },
    decreases cards.len(),
{
    if i == cards.len() - 1 {
        assert(cards.remove(i) =~= cards.drop_last());
    } else {
        assert(cards.remove(i).drop_last() =~= cards.drop_last().remove(i));
        assert(cards.remove(i).last() == cards.last());
        lemma_tally_remove(cards.drop_last(), i, pred);
    }
}

/// A tally does not depend on the order of the cards.
pub proof fn lemma_tally_permutation(a: Seq<Card>, b: Seq<Card>, pred: spec_fn(Card) -> bool)
    requires
        a.to_multiset() == b.to_multiset(),
    ensures
        tally(a, pred) == tally(b, pred),
    decreases a.len(),
{
    broadcast use vstd::seq_lib::group_to_multiset_ensures;

    if a.len() == 0 {
        assert(b.to_multiset().len() == 0);
        assert(b.len() == 0);
    } else {
        let x = a.last();
        assert(a.contains(x));
        assert(a.to_multiset().count(x) > 0);
        assert(b.contains(x));
        let j = choose|j: int| 0 <= j < b.len() && b[j] == x;
        assert(a.drop_last() =~= a.remove(a.len() - 1));
        assert(a.drop_last().to_multiset() == b.remove(j).to_multiset());
        lemma_tally_permutation(a.drop_last(), b.remove(j), pred);
        lemma_tally_remove(b, j, pred);
    }
}

/// Two sequences that agree place by place on the predicate have the same
/// tally.
pub proof fn lemma_tally_pointwise(a: Seq<Card>, b: Seq<Card>, pred: spec_fn(Card) -> bool)
    requires
        a.len() == b.len(),
        forall|i: int| 0 <= i < a.len() ==> pred(#[trigger] a[i]) == pred(b[i]),
    ensures
        tally(a, pred) == tally(b, pred),
    decreases a.len(),
{
    if a.len() > 0 {
        assert(pred(a[a.len() - 1]) == pred(b[a.len() - 1]));
        assert forall|i: int| 0 <= i < a.drop_last().len() implies pred(
            #[trigger] a.drop_last()[i],
        ) == pred(b.drop_last()[i]) by {
            assert(a.drop_last()[i] == a[i]);
        }
        lemma_tally_pointwise(a.drop_last(), b.drop_last(), pred);
    }
}

/// Where exactly the first `k` cards meet the predicate, the tally is `k`.
pub proof fn lemma_tally_front(cards: Seq<Card>, k: int, pred: spec_fn(Card) -> bool)
    requires
        0 <= k <= cards.len(),
        forall|i: int| 0 <= i < cards.len() ==> pred(#[trigger] cards[i]) == (i < k),
    ensures
        tally(cards, pred) == k,
    decreases cards.len(),
{
    if cards.len() > 0 {
        let rest = cards.drop_last();
        let k2 = if k == cards.len() {
            k - 1
        } else {
            k
        };
        assert(pred(cards[cards.len() - 1]) == (cards.len() - 1 < k));
        assert forall|i: int| 0 <= i < rest.len() implies pred(#[trigger] rest[i]) == (i < k2) by {
            assert(rest[i] == cards[i]);
        }
        lemma_tally_front(rest, k2, pred);
    }
}

/// The unshuffled deck holds valid plain cards.
pub proof fn lemma_plain_deck(entries: nat)
    requires
        entries <= 26,
    ensures
        cards_valid(plain_deck(entries)),
        forall|i: int| 0 <= i < plain_deck(entries).len() ==> !(#[trigger] plain_deck(entries)[i]).gold,
    decreases entries,
{
    if entries > 0 {
        lemma_plain_deck((entries - 1) as nat);
        let line = deck_table()[entries - 1];
        assert(line.0 < 26);
    }
}

/// The unshuffled deck has 40 cards.
pub proof fn lemma_plain_deck_len()
    ensures
        plain_deck(26).len() == 40,
{
    assert(plain_deck(0).len() == 0);
    assert(plain_deck(1).len() == 12);
    assert(plain_deck(2).len() == 14);
    assert(plain_deck(3).len() == 16);
    assert(plain_deck(4).len() == 18);
    assert(plain_deck(5).len() == 19);
    assert(plain_deck(6).len() == 20);
    assert(plain_deck(7).len() == 21);
    assert(plain_deck(8).len() == 22);
    assert(plain_deck(9).len() == 23);
    assert(plain_deck(10).len() == 24);
    assert(plain_deck(11).len() == 25);
    assert(plain_deck(12).len() == 26);
    assert(plain_deck(13).len() == 27);
    assert(plain_deck(14).len() == 28);
    assert(plain_deck(15).len() == 29);
    assert(plain_deck(16).len() == 30);
    assert(plain_deck(17).len() == 31);
    assert(plain_deck(18).len() == 32);
    assert(plain_deck(19).len() == 33);
    assert(plain_deck(20).len() == 34);
    assert(plain_deck(21).len() == 35);
    assert(plain_deck(22).len() == 36);
    assert(plain_deck(23).len() == 37);
    assert(plain_deck(24).len() == 38);
    assert(plain_deck(25).len() == 39);
}

/// A shuffled deck: the cards of the table are shuffled, the five cards that
/// then lie in front are made gold, and the deck is shuffled once more. The
/// deck is the one that the generator yields, and it is a fresh deck.
pub fn generate_deck(rng: rand_chacha::ChaCha20Rng) -> (deck: Vec<Card>)
    ensures
        deck@ == deck_of(rng),
        is_fresh_deck(deck@),
{
    let ghost start = rng;
    let mut rng = rng;
    let count_per_card: [(u8, u8); 26] = [
        (4, 12),
        (0, 2),
        (8, 2),
        (14, 2),
        (13, 1),
        (17, 1),
        (19, 1),
        (11, 1),
        (18, 1),
        (20, 1),
        (3, 1),
        (6, 1),
        (1, 1),
        (2, 1),
        (12, 1),
        (15, 1),
        (5, 1),
        (7, 1),
        (21, 1),
        (22, 1),
        (24, 1),
        (10, 1),
        (9, 1),
        (23, 1),
        (16, 1),
        (25, 1),
    ];
    assert(count_per_card@ =~= deck_table());
    let mut deck: Vec<Card> = Vec::new();
    let mut e: usize = 0;
    while e < 26
        invariant
            e <= 26,
            count_per_card@ == deck_table(),
            deck@ == plain_deck(e as nat),
        decreases 26 - e,
    {
        let (letter, count) = count_per_card[e];
        let ghost before = deck@;
        let mut c: u8 = 0;
        while c < count
            invariant
                c <= count,
                deck@ == before + Seq::new(c as nat, |i: int| Card { letter, gold: false }),
            decreases count - c,
        {
            deck.push(Card { letter, gold: false });
            assert(deck@ =~= before + Seq::new((c + 1) as nat, |i: int| Card { letter, gold: false }));
            c += 1;
        }
        e += 1;
    }
    let ghost plain = deck@;
    proof {
        lemma_plain_deck(26);
        lemma_plain_deck_len();
    }
    shuffle_cards(&mut deck, &mut rng);
    let ghost first = deck@;
    assert(first == shuffled(plain_deck(26), start));
    assert(rng == rng_after_shuffle(plain_deck(26), start));
    proof {
        broadcast use vstd::seq_lib::group_to_multiset_ensures;

        vstd::seq_lib::to_multiset_len(first);
        vstd::seq_lib::to_multiset_len(plain);
        assert(first.len() == 40);
        assert forall|i: int| 0 <= i < first.len() implies !(#[trigger] first[i]).gold
            && first[i].letter < 26 by {
            assert(first.contains(first[i]));
            assert(first.to_multiset().count(first[i]) > 0);
            assert(plain.contains(first[i]));
        }
    }
    let mut i: usize = 0;
    while i < 5
        invariant
            i <= 5,
            deck@.len() == 40,
            first.len() == 40,
            forall|k: int| 0 <= k < i ==> #[trigger] deck@[k] == (Card { gold: true, ..first[k] }),
            forall|k: int| i <= k < 40 ==> #[trigger] deck@[k] == first[k],
        decreases 5 - i,
    {
        deck[i].gold = true;
        i += 1;
    }
    let ghost marked = deck@;
    assert(marked =~= gilded(first));
    proof {
        lemma_tally_front(marked, 5, is_gold());
        assert forall|letter: u8| #[trigger]
            letter_total(marked, letter) == letter_total(plain, letter) by {
            lemma_tally_pointwise(marked, first, has_letter(letter));
            lemma_tally_permutation(first, plain, has_letter(letter));
        }
    }
    shuffle_cards(&mut deck, &mut rng);
    proof {
        broadcast use vstd::seq_lib::group_to_multiset_ensures;

        let last = deck@;
        vstd::seq_lib::to_multiset_len(last);
        vstd::seq_lib::to_multiset_len(marked);
        assert(last.len() == 40);
        assert forall|i: int| 0 <= i < last.len() implies (#[trigger] last[i]).letter < 26 by {
            assert(last.contains(last[i]));
            assert(last.to_multiset().count(last[i]) > 0);
            assert(marked.contains(last[i]));
        }
        lemma_tally_permutation(last, marked, is_gold());
        assert forall|letter: u8| #[trigger]
            letter_total(last, letter) == letter_total(plain, letter) by {
            lemma_tally_permutation(last, marked, has_letter(letter));
            assert(letter_total(marked, letter) == letter_total(plain, letter));
        }
    }
    deck
}

/// The eight bytes of a number, the most significant first.
pub open spec fn be_bytes(x: u64) -> Seq<u8> {
    Seq::new(8, |i: int| ((x >> (((7 - i) * 8) as u64)) & 0xff) as u8)
}

/// The secrets of the players, in join order.
pub open spec fn secrets_of(players: Seq<PlayerModel>) -> Seq<u64> {
    Seq::new(players.len(), |i: int| players[i].secret)
}

/// The bytes that seed the shuffle: the block time, then every secret in
/// order, each as eight big-endian bytes.
pub open spec fn seed_material(block_time: u64, secrets: Seq<u64>) -> Seq<u8>
    decreases secrets.len(),
{
    if secrets.len() == 0 {
        be_bytes(block_time)
    } else {
        seed_material(block_time, secrets.drop_last()) + be_bytes(secrets.last())
    }
}

/// Appends the eight big-endian bytes of `x`.
pub fn push_be_bytes(out: &mut Vec<u8>, x: u64)
    ensures
        final(out)@ == old(out)@ + be_bytes(x),
{
    out.push(((x >> 56) & 0xff) as u8);
    out.push(((x >> 48) & 0xff) as u8);
    out.push(((x >> 40) & 0xff) as u8);
    out.push(((x >> 32) & 0xff) as u8);
    out.push(((x >> 24) & 0xff) as u8);
    out.push(((x >> 16) & 0xff) as u8);
    out.push(((x >> 8) & 0xff) as u8);
    out.push(((x >> 0) & 0xff) as u8);
    assert(out@ =~= old(out)@ + be_bytes(x));
}

/// The SHA-256 digest of a byte string.
pub uninterp spec fn sha256_digest(data: Seq<u8>) -> Seq<u8>;

/// Calls `sha2::Sha256::digest`. The contract names the digest of the bytes
/// handed in and states its width of 32 bytes; the hash itself is not
/// verified here.
#[verifier::external_body]
fn sha256(data: &Vec<u8>) -> (digest: [u8; 32])
    ensures
        digest@ == sha256_digest(data@),
        digest@.len() == 32,
{
    <sha2::Sha256 as sha2::Digest>::digest(data.as_slice()).into()
}

#[verifier::external_type_specification]
#[verifier::external_body]
pub struct ExChaCha20Rng(rand_chacha::ChaCha20Rng);

/// The ChaCha20 generator in the state that a seed of 32 bytes puts it in.
pub uninterp spec fn seeded_rng(seed: Seq<u8>) -> rand_chacha::ChaCha20Rng;

/// Calls `rand_chacha::ChaCha20Rng::from_seed`. The contract names the
/// generator that the seed yields: the call builds it from the seed and from
/// nothing else. What the generator holds stays opaque here.
#[verifier::external_body]
fn rng_from_seed(seed: [u8; 32]) -> (rng: rand_chacha::ChaCha20Rng)
    ensures
        rng == seeded_rng(seed@),
{
    <rand_chacha::ChaCha20Rng as rand::SeedableRng>::from_seed(seed)
}

/// Calls `rand::seq::SliceRandom::shuffle` on the cards. The contract names
/// the order that comes out and the state that the generator is left in: the
/// call draws from the generator and from nothing else. It also states that
/// the cards are the same ones in some order, which holds of every sequence
/// of swaps.
#[verifier::external_body]
fn shuffle_cards(deck: &mut Vec<Card>, rng: &mut rand_chacha::ChaCha20Rng)
    ensures
        final(deck)@ == shuffled(old(deck)@, *old(rng)),
        *final(rng) == rng_after_shuffle(old(deck)@, *old(rng)),
        final(deck)@.to_multiset() == old(deck)@.to_multiset(),
{
    rand::seq::SliceRandom::shuffle(deck.as_mut_slice(), rng);
}

/// The seed of the session's shuffle: the digest of the block time and of the
/// secrets of the players that have joined, in join order.
pub fn get_seed(state: &State, env: &Env) -> (seed: [u8; 32])
    ensures
        seed@ == sha256_digest(seed_material(env.block_time, secrets_of(state@.players))),
{
    let mut material: Vec<u8> = Vec::new();
    push_be_bytes(&mut material, env.block_time);
    let ghost secrets = secrets_of(state@.players);
    let mut i: usize = 0;
    assert(secrets.take(0) =~= Seq::<u64>::empty());
    assert(material@ =~= seed_material(env.block_time, secrets.take(0)));
    while i < state.players.len()
        invariant
            i <= state.players.len(),
            secrets == secrets_of(state@.players),
            secrets.len() == state.players.len(),
            material@ == seed_material(env.block_time, secrets.take(i as int)),
        decreases state.players.len() - i,
    {
        push_be_bytes(&mut material, state.players[i].secret);
        proof {
            assert(secrets.take(i + 1).drop_last() =~= secrets.take(i as int));
            assert(secrets.take(i + 1).last() == state.players[i as int].secret);
        }
        i += 1;
    }
    assert(secrets.take(state.players.len() as int) =~= secrets);
    sha256(&material)
}

/// The generator that shuffles the session's deck: the one that the seed of
/// [`get_seed`] yields, so that the same block time and the same secrets in
/// the same join order always give the same generator.
pub fn get_rng(state: &State, env: &Env) -> (rng: rand_chacha::ChaCha20Rng)
    ensures
        rng == seeded_rng(
            sha256_digest(seed_material(env.block_time, secrets_of(state@.players))),
        ),
{
    rng_from_seed(get_seed(state, env))
}

} // verus!
