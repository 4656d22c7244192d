//! The session aggregate, its parts, and the mathematical model of each.
//!
//! Every type that owns a `Vec` has a model in which the `Vec` is a `Seq`.
//! Text (addresses, hashes, identifiers) is carried into the model as it is;
//! two texts name the same thing when their views agree.

use vstd::prelude::*;

use crate::contract::SecretDreamscapeNFT;
use crate::utils::cards::raw_points;

verus! {

/// A letter card. `letter` counts from 0 for `A` to 25 for `Z`.
#[derive(Clone, Copy, Debug, PartialEq, Eq, Structural)]
pub struct Card {
    pub letter: u8,
    pub gold: bool,
}

/// The betting phase a turn is in.
#[derive(Clone, Copy, Debug, PartialEq, Eq, Structural)]
pub enum GameRound {
    /// No turn has started: fewer than two players have ever sat down.
    NotStarted,
    /// The river is hidden; every player bets or checks.
    Blind,
    /// Bets of the blind phase differ; the others match or fold.
    Matching,
    /// The river is shown; every player bets or checks again.
    Flop,
    /// Bets of the flop phase differ; the others match or fold.
    Matching2,
    /// The players lay down their words.
    Choice,
}

/// What a player did last in the current phase.
#[derive(Clone, Copy, Debug, PartialEq, Eq, Structural)]
pub enum PlayerAction {
    Checked,
    ChoseWord,
    Folded,
    MatchedBet,
    SentBet(u64),
}

/// A player at the table. `bet` and `bet2` are the wagers of the first and
/// of the second betting phase of the turn; `chips` is what the player has
/// left to wager.
#[derive(Debug)]
pub struct Player {
    pub addr: String,
    pub bet: u64,
    pub bet2: u64,
    pub checked: bool,
    pub checked2: bool,
    pub chips: u64,
    pub folded: bool,
    pub hand: Vec<Card>,
    pub hp: u8,
    pub last_action: Option<PlayerAction>,
    pub nfts: Vec<SecretDreamscapeNFT>,
    pub opened_dictionary: bool,
    pub secret: u64,
}

/// A word that a player has laid down this turn.
#[derive(Debug)]
pub struct Word {
    pub cards: Vec<Card>,
    pub player_addr: String,
}

/// What lies on the table during a turn: the pot, the river, the words, and
/// the phase the turn is in.
#[derive(Debug)]
pub struct GameBoard {
    pub pool: u64,
    pub rake_percentage: u64,
    pub river: Vec<Card>,
    pub round: GameRound,
    pub turn: u8,
    pub winner_for_turn: Option<String>,
    pub words: Vec<Word>,
}

/// A session: the players in join order, the draw pile, the board, and what
/// the session was set up with. `winner` closes the session once it is set.
#[derive(Debug)]
pub struct State {
    pub can_join: bool,
    pub deck: Vec<Card>,
    pub game_board: GameBoard,
    pub jackpot_addr: String,
    pub jackpot_hash: String,
    pub level_design: u64,
    pub max_buy: u64,
    pub min_buy: u64,
    pub password: Option<String>,
    pub players: Vec<Player>,
    pub stamp_addr: String,
    pub stamp_hash: String,
    pub started_time: u64,
    pub winner: Option<String>,
}

/// Model of [`Player`].
pub struct PlayerModel {
    pub addr: String,
    pub bet: u64,
    pub bet2: u64,
    pub checked: bool,
    pub checked2: bool,
    pub chips: u64,
    pub folded: bool,
    pub hand: Seq<Card>,
    pub hp: u8,
    pub last_action: Option<PlayerAction>,
    pub nfts: Seq<SecretDreamscapeNFT>,
    pub opened_dictionary: bool,
    pub secret: u64,
}

/// Model of [`Word`].
pub struct WordModel {
    pub cards: Seq<Card>,
    pub player_addr: String,
}

/// Model of [`GameBoard`].
pub struct BoardModel {
    pub pool: u64,
    pub rake_percentage: u64,
    pub river: Seq<Card>,
    pub round: GameRound,
    pub turn: u8,
    pub winner_for_turn: Option<String>,
    pub words: Seq<WordModel>,
}

/// Model of [`State`].
pub struct StateModel {
    pub can_join: bool,
    pub deck: Seq<Card>,
    pub game_board: BoardModel,
    pub jackpot_addr: String,
    pub jackpot_hash: String,
    pub level_design: u64,
    pub max_buy: u64,
    pub min_buy: u64,
    pub password: Option<String>,
    pub players: Seq<PlayerModel>,
    pub stamp_addr: String,
    pub stamp_hash: String,
    pub started_time: u64,
    pub winner: Option<String>,
}

impl View for Player {
    type V = PlayerModel;

    open spec fn view(&self) -> PlayerModel {
        PlayerModel {
            addr: self.addr,
            bet: self.bet,
            bet2: self.bet2,
            checked: self.checked,
            checked2: self.checked2,
            chips: self.chips,
            folded: self.folded,
            hand: self.hand@,
            hp: self.hp,
            last_action: self.last_action,
            nfts: self.nfts@,
            opened_dictionary: self.opened_dictionary,
            secret: self.secret,
        }
    }
}

impl View for Word {
    type V = WordModel;

    open spec fn view(&self) -> WordModel {
        WordModel { cards: self.cards@, player_addr: self.player_addr }
    }
}

/// The models of the players of a list, in its order.
pub open spec fn player_models(players: Seq<Player>) -> Seq<PlayerModel> {
    players.map_values(|p: Player| p@)
}

/// The models of the words of a list, in its order.
pub open spec fn word_models(words: Seq<Word>) -> Seq<WordModel> {
    words.map_values(|w: Word| w@)
}

impl View for GameBoard {
    type V = BoardModel;

    open spec fn view(&self) -> BoardModel {
        BoardModel {
            pool: self.pool,
            rake_percentage: self.rake_percentage,
            river: self.river@,
            round: self.round,
            turn: self.turn,
            winner_for_turn: self.winner_for_turn,
            words: word_models(self.words@),
        }
    }
}

impl View for State {
    type V = StateModel;

    open spec fn view(&self) -> StateModel {
        StateModel {
            can_join: self.can_join,
            deck: self.deck@,
            game_board: self.game_board@,
            jackpot_addr: self.jackpot_addr,
            jackpot_hash: self.jackpot_hash,
            level_design: self.level_design,
            max_buy: self.max_buy,
            min_buy: self.min_buy,
            password: self.password,
            players: player_models(self.players@),
            stamp_addr: self.stamp_addr,
            stamp_hash: self.stamp_hash,
            started_time: self.started_time,
            winner: self.winner,
        }
    }
}

/// Every card of the sequence carries a letter of the alphabet.
pub open spec fn cards_valid(cards: Seq<Card>) -> bool {
    forall|i: int| 0 <= i < cards.len() ==> (#[trigger] cards[i]).letter < 26
}

/// The chips of all players together.
pub open spec fn total_chips(players: Seq<PlayerModel>) -> nat
    decreases players.len(),
{
    if players.len() == 0 {
        0
    } else {
        total_chips(players.drop_last()) + players.last().chips as nat
    }
}

/// The wagers of all players together, both phases.
pub open spec fn total_bets(players: Seq<PlayerModel>) -> nat
    decreases players.len(),
{
    if players.len() == 0 {
        0
    } else {
        total_bets(players.drop_last()) + players.last().bet as nat + players.last().bet2 as nat
    }
}

/// Some player of the list has this address.
pub open spec fn is_seated(players: Seq<PlayerModel>, addr: Seq<char>) -> bool {
    exists|i: int| 0 <= i < players.len() && (#[trigger] players[i]).addr@ == addr
}

/// The seat of the player with this address. Meaningful where `is_seated` holds.
pub open spec fn seat_of(players: Seq<PlayerModel>, addr: Seq<char>) -> int {
    choose|i: int| 0 <= i < players.len() && (#[trigger] players[i]).addr@ == addr
}

/// No two players of the list share an address.
pub open spec fn addresses_distinct(players: Seq<PlayerModel>) -> bool {
    forall|i: int, j: int|
        0 <= i < j < players.len() ==> (#[trigger] players[i]).addr@ != (#[trigger] players[j]).addr@
}

/// Some word of the list was laid down by this address.
pub open spec fn has_word(words: Seq<WordModel>, addr: Seq<char>) -> bool {
    exists|k: int| 0 <= k < words.len() && (#[trigger] words[k]).player_addr@ == addr
}

/// The number of players of the list that have not folded.
pub open spec fn active_count(players: Seq<PlayerModel>) -> nat
    decreases players.len(),
{
    if players.len() == 0 {
        0
    } else {
        active_count(players.drop_last()) + if players.last().folded {
            0nat
        } else {
            1nat
        }
    }
}

impl PlayerModel {
    /// The hand holds valid cards, five at most, and exactly none or five while
    /// the player still owes a word.
    pub open spec fn hand_ok(self, words: Seq<WordModel>) -> bool {
        &&& cards_valid(self.hand)
        &&& self.hand.len() <= 5
        &&& !has_word(words, self.addr@) ==> self.hand.len() == 0 || self.hand.len() == 5
    }
}

impl WordModel {
    /// The cards are valid and their score fits the score's type.
    pub open spec fn wf(self) -> bool {
        &&& cards_valid(self.cards)
        &&& raw_points(self.cards) <= u16::MAX
    }
}

impl StateModel {
    /// The session with another draw pile and everything else as it is.
    pub open spec fn with_deck(self, deck: Seq<Card>) -> StateModel {
        StateModel { deck, ..self }
    }

    /// What holds of every session the engine hands out, and what it asks of
    /// every session it is handed.
    pub open spec fn wf(self) -> bool {
        self.table_ok() && self.money_ok()
    }

    /// The chips and wagers of the session add up: the rake is a percentage,
    /// pot and chips together fit `u64`, so do all wagers together, and while
    /// the turn has no winner the wagers are covered by the pot.
    pub open spec fn money_ok(self) -> bool {
        &&& self.game_board.rake_percentage <= 100
        &&& self.game_board.pool + total_chips(self.players) <= u64::MAX
        &&& total_bets(self.players) <= u64::MAX
        &&& self.game_board.winner_for_turn is None ==> total_bets(self.players)
            <= self.game_board.pool
    }

    /// The table is in order: at most four players with distinct addresses,
    /// valid cards everywhere, full hands for those who still owe a word, a
    /// river of five once a turn has started, and a started turn once two
    /// players sit.
    pub open spec fn table_ok(self) -> bool {
        &&& self.players.len() <= 4
        &&& addresses_distinct(self.players)
        &&& cards_valid(self.deck)
        &&& cards_valid(self.game_board.river)
        &&& forall|i: int|
            0 <= i < self.players.len() ==> (#[trigger] self.players[i]).hand_ok(
                self.game_board.words,
            )
        &&& forall|i: int|
            0 <= i < self.players.len() && self.players.len() >= 2 && !has_word(
                self.game_board.words,
                (#[trigger] self.players[i]).addr@,
            ) ==> self.players[i].hand.len() == 5
        &&& forall|k: int|
            0 <= k < self.game_board.words.len() ==> (#[trigger] self.game_board.words[k]).wf()
        &&& self.game_board.round != GameRound::NotStarted ==> self.game_board.river.len() == 5
        &&& self.players.len() >= 2 ==> self.game_board.round != GameRound::NotStarted
    }
}

impl State {
    /// The session's model is well formed.
    pub open spec fn wf(&self) -> bool {
        self@.wf()
    }
}

/// Replacing one player changes the chips of all by the difference.
pub proof fn lemma_total_chips_update(players: Seq<PlayerModel>, i: int, p: PlayerModel)
    requires
        0 <= i < players.len(),
    ensures
        total_chips(players.update(i, p)) == total_chips(players) - players[i].chips + p.chips,
        players[i].chips <= total_chips(players),
    decreases players.len(),
{
    if i == players.len() - 1 {
        assert(players.update(i, p).drop_last() =~= players.drop_last());
    } else {
        assert(players.update(i, p).drop_last() =~= players.drop_last().update(i, p));
        lemma_total_chips_update(players.drop_last(), i, p);
    }
}

/// Replacing one player changes the wagers of all by the difference.
pub proof fn lemma_total_bets_update(players: Seq<PlayerModel>, i: int, p: PlayerModel)
    requires
        0 <= i < players.len(),
    ensures
        total_bets(players.update(i, p)) == total_bets(players) - players[i].bet - players[i].bet2
            + p.bet + p.bet2,
        players[i].bet + players[i].bet2 <= total_bets(players),
    decreases players.len(),
{
    if i == players.len() - 1 {
        assert(players.update(i, p).drop_last() =~= players.drop_last());
    } else {
        assert(players.update(i, p).drop_last() =~= players.drop_last().update(i, p));
        lemma_total_bets_update(players.drop_last(), i, p);
    }
}

/// Two lists of players that agree seat by seat on wagers wager the same.
pub proof fn lemma_bets_agree(a: Seq<PlayerModel>, b: Seq<PlayerModel>)
    requires
        a.len() == b.len(),
        forall|i: int|
            0 <= i < a.len() ==> (#[trigger] a[i]).bet == b[i].bet && a[i].bet2 == b[i].bet2,
    ensures
        total_bets(a) == total_bets(b),
    decreases a.len(),
{
    if a.len() > 0 {
        assert(a[a.len() - 1].bet == b[a.len() - 1].bet);
        assert forall|i: int| 0 <= i < a.drop_last().len() implies (#[trigger] a.drop_last()[i]).bet
            == b.drop_last()[i].bet && a.drop_last()[i].bet2 == b.drop_last()[i].bet2 by {
            assert(a.drop_last()[i] == a[i]);
        }
        lemma_bets_agree(a.drop_last(), b.drop_last());
    }
}

/// Two lists of players that agree seat by seat on chips hold the same chips.
pub proof fn lemma_chips_agree(a: Seq<PlayerModel>, b: Seq<PlayerModel>)
    requires
        a.len() == b.len(),
        forall|i: int| 0 <= i < a.len() ==> (#[trigger] a[i]).chips == b[i].chips,
    ensures
        total_chips(a) == total_chips(b),
    decreases a.len(),
{
    if a.len() > 0 {
        assert(a[a.len() - 1].chips == b[a.len() - 1].chips);
        assert forall|i: int| 0 <= i < a.drop_last().len() implies (#[trigger] a.drop_last()[i]).chips
            == b.drop_last()[i].chips by {
            assert(a.drop_last()[i] == a[i]);
        }
        lemma_chips_agree(a.drop_last(), b.drop_last());
    }
}

/// Players without wagers wager nothing together.
pub proof fn lemma_no_bets(a: Seq<PlayerModel>)
    requires
        forall|i: int| 0 <= i < a.len() ==> (#[trigger] a[i]).bet == 0 && a[i].bet2 == 0,
    ensures
        total_bets(a) == 0,
    decreases a.len(),
{
    if a.len() > 0 {
        assert(a[a.len() - 1].bet == 0);
        assert forall|i: int| 0 <= i < a.drop_last().len() implies (#[trigger] a.drop_last()[i]).bet
            == 0 && a.drop_last()[i].bet2 == 0 by {
            assert(a.drop_last()[i] == a[i]);
        }
        lemma_no_bets(a.drop_last());
    }
}

/// Where somebody is still in, some seat holds a player that has not folded.
pub proof fn lemma_active_exists(a: Seq<PlayerModel>)
    requires
        active_count(a) >= 1,
    ensures
        exists|i: int| 0 <= i < a.len() && !(#[trigger] a[i]).folded,
    decreases a.len(),
{
    if a.len() > 0 {
        if a.last().folded {
            lemma_active_exists(a.drop_last());
            let i = choose|i: int| 0 <= i < a.drop_last().len() && !(#[trigger] a.drop_last()[i]).folded;
            assert(a[i] == a.drop_last()[i]);
        } else {
            assert(!a[a.len() - 1].folded);
        }
    }
}

/// Taking one player out lowers the sums of chips and wagers by that player's.
pub proof fn lemma_totals_remove(players: Seq<PlayerModel>, i: int)
    requires
        0 <= i < players.len(),
    ensures
        total_chips(players.remove(i)) == total_chips(players) - players[i].chips,
        total_bets(players.remove(i)) == total_bets(players) - players[i].bet - players[i].bet2,
    decreases players.len(),
{
    if i == players.len() - 1 {
        assert(players.remove(i) =~= players.drop_last());
    } else {
        assert(players.remove(i).drop_last() =~= players.drop_last().remove(i));
        assert(players.remove(i).last() == players.last());
        lemma_totals_remove(players.drop_last(), i);
    }
}

/// A new player adds the own chips and wagers to the sums.
pub proof fn lemma_totals_push(players: Seq<PlayerModel>, p: PlayerModel)
    ensures
        total_chips(players.push(p)) == total_chips(players) + p.chips,
        total_bets(players.push(p)) == total_bets(players) + p.bet + p.bet2,
        active_count(players.push(p)) == active_count(players) + if p.folded {
            0nat
        } else {
            1nat
        },
{
    assert(players.push(p).drop_last() =~= players);
}

/// Two lists of players that agree seat by seat on chips, wagers and folding
/// agree on the sums of chips and wagers and on the number still in.
pub proof fn lemma_totals_agree(a: Seq<PlayerModel>, b: Seq<PlayerModel>)
    requires
        a.len() == b.len(),
        forall|i: int|
            0 <= i < a.len() ==> (#[trigger] a[i]).chips == b[i].chips && a[i].bet == b[i].bet
                && a[i].bet2 == b[i].bet2 && a[i].folded == b[i].folded,
    ensures
        total_chips(a) == total_chips(b),
        total_bets(a) == total_bets(b),
        active_count(a) == active_count(b),
    decreases a.len(),
{
    if a.len() > 0 {
        assert(a[a.len() - 1].chips == b[a.len() - 1].chips);
        assert forall|i: int| 0 <= i < a.drop_last().len() implies (#[trigger] a.drop_last()[i]).chips
            == b.drop_last()[i].chips && a.drop_last()[i].bet == b.drop_last()[i].bet
            && a.drop_last()[i].bet2 == b.drop_last()[i].bet2 && a.drop_last()[i].folded
            == b.drop_last()[i].folded by {
            assert(a.drop_last()[i] == a[i]);
        }
        lemma_totals_agree(a.drop_last(), b.drop_last());
    }
}

/// Under distinct addresses the seat of an address is the one place that
/// holds it.
pub proof fn lemma_seat_unique(players: Seq<PlayerModel>, i: int)
    requires
        addresses_distinct(players),
        0 <= i < players.len(),
    ensures
        is_seated(players, players[i].addr@),
        seat_of(players, players[i].addr@) == i,
{
    let addr = players[i].addr@;
    assert(is_seated(players, addr));
    let c = seat_of(players, addr);
    if c < i {
        assert(players[c].addr@ != players[i].addr@);
    } else if i < c {
        assert(players[i].addr@ != players[c].addr@);
    }
}

/// The seat of the first player with this address, if there is one.
pub fn find_player(state: &State, addr: &String) -> (seat: Option<usize>)
    ensures
        seat is Some <==> is_seated(state@.players, addr@),
        seat matches Some(i) ==> i < state@.players.len() && state@.players[i as int].addr@
            == addr@ && forall|j: int| 0 <= j < i ==> (#[trigger] state@.players[j]).addr@ != addr@,
        seat matches Some(i) ==> addresses_distinct(state@.players) ==> seat_of(
            state@.players,
            addr@,
        ) == i,
{
    let ghost ps = state@.players;
    let mut i: usize = 0;
    while i < state.players.len()
        invariant
            i <= state.players.len(),
            ps == state@.players,
            ps.len() == state.players.len(),
            forall|j: int| 0 <= j < i ==> (#[trigger] ps[j]).addr@ != addr@,
        decreases state.players.len() - i,
    {
        if state.players[i].addr == *addr {
            proof {
                assert(ps[i as int].addr@ == addr@);
                if addresses_distinct(ps) {
                    lemma_seat_unique(ps, i as int);
                }
            }
            return Some(i);
        }
        i += 1;
    }
    None
}

impl Clone for Word {
    fn clone(&self) -> (r: Self)
        ensures
            r@ == self@,
    {
        Word { cards: self.cards.clone(), player_addr: self.player_addr.clone() }
    }
}

/// A copy of a list of collectibles.
pub fn clone_nfts(nfts: &Vec<SecretDreamscapeNFT>) -> (r: Vec<SecretDreamscapeNFT>)
    ensures
        r@ == nfts@,
{
    let mut out: Vec<SecretDreamscapeNFT> = Vec::new();
    let mut i: usize = 0;
    while i < nfts.len()
        invariant
            i <= nfts.len(),
            out@ == nfts@.take(i as int),
        decreases nfts.len() - i,
    {
        out.push(nfts[i].clone());
        assert(nfts@.take(i + 1) =~= nfts@.take(i as int).push(nfts@[i as int]));
        i += 1;
    }
    assert(nfts@.take(nfts.len() as int) =~= nfts@);
    out
}

impl Clone for Player {
    fn clone(&self) -> (r: Self)
        ensures
            r@ == self@,
    {
        Player {
            addr: self.addr.clone(),
            bet: self.bet,
            bet2: self.bet2,
            checked: self.checked,
            checked2: self.checked2,
            chips: self.chips,
            folded: self.folded,
            hand: self.hand.clone(),
            hp: self.hp,
            last_action: self.last_action,
            nfts: clone_nfts(&self.nfts),
            opened_dictionary: self.opened_dictionary,
            secret: self.secret,
        }
    }
}

/// A copy of an optional text.
pub fn clone_text(text: &Option<String>) -> (r: Option<String>)
    ensures
        r == *text,
{
    match text {
        Some(t) => Some(t.clone()),
        None => None,
    }
}

/// A copy of a list of words.
pub fn clone_words(words: &Vec<Word>) -> (r: Vec<Word>)
    ensures
        word_models(r@) == word_models(words@),
{
    let mut out: Vec<Word> = Vec::new();
    let mut i: usize = 0;
    while i < words.len()
        invariant
            i <= words.len(),
            out@.len() == i,
            word_models(out@) == word_models(words@.take(i as int)),
        decreases words.len() - i,
    {
        let w = words[i].clone();
        let ghost prev = out@;
        out.push(w);
        assert forall|j: int| 0 <= j < out@.len() implies word_models(out@)[j] == word_models(
            words@.take(i + 1),
        )[j] by {
            if j < i {
                assert(word_models(prev)[j] == word_models(words@.take(i as int))[j]);
            }
        }
        assert(word_models(out@) =~= word_models(words@.take(i + 1)));
        i += 1;
    }
    assert(words@.take(words.len() as int) =~= words@);
    out
}

/// A copy of a list of players.
pub fn clone_players(players: &Vec<Player>) -> (r: Vec<Player>)
    ensures
        player_models(r@) == player_models(players@),
{
    let mut out: Vec<Player> = Vec::new();
    let mut i: usize = 0;
    while i < players.len()
        invariant
            i <= players.len(),
            out@.len() == i,
            player_models(out@) == player_models(players@.take(i as int)),
        decreases players.len() - i,
    {
        let p = players[i].clone();
        let ghost prev = out@;
        out.push(p);
        assert forall|j: int| 0 <= j < out@.len() implies player_models(out@)[j] == player_models(
            players@.take(i + 1),
        )[j] by {
            if j < i {
                assert(player_models(prev)[j] == player_models(players@.take(i as int))[j]);
            }
        }
        assert(player_models(out@) =~= player_models(players@.take(i + 1)));
        i += 1;
    }
    assert(players@.take(players.len() as int) =~= players@);
    out
}

impl Clone for GameBoard {
    fn clone(&self) -> (r: Self)
        ensures
            r@ == self@,
    {
        GameBoard {
            pool: self.pool,
            rake_percentage: self.rake_percentage,
            river: self.river.clone(),
            round: self.round,
            turn: self.turn,
            winner_for_turn: clone_text(&self.winner_for_turn),
            words: clone_words(&self.words),
        }
    }
}

impl Clone for State {
    fn clone(&self) -> (r: Self)
        ensures
            r@ == self@,
    {
        State {
            can_join: self.can_join,
            deck: self.deck.clone(),
            game_board: self.game_board.clone(),
            jackpot_addr: self.jackpot_addr.clone(),
            jackpot_hash: self.jackpot_hash.clone(),
            level_design: self.level_design,
            max_buy: self.max_buy,
            min_buy: self.min_buy,
            password: clone_text(&self.password),
            players: clone_players(&self.players),
            stamp_addr: self.stamp_addr.clone(),
            stamp_hash: self.stamp_hash.clone(),
            started_time: self.started_time,
            winner: clone_text(&self.winner),
        }
    }
}

} // verus!
