//! What a player may see of a session.

use vstd::prelude::*;

use crate::contract::GameError;
use crate::game_state::{
    active_count, clone_text, Card, GameRound, PlayerModel, State, StateModel, Word, WordModel,
};
use crate::utils::cards::{get_score_for_word, word_score, Dictionary};
use crate::words::count_active;

verus! {

/// A question about a session.
#[derive(Clone, Copy, Debug, PartialEq, Eq, Structural)]
pub enum QueryMsg {
    GetResult {  },
    CanJoin {  },
    GetGameState { secret: u64 },
}

/// What one player sees of the session.
#[derive(Debug)]
pub struct GameState {
    pub pool: u64,
    pub players: Vec<PlayerStatus>,
    pub turn: u8,
    pub round: GameRound,
    pub hand: Vec<Card>,
    pub river: Option<Vec<Card>>,
    pub words: Vec<WordView>,
    pub winner: Option<String>,
    pub level_design: u64,
}

/// A word as one player sees it.
#[derive(Debug)]
pub struct WordView {
    pub word: Option<Word>,
    pub points: u16,
    pub visible: bool,
}

/// What everybody sees of a player.
#[derive(Debug)]
pub struct PlayerStatus {
    pub hp: u8,
    pub bet: u64,
    pub addr: String,
    pub folded: bool,
}

/// Whether the session takes another player.
#[derive(Clone, Copy, Debug, PartialEq, Eq, Structural)]
pub struct CanJoinResponse {
    pub can_join: bool,
    pub started_time: u64,
    pub requires_password: bool,
}

/// The answer to a question.
#[derive(Debug)]
pub enum QueryAnswer {
    /// The winners of the session.
    Winners(Vec<String>),
    CanJoin(CanJoinResponse),
    GameState(GameState),
}

/// Model of [`WordView`].
pub struct WordViewModel {
    pub word: Option<WordModel>,
    pub points: u16,
    pub visible: bool,
}

/// Model of [`GameState`].
pub struct GameStateModel {
    pub pool: u64,
    pub players: Seq<PlayerStatus>,
    pub turn: u8,
    pub round: GameRound,
    pub hand: Seq<Card>,
    pub river: Option<Seq<Card>>,
    pub words: Seq<WordViewModel>,
    pub winner: Option<String>,
    pub level_design: u64,
}

impl View for WordView {
    type V = WordViewModel;

    open spec fn view(&self) -> WordViewModel {
        WordViewModel {
            word: match self.word {
                Some(w) => Some(w@),
                None => None,
            },
            points: self.points,
            visible: self.visible,
        }
    }
}

/// The models of the word views of a list, in its order.
pub open spec fn word_view_models(views: Seq<WordView>) -> Seq<WordViewModel> {
    Seq::new(views.len(), |i: int| views[i]@)
}

impl View for GameState {
    type V = GameStateModel;

    open spec fn view(&self) -> GameStateModel {
        GameStateModel {
            pool: self.pool,
            players: self.players@,
            turn: self.turn,
            round: self.round,
            hand: self.hand@,
            river: match self.river {
                Some(r) => Some(r@),
                None => None,
            },
            words: word_view_models(self.words@),
            winner: self.winner,
            level_design: self.level_design,
        }
    }
}

/// Whether the river is shown in this phase: from the flop on.
pub open spec fn river_shown(round: GameRound) -> bool {
    round == GameRound::Flop || round == GameRound::Matching2 || round == GameRound::Choice
}

/// What everybody sees of a player: the wager of the current main phase.
pub open spec fn status_of(p: PlayerModel, round: GameRound) -> PlayerStatus {
    PlayerStatus {
        hp: p.hp,
        addr: p.addr,
        bet: if river_shown(round) {
            p.bet2
        } else {
            p.bet
        },
        folded: p.folded,
    }
}

/// What everybody sees of the players, in seat order.
pub open spec fn statuses(s: StateModel) -> Seq<PlayerStatus> {
    Seq::new(s.players.len(), |i: int| status_of(s.players[i], s.game_board.round))
}

/// The seat of the first player with the secret, if there is one.
pub open spec fn holder_of(players: Seq<PlayerModel>, secret: u64) -> Option<int>
    decreases players.len(),
{
    if players.len() == 0 {
        None
    } else {
        match holder_of(players.drop_last(), secret) {
            Some(i) => Some(i),
            None => if players.last().secret == secret {
                Some(players.len() - 1)
            } else {
                None
            },
        }
    }
}

/// A word as a viewer sees it. Once all words are in, every word is shown
/// with its score. Before that, viewers see their own word with its score,
/// and of another word only who laid it down.
pub open spec fn word_seen(w: WordModel, all_in: bool, viewer: Seq<char>, dict: Seq<Seq<u8>>) -> WordViewModel {
    if all_in || w.player_addr@ == viewer {
        WordViewModel { word: Some(w), points: word_score(w.cards, dict) as u16, visible: true }
    } else {
        WordViewModel {
            word: Some(WordModel { cards: Seq::empty(), player_addr: w.player_addr }),
            points: 0,
            visible: false,
        }
    }
}

/// The words of the turn as the viewer at `seat` sees them: none outside the
/// choice phase.
pub open spec fn words_seen(s: StateModel, seat: int, dict: Seq<Seq<u8>>) -> Seq<WordViewModel> {
    if s.game_board.round != GameRound::Choice {
        Seq::empty()
    } else {
        Seq::new(
            s.game_board.words.len(),
            |k: int|
                word_seen(
                    s.game_board.words[k],
                    s.game_board.words.len() == active_count(s.players),
                    s.players[seat].addr@,
                    dict,
                ),
        )
    }
}

/// What the player with the secret sees of the session, or that nobody at
/// the table holds the secret.
pub open spec fn game_state_spec(s: StateModel, secret: u64, dict: Seq<Seq<u8>>) -> Result<
    GameStateModel,
    GameError,
> {
    match holder_of(s.players, secret) {
        None => Err(GameError::NotInGame),
        Some(seat) => Ok(
            GameStateModel {
                pool: s.game_board.pool,
                players: statuses(s),
                turn: s.game_board.turn,
                round: s.game_board.round,
                hand: s.players[seat].hand,
                river: if river_shown(s.game_board.round) {
                    Some(s.game_board.river)
                } else {
                    None
                },
                words: words_seen(s, seat, dict),
                winner: if s.winner is Some {
                    s.winner
                } else {
                    s.game_board.winner_for_turn
                },
                level_design: s.level_design,
            },
        ),
    }
}

/// The seat of the first player with the secret.
pub fn find_holder(state: &State, secret: u64) -> (seat: Option<usize>)
    ensures
        match seat {
            Some(i) => holder_of(state@.players, secret) == Some(i as int) && i
                < state@.players.len(),
            None => holder_of(state@.players, secret) is None,
        },
{
    let ghost ps = state@.players;
    let mut i: usize = 0;
    assert(ps.take(0) =~= Seq::<PlayerModel>::empty());
    while i < state.players.len()
        invariant
            i <= state.players.len(),
            ps == state@.players,
            ps.len() == state.players.len(),
            holder_of(ps.take(i as int), secret) is None,
        decreases state.players.len() - i,
    {
        proof {
            assert(ps.take(i + 1).drop_last() =~= ps.take(i as int));
            assert(ps.take(i + 1).last() == state.players[i as int]@);
        }
        if state.players[i].secret == secret {
            proof {
                lemma_holder_prefix(ps, i + 1, secret);
            }
            return Some(i);
        }
        i += 1;
    }
    assert(ps.take(state.players.len() as int) =~= ps);
    None
}

/// A holder found among the first seats is the holder at the table.
pub proof fn lemma_holder_prefix(players: Seq<PlayerModel>, k: int, secret: u64)
    requires
        0 <= k <= players.len(),
        holder_of(players.take(k), secret) is Some,
    ensures
        holder_of(players, secret) == holder_of(players.take(k), secret),
    decreases players.len(),
{
    if k == players.len() {
        assert(players.take(k) =~= players);
    } else {
        assert(players.drop_last().take(k) =~= players.take(k));
        lemma_holder_prefix(players.drop_last(), k, secret);
    }
}

/// Adds what everybody sees of the players.
pub fn get_stats_for_players(saved_state: &State, output_state: &mut GameState)
    ensures
        final(output_state)@ == (GameStateModel {
            players: old(output_state)@.players + statuses(saved_state@),
            ..old(output_state)@
        }),
{
    let ghost s = saved_state@;
    let ghost before = output_state@;
    let second = saved_state.game_board.round == GameRound::Flop || saved_state.game_board.round
        == GameRound::Matching2 || saved_state.game_board.round == GameRound::Choice;
    let mut i: usize = 0;
    while i < saved_state.players.len()
        invariant
            i <= saved_state.players.len(),
            s == saved_state@,
            s.players.len() == saved_state.players.len(),
            second == river_shown(s.game_board.round),
            output_state@ == (GameStateModel {
                players: before.players + statuses(s).take(i as int),
                ..before
            }),
        decreases saved_state.players.len() - i,
    {
        let player = &saved_state.players[i];
        let status = PlayerStatus {
            hp: player.hp,
            addr: player.addr.clone(),
            bet: if second {
                player.bet2
            } else {
                player.bet
            },
            folded: player.folded,
        };
        assert(status == status_of(s.players[i as int], s.game_board.round));
        output_state.players.push(status);
        assert(output_state@.players =~= before.players + statuses(s).take(i + 1));
        i += 1;
    }
    assert(statuses(s).take(saved_state.players.len() as int) =~= statuses(s));
}

/// Shows the hand of the player with the secret.
pub fn get_hand(secret: &u64, saved_state: &State, output_state: &mut GameState) -> (r: Result<
    (),
    GameError,
>)
    ensures
        match holder_of(saved_state@.players, *secret) {
            Some(seat) => r is Ok && final(output_state)@ == (GameStateModel {
                hand: saved_state@.players[seat].hand,
                ..old(output_state)@
            }),
            None => r == Err::<(), GameError>(GameError::NotInGame) && *final(output_state)
                == *old(output_state),
        },
{
    match find_holder(saved_state, *secret) {
        Some(seat) => {
            output_state.hand = saved_state.players[seat].hand.clone();
            Ok(())
        },
        None => Err(GameError::NotInGame),
    }
}

/// Shows the words of the turn as the player with the secret may see them.
pub fn get_words(
    secret: &u64,
    saved_state: &State,
    output_state: &mut GameState,
    dict: &Dictionary,
) -> (r: Result<(), GameError>)
    requires
        saved_state.wf(),
    ensures
        saved_state@.game_board.round != GameRound::Choice ==> r is Ok && *final(output_state)
            == *old(output_state),
        saved_state@.game_board.round == GameRound::Choice ==> match holder_of(
            saved_state@.players,
            *secret,
        ) {
            Some(seat) => r is Ok && final(output_state)@ == (GameStateModel {
                words: old(output_state)@.words + words_seen(saved_state@, seat, dict@),
                ..old(output_state)@
            }),
            None => r == Err::<(), GameError>(GameError::NotInGame) && *final(output_state)
                == *old(output_state),
        },
{
    if saved_state.game_board.round != GameRound::Choice {
        return Ok(());
    }
    let seat = match find_holder(saved_state, *secret) {
        Some(i) => i,
        None => {
            return Err(GameError::NotInGame);
        },
    };
    let ghost s = saved_state@;
    let ghost before = output_state@;
    let ghost seen = words_seen(s, seat as int, dict@);
    let all_in = saved_state.game_board.words.len() == count_active(saved_state);
    let mut k: usize = 0;
    while k < saved_state.game_board.words.len()
        invariant
            k <= saved_state.game_board.words.len(),
            s == saved_state@,
            s.wf(),
            s.game_board.round == GameRound::Choice,
            seat < saved_state.players.len(),
            s.game_board.words.len() == saved_state.game_board.words.len(),
            seen == words_seen(s, seat as int, dict@),
            all_in == (s.game_board.words.len() == active_count(s.players)),
            output_state@ == (GameStateModel {
                words: before.words + seen.take(k as int),
                ..before
            }),
        decreases saved_state.game_board.words.len() - k,
    {
        let word = &saved_state.game_board.words[k];
        proof {
            assert(s.game_board.words[k as int] == word@);
            assert(s.game_board.words[k as int].wf());
            assert(s.players[seat as int] == saved_state.players[seat as int]@);
        }
        let own = word.player_addr == saved_state.players[seat].addr;
        let view = if all_in || own {
            WordView {
                word: Some(word.clone()),
                points: get_score_for_word(word.cards.as_slice(), dict),
                visible: true,
            }
        } else {
            WordView {
                word: Some(Word { cards: Vec::new(), player_addr: word.player_addr.clone() }),
                points: 0,
                visible: false,
            }
        };
        proof {
            let expected = word_seen(s.game_board.words[k as int], all_in, s.players[seat as int].addr@, dict@);
            assert(view@.word->Some_0.cards =~= expected.word->Some_0.cards);
            assert(view@ == expected);
            assert(seen[k as int] == expected);
        }
        let ghost shown = output_state@.words;
        let ghost latest = view@;
        output_state.words.push(view);
        proof {
            assert(output_state@.words.len() == shown.len() + 1);
            assert forall|j: int| 0 <= j < shown.len() implies output_state@.words[j]
                == shown[j] by {}
            assert(output_state@.words[shown.len() as int] == latest);
            assert(seen.len() == s.game_board.words.len());
            assert(shown.len() == before.words.len() + k);
            let target = before.words + seen.take(k + 1);
            assert forall|j: int| 0 <= j < target.len() implies output_state@.words[j]
                == target[j] by {
                if j < shown.len() {
                    assert(shown[j] == (before.words + seen.take(k as int))[j]);
                }
            }
        }
        assert(output_state@.words =~= before.words + seen.take(k + 1));
        k += 1;
    }
    assert(seen.take(saved_state.game_board.words.len() as int) =~= seen);
    Ok(())
}

/// Shows the river from the flop on.
pub fn get_river(saved_state: &State, output_state: &mut GameState)
    ensures
        final(output_state)@ == (GameStateModel {
            river: if river_shown(saved_state@.game_board.round) {
                Some(saved_state@.game_board.river)
            } else {
                old(output_state)@.river
            },
            ..old(output_state)@
        }),
{
    match saved_state.game_board.round {
        GameRound::NotStarted | GameRound::Blind | GameRound::Matching => {},
        GameRound::Flop | GameRound::Matching2 | GameRound::Choice => {
            output_state.river = Some(saved_state.game_board.river.clone());
        },
    }
}

/// What the player with the secret sees of the session.
pub fn get_game_state(saved_state: &State, secret: u64, dict: &Dictionary) -> (r: Result<
    GameState,
    GameError,
>)
    requires
        saved_state.wf(),
    ensures
        match r {
            Ok(seen) => game_state_spec(saved_state@, secret, dict@) == Ok::<
                GameStateModel,
                GameError,
            >(seen@),
            Err(e) => game_state_spec(saved_state@, secret, dict@) == Err::<
                GameStateModel,
                GameError,
            >(e),
        },
{
    let mut output_state = GameState {
        words: Vec::new(),
        pool: saved_state.game_board.pool,
        river: None,
        turn: saved_state.game_board.turn,
        winner: if saved_state.winner.is_some() {
            clone_text(&saved_state.winner)
        } else {
            clone_text(&saved_state.game_board.winner_for_turn)
        },
        round: saved_state.game_board.round,
        players: Vec::new(),
        hand: Vec::new(),
        level_design: saved_state.level_design,
    };
    assert(output_state@.words =~= Seq::empty());
    assert(output_state@.players =~= Seq::empty());
    get_stats_for_players(saved_state, &mut output_state);
    assert(output_state@.players =~= statuses(saved_state@));
    match get_hand(&secret, saved_state, &mut output_state) {
        Err(e) => {
            return Err(e);
        },
        Ok(_) => {},
    }
    match get_words(&secret, saved_state, &mut output_state, dict) {
        Err(e) => {
            return Err(e);
        },
        Ok(_) => {},
    }
    proof {
        let seat = holder_of(saved_state@.players, secret)->Some_0;
        assert(output_state@.words =~= words_seen(saved_state@, seat, dict@));
    }
    get_river(saved_state, &mut output_state);
    Ok(output_state)
}

/// Whether the session takes another player: it has no winner and a free
/// seat. Also when it was set up and whether it asks for a password.
pub open spec fn can_join_spec(s: StateModel) -> CanJoinResponse {
    CanJoinResponse {
        can_join: s.winner is None && s.players.len() < 4,
        started_time: s.started_time,
        requires_password: s.password is Some,
    }
}

/// Answers a question about the session.
pub fn query(state: &State, msg: QueryMsg, dict: &Dictionary) -> (r: Result<QueryAnswer, GameError>)
    requires
        state.wf(),
    ensures
        match msg {
            QueryMsg::GetResult {  } => match state@.winner {
                Some(w) => r matches Ok(QueryAnswer::Winners(list)) && list@ == seq![w],
                None => r matches Err(GameError::WaitingForPlayers),
            },
            QueryMsg::CanJoin {  } => r matches Ok(QueryAnswer::CanJoin(answer)) && answer
                == can_join_spec(state@),
            QueryMsg::GetGameState { secret } => match game_state_spec(state@, secret, dict@) {
                Ok(seen) => r matches Ok(QueryAnswer::GameState(answer)) && answer@ == seen,
                Err(e) => r matches Err(f) && f == e,
            },
        },
{
    match msg {
        QueryMsg::GetResult {  } => {
            match &state.winner {
                None => Err(GameError::WaitingForPlayers),
                Some(w) => {
                    let mut list: Vec<String> = Vec::new();
                    list.push(w.clone());
                    assert(list@ =~= seq![*w]);
                    Ok(QueryAnswer::Winners(list))
                },
            }
        },
        QueryMsg::CanJoin {  } => {
            let can_join = state.winner.is_none() && state.players.len() < 4;
            Ok(
                QueryAnswer::CanJoin(
                    CanJoinResponse {
                        can_join,
                        started_time: state.started_time,
                        requires_password: state.password.is_some(),
                    },
                ),
            )
        },
        QueryMsg::GetGameState { secret } => {
            match get_game_state(state, secret, dict) {
                Ok(seen) => Ok(QueryAnswer::GameState(seen)),
                Err(e) => Err(e),
            }
        },
    }
}

} // verus!
