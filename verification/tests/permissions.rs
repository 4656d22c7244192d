use secret_dreamscape::contract::{
    init, Coin, Effect, Env, GameError, HandleMsg, InitMsg, SecretDreamscapeJackpot,
};
use secret_dreamscape::game_state::{Card, GameRound, State};
use secret_dreamscape::limits::try_handle;
use secret_dreamscape::query::{query, GameState, QueryAnswer, QueryMsg};
use secret_dreamscape::utils::cards::Dictionary;

fn dictionary() -> Dictionary {
    Dictionary::from_text(
        "TEST\nBILLYCAN\nBANDIT\nINKBLOT\nBAILSMAN\nTROIKA\nTAMARISK\nGRAPIEST\nWEEPIEST\nADUNCATE\nCRAWS\nFISHNET\nOX\nFLOGGED\nZED\n",
    )
}

fn env(player: usize, amount: u128) -> Env {
    Env {
        sender: format!("player{}", player),
        block_time: 0,
        contract_address: "session".to_string(),
        sent_funds: vec![Coin { denom: "uscrt".to_string(), amount }],
    }
}

fn new_session(private: bool) -> State {
    let msg = InitMsg {
        bg: 0,
        password: if private { Some("correct password".to_string()) } else { None },
        label: "table".to_string(),
        stamp_addr: "stamp".to_string(),
        stamp_hash: "stamp hash".to_string(),
        callback_addr: "phonebook".to_string(),
        callback_hash: "phonebook hash".to_string(),
        min_buy: 1_000_000,
        max_buy: 100_000_000,
        jackpot_addr: "jackpot".to_string(),
        jackpot_hash: "jackpot hash".to_string(),
    };
    let (state, _) = init(&env(0, 0), msg);
    state
}

fn run(state: &mut State, player: usize, amount: u128, msg: HandleMsg) -> Result<Vec<Effect>, GameError> {
    match try_handle(state, &env(player, amount), msg, &dictionary()) {
        Some(r) => r,
        None => panic!("the command is beyond what the engine takes"),
    }
}

fn join(state: &mut State, player: usize, password: &str) -> Result<Vec<Effect>, GameError> {
    run(
        state,
        player,
        1_000_000,
        HandleMsg::Join { secret: player as u64, password: password.to_string(), nfts: vec![] },
    )
}

fn cards(text: &str) -> Vec<Card> {
    let mut out: Vec<Card> = vec![];
    for ch in text.chars() {
        if ch == '*' {
            out.last_mut().unwrap().gold = true;
        } else {
            out.push(Card { letter: ch as u8 - b'a', gold: false });
        }
    }
    out
}

/// The draw pile from which the cards come in the given order.
fn pile(order: &str) -> Vec<Card> {
    let order = cards(order);
    let mut deck: Vec<Card> = vec![];
    if let Some(first) = order.first() {
        deck.push(*first);
        deck.extend(order[1..].iter().rev().cloned());
    }
    deck
}

/// Lays out the cards that the scenarios are written for: the river, the
/// hands of the first two players, and a pile stacked with the cards of the
/// later turns. The longest scenario runs for more turns than one deck of
/// forty lasts, so the pile is as long as that scenario needs.
fn lay_out(state: &mut State) {
    state.game_board.river = cards("linab");
    state.players[0].hand = cards("ytgcl");
    state.players[1].hand = cards("rtiad");
    let turns = [
        "taikoaarm*sw",
        "eitnpsreew",
        "otcuanndeeesr",
        "ieeieth*fsox*z",
        "guod*eilgfdmo",
        "eeeeeaaiio",
    ];
    state.deck = pile(&turns.concat());
}

fn init_with_n_players(n: usize, private: bool) -> State {
    let mut state = new_session(private);
    for i in 0..n {
        join(&mut state, i, if private { "correct password" } else { "" }).unwrap();
        if i == 1 {
            lay_out(&mut state);
        }
    }
    for i in 0..n {
        run(&mut state, i, 50_000_000, HandleMsg::BuyChips {}).unwrap();
    }
    state
}

fn init_with_2_players(private: bool) -> State {
    init_with_n_players(2, private)
}

fn init_with_4_players(private: bool) -> State {
    init_with_n_players(4, private)
}

fn get_game_state(state: &State, player: u64) -> GameState {
    match query(state, QueryMsg::GetGameState { secret: player }, &dictionary()) {
        Ok(QueryAnswer::GameState(seen)) => seen,
        _ => panic!("no game state for this secret"),
    }
}

fn send_bet(state: &mut State, player: usize, amount: u64) -> Result<Vec<Effect>, GameError> {
    run(state, player, 0, HandleMsg::Bet { amount })
}

fn match_bet(state: &mut State, player: usize, amount: u64) -> Result<Vec<Effect>, GameError> {
    run(state, player, 0, HandleMsg::Match { amount })
}

fn put_down_word(state: &mut State, player: usize, word: Vec<u8>) -> Result<Vec<Effect>, GameError> {
    run(state, player, 0, HandleMsg::PutDownCard { indexes: word, opened_dictionary: false })
}

fn request_next_turn(state: &mut State, player: usize) -> Result<Vec<Effect>, GameError> {
    run(state, player, 0, HandleMsg::RequestNextTurn {})
}

fn fold(state: &mut State, player: usize) -> Result<Vec<Effect>, GameError> {
    run(state, player, 0, HandleMsg::Fold {})
}

fn letters(cards: &Vec<Card>) -> String {
    let mut text = String::new();
    for card in cards {
        text.push((card.letter + b'a') as char);
        if card.gold {
            text.push('*');
        }
    }
    text
}

fn to_choice(state: &mut State, players: usize) {
    for _ in 0..2 {
        for i in 0..players {
            send_bet(state, i, 1_000_000).unwrap();
        }
    }
    assert!(state.game_board.round == GameRound::Choice);
}

/// Until all words have been put down, players only see their own word.
#[test]
fn player_can_only_see_their_word() {
    let mut state = init_with_4_players(false);
    to_choice(&mut state, 4);

    assert_eq!(letters(&state.players[0].hand), "ytgcl");
    assert_eq!(letters(&state.players[1].hand), "rtiad");
    assert_eq!(letters(&state.players[2].hand), "taiko");
    assert_eq!(letters(&state.players[3].hand), "aarm*s");
    assert_eq!(letters(&state.game_board.river), "linab");
    put_down_word(&mut state, 0, vec![254, 251, 250, 4, 0, 3, 253, 252]).unwrap(); // billycan: 15
    let game_state_player0 = get_game_state(&state, 0);
    let game_state_player1 = get_game_state(&state, 1);
    get_game_state(&state, 2);
    get_game_state(&state, 3);

    let word_according_to_player0 = &game_state_player0.words[0];
    let word_according_to_player1 = &game_state_player1.words[0];

    assert!(word_according_to_player0.visible, "Player word wasn't visible to player");
    let word_obj = word_according_to_player0.word.as_ref().unwrap();
    assert_eq!(word_obj.cards[0].letter, 1, "Player word wasn't correct");
    assert_eq!(word_obj.cards[1].letter, 8, "Player word wasn't correct");
    assert_eq!(word_obj.cards[2].letter, 11, "Player word wasn't correct");
    assert_eq!(word_obj.cards[3].letter, 11, "Player word wasn't correct");
    assert_eq!(word_obj.cards[4].letter, 24, "Player word wasn't correct");
    assert_eq!(word_obj.cards[5].letter, 2, "Player word wasn't correct");
    assert_eq!(word_obj.cards[6].letter, 0, "Player word wasn't correct");
    assert_eq!(word_obj.cards[7].letter, 13, "Player word wasn't correct");
    assert_eq!(word_according_to_player0.points, 15);
    assert!(!word_according_to_player1.visible, "Player word was visible to opponent");
    assert!(word_according_to_player1.word.is_some(), "Player word was visible to opponent");
    assert_eq!(word_according_to_player1.word.as_ref().unwrap().cards.len(), 0);
    assert_eq!(word_according_to_player1.word.as_ref().unwrap().player_addr, "player0");
    assert_eq!(word_according_to_player1.points, 0);

    put_down_word(&mut state, 1, vec![254, 253, 252, 4, 2, 1]).unwrap(); // bandit: 9
    put_down_word(&mut state, 2, vec![2, 252, 3, 254, 250, 4, 0]).unwrap(); // inkblot: 13
    put_down_word(&mut state, 3, vec![254, 253, 251, 250, 4, 3, 0, 252]).unwrap(); // bailsman: 24

    let game_state_player1 = get_game_state(&state, 1);
    assert!(
        game_state_player1.words[0].visible,
        "Opponent couldn't see word after all words got played"
    );
    assert!(
        game_state_player1.words[0].word.is_some(),
        "Opponent couldn't see word after all words got played"
    );
    assert_eq!(game_state_player1.words[0].points, 15);
    assert_eq!(game_state_player1.words[1].points, 9);
    assert_eq!(game_state_player1.words[2].points, 13);
    assert_eq!(game_state_player1.words[3].points, 24);
}

/// A completed game can't be joined and no action can be performed.
#[test]
fn completed_game_cant_be_joined_and_nothing_can_be_done() {
    let mut state = init_with_2_players(false);
    to_choice(&mut state, 2);

    assert_eq!(letters(&state.players[0].hand), "ytgcl");
    assert_eq!(letters(&state.players[1].hand), "rtiad");
    assert_eq!(letters(&state.game_board.river), "linab");
    put_down_word(&mut state, 0, vec![254, 251, 250, 4, 0, 3, 253, 252]).unwrap(); // billycan: 15
    put_down_word(&mut state, 1, vec![254, 253, 252, 4, 2, 1]).unwrap(); // bandit: 9
    assert_eq!(state.game_board.winner_for_turn, Some("player0".to_string()));

    request_next_turn(&mut state, 0).unwrap();
    to_choice(&mut state, 2);

    assert_eq!(letters(&state.players[0].hand), "tgaar");
    assert_eq!(letters(&state.players[1].hand), "ram*sw");
    assert_eq!(letters(&state.game_board.river), "taiko");
    put_down_word(&mut state, 0, vec![0, 4, 254, 252, 253, 251]).unwrap(); // troika: 10
    put_down_word(&mut state, 1, vec![250, 251, 2, 1, 0, 252, 253]).unwrap(); // not a word: 0
    assert_eq!(state.game_board.winner_for_turn, Some("player0".to_string()));

    request_next_turn(&mut state, 1).unwrap();
    to_choice(&mut state, 2);

    assert_eq!(letters(&state.players[0].hand), "gaasr");
    assert_eq!(letters(&state.players[1].hand), "sweew");
    assert_eq!(letters(&state.game_board.river), "eitnp");
    put_down_word(&mut state, 0, vec![0, 4, 1, 254, 251, 250, 3, 252]).unwrap(); // grapiest: 11
    put_down_word(&mut state, 1, vec![1, 2, 3, 254, 251, 250, 0, 252]).unwrap(); // weepiest: 13
    assert_eq!(state.game_board.winner_for_turn, Some("player1".to_string()));

    request_next_turn(&mut state, 1).unwrap();
    to_choice(&mut state, 2);

    assert_eq!(letters(&state.players[0].hand), "annde");
    assert_eq!(letters(&state.players[1].hand), "weesr");
    assert_eq!(letters(&state.game_board.river), "otcua");
    put_down_word(&mut state, 0, vec![0, 3, 253, 1, 252, 254, 251, 4]).unwrap(); // aduncate: 11
    put_down_word(&mut state, 1, vec![252, 4, 254, 0, 3]).unwrap(); // craws: 10
    assert_eq!(state.game_board.winner_for_turn, Some("player0".to_string()));

    request_next_turn(&mut state, 0).unwrap();
    to_choice(&mut state, 2);

    assert_eq!(letters(&state.players[0].hand), "nth*fs");
    assert_eq!(letters(&state.players[1].hand), "eeox*z");
    assert_eq!(letters(&state.game_board.river), "ieeie");
    put_down_word(&mut state, 0, vec![3, 250, 4, 2, 0, 251, 1]).unwrap(); // fishnet: 26
    put_down_word(&mut state, 1, vec![2, 3]).unwrap(); // ox: 18
    assert_eq!(state.game_board.winner_for_turn, Some("player0".to_string()));

    request_next_turn(&mut state, 0).unwrap();
    to_choice(&mut state, 2);

    assert_eq!(letters(&state.players[0].hand), "ilgfd");
    assert_eq!(letters(&state.players[1].hand), "eezmo");
    assert_eq!(letters(&state.game_board.river), "guod*e");
    put_down_word(&mut state, 0, vec![3, 1, 252, 250, 2, 254, 253]).unwrap(); // flogged: 26
    put_down_word(&mut state, 1, vec![2, 0, 253]).unwrap(); // zed: 22
    assert_eq!(state.game_board.winner_for_turn, Some("player0".to_string()));

    request_next_turn(&mut state, 0).unwrap();
    assert_eq!(state.game_board.turn, 6);
    assert_eq!(state.deck.len(), 0);

    // The host closes the session by naming its winner.
    state.winner = state.players.get(0).map(|p| p.addr.clone());

    let final_bet = send_bet(&mut state, 0, 1_000_000);
    let join_attempt = join(&mut state, 2, "");
    assert!(final_bet.is_err(), "Final bet did not fail");
    assert!(join_attempt.is_err(), "Player was able to join a completed game");
    assert_eq!(final_bet.unwrap_err(), GameError::GameOver);
    assert_eq!(join_attempt.unwrap_err(), GameError::GameOver);
    assert_eq!(fold(&mut state, 0).unwrap_err(), GameError::GameOver);
    assert_eq!(request_next_turn(&mut state, 0).unwrap_err(), GameError::GameOver);
    match query(&state, QueryMsg::GetResult {}, &dictionary()) {
        Ok(QueryAnswer::Winners(list)) => assert_eq!(list, vec!["player0".to_string()]),
        _ => panic!("Expected the winner of the session"),
    }
}

/// A full game can't be joined.
#[test]
fn full_game_cant_be_joined() {
    let mut state = init_with_4_players(false);
    let join_attempt = join(&mut state, 4, "");
    assert!(join_attempt.is_err(), "Player was able to join a full game");
    assert_eq!(join_attempt.unwrap_err(), GameError::GameFull);
    assert_eq!(state.players.len(), 4);
}

/// The player can't see an opponent's played word.
#[test]
fn player_cant_see_opponent_word() {
    let mut state = init_with_2_players(false);
    to_choice(&mut state, 2);

    put_down_word(&mut state, 0, vec![254, 251, 250, 4, 0, 3, 253, 252]).unwrap(); // billycan: 15
    let p1 = get_game_state(&state, 1);

    assert!(!p1.words[0].visible, "Player could see opponent's word");
    assert!(p1.words[0].word.is_some(), "Player could see opponent's word");
}

/// Private rooms are reported as such.
#[test]
fn private_rooms_are_reported_as_private() {
    let state = init_with_2_players(true);

    match query(&state, QueryMsg::CanJoin {}, &dictionary()) {
        Ok(QueryAnswer::CanJoin(data)) => {
            assert!(data.requires_password, "Private rooms are not reported as private");
            assert!(data.can_join);
            assert_eq!(data.started_time, 0);
        }
        _ => panic!("Expected the join permissions"),
    }
}

/// To join a private room you need the correct password.
#[test]
fn correct_password_needed_to_join_private_room() {
    let mut state = init_with_2_players(true);
    let join_attempt = join(&mut state, 2, "wrong password");
    assert!(
        join_attempt.is_err(),
        "Player was able to join a private game with the wrong password"
    );
    assert_eq!(join_attempt.unwrap_err(), GameError::WrongPassword);
    let join_attempt = join(&mut state, 2, "correct password");
    assert!(
        join_attempt.is_ok(),
        "Player was NOT able to join a private game with the correct password"
    );
    assert_eq!(state.players.len(), 3);
}
