use secret_dreamscape::contract::{
    init, Coin, Effect, Env, GameError, HandleMsg, InitMsg, SecretDreamscapeJackpot,
};
use secret_dreamscape::game_state::{Card, GameRound, State};
use secret_dreamscape::limits::try_handle;
use secret_dreamscape::query::{query, GameState, QueryAnswer, QueryMsg};
use secret_dreamscape::utils::cards::Dictionary;
use secret_dreamscape::utils::cards::get_score_for_word;

fn dictionary() -> Dictionary {
    Dictionary::from_text(
        "TEST\nBILLYCAN\nBANDIT\nINKBLOT\nBAILSMAN\nTROIKA\nTAMARISK\nGRAPIEST\nWEEPIEST\nADUNCATE\nCRAWS\nFISHNET\nOX\nFLOGGED\nZED\n",
    )
}

fn env(player: usize, amount: u128) -> Env {
    Env {
        sender: format!("player{}", player),
        block_time: 0,
        contract_address: "session".to_string(),
        sent_funds: vec![Coin { denom: "uscrt".to_string(), amount }],
    }
}

fn new_session(private: bool) -> State {
    let msg = InitMsg {
        bg: 0,
        password: if private { Some("correct password".to_string()) } else { None },
        label: "table".to_string(),
        stamp_addr: "stamp".to_string(),
        stamp_hash: "stamp hash".to_string(),
        callback_addr: "phonebook".to_string(),
        callback_hash: "phonebook hash".to_string(),
        min_buy: 1_000_000,
        max_buy: 100_000_000,
        jackpot_addr: "jackpot".to_string(),
        jackpot_hash: "jackpot hash".to_string(),
    };
    let (state, _) = init(&env(0, 0), msg);
    state
}

fn run(state: &mut State, player: usize, amount: u128, msg: HandleMsg) -> Result<Vec<Effect>, GameError> {
    match try_handle(state, &env(player, amount), msg, &dictionary()) {
        Some(r) => r,
        None => panic!("the command is beyond what the engine takes"),
    }
}

fn join(state: &mut State, player: usize, password: &str) -> Result<Vec<Effect>, GameError> {
    run(
        state,
        player,
        1_000_000,
        HandleMsg::Join { secret: player as u64, password: password.to_string(), nfts: vec![] },
    )
}

fn cards(text: &str) -> Vec<Card> {
    let mut out: Vec<Card> = vec![];
    for ch in text.chars() {
        if ch == '*' {
            out.last_mut().unwrap().gold = true;
        } else {
            out.push(Card { letter: ch as u8 - b'a', gold: false });
        }
    }
    out
}

/// The draw pile from which the cards come in the given order.
fn pile(order: &str) -> Vec<Card> {
    let order = cards(order);
    let mut deck: Vec<Card> = vec![];
    if let Some(first) = order.first() {
        deck.push(*first);
        deck.extend(order[1..].iter().rev().cloned());
    }
    deck
}

/// Lays out the cards that the scenarios are written for: the river, the
/// hands of the first two players, and a pile stacked with the cards of the
/// later turns. The longest scenario runs for more turns than one deck of
/// forty lasts, so the pile is as long as that scenario needs.
fn lay_out(state: &mut State) {
    state.game_board.river = cards("linab");
    state.players[0].hand = cards("ytgcl");
    state.players[1].hand = cards("rtiad");
    let turns = [
        "taikoaarm*sw",
        "eitnpsreew",
        "otcuanndeeesr",
        "ieeieth*fsox*z",
        "guod*eilgfdmo",
        "eeeeeaaiio",
    ];
    state.deck = pile(&turns.concat());
}

fn init_with_n_players(n: usize, private: bool) -> State {
    let mut state = new_session(private);
    for i in 0..n {
        join(&mut state, i, if private { "correct password" } else { "" }).unwrap();
        if i == 1 {
            lay_out(&mut state);
        }
    }
    for i in 0..n {
        run(&mut state, i, 50_000_000, HandleMsg::BuyChips {}).unwrap();
    }
    state
}

fn init_with_2_players(private: bool) -> State {
    init_with_n_players(2, private)
}

fn init_with_4_players(private: bool) -> State {
    init_with_n_players(4, private)
}

fn get_game_state(state: &State, player: u64) -> GameState {
    match query(state, QueryMsg::GetGameState { secret: player }, &dictionary()) {
        Ok(QueryAnswer::GameState(seen)) => seen,
        _ => panic!("no game state for this secret"),
    }
}

fn send_bet(state: &mut State, player: usize, amount: u64) -> Result<Vec<Effect>, GameError> {
    run(state, player, 0, HandleMsg::Bet { amount })
}

fn match_bet(state: &mut State, player: usize, amount: u64) -> Result<Vec<Effect>, GameError> {
    run(state, player, 0, HandleMsg::Match { amount })
}

fn put_down_word(state: &mut State, player: usize, word: Vec<u8>) -> Result<Vec<Effect>, GameError> {
    run(state, player, 0, HandleMsg::PutDownCard { indexes: word, opened_dictionary: false })
}

fn request_next_turn(state: &mut State, player: usize) -> Result<Vec<Effect>, GameError> {
    run(state, player, 0, HandleMsg::RequestNextTurn {})
}

fn fold(state: &mut State, player: usize) -> Result<Vec<Effect>, GameError> {
    run(state, player, 0, HandleMsg::Fold {})
}

fn letters(cards: &Vec<Card>) -> String {
    let mut text = String::new();
    for card in cards {
        text.push((card.letter + b'a') as char);
        if card.gold {
            text.push('*');
        }
    }
    text
}

fn to_choice(state: &mut State, players: usize) {
    for _ in 0..2 {
        for i in 0..players {
            send_bet(state, i, 1_000_000).unwrap();
        }
    }
    assert!(state.game_board.round == GameRound::Choice);
}

/// An invalid word has 0 points.
#[test]
fn invalid_word_has_no_points() {
    let word = vec![
        Card { letter: 0, gold: false },
        Card { letter: 1, gold: false },
        Card { letter: 2, gold: false },
        Card { letter: 3, gold: false },
        Card { letter: 4, gold: false },
    ];
    let score = get_score_for_word(word.as_slice(), &dictionary());
    assert_eq!(score, 0, "invalid word should have 0 points");
}

/// The score doubles for each gold card.
#[test]
fn gold_doubles_score() {
    let mut word = vec![
        Card { letter: 19, gold: false },
        Card { letter: 4, gold: false },
        Card { letter: 18, gold: false },
        Card { letter: 19, gold: false },
    ];
    let score = get_score_for_word(word.as_slice(), &dictionary());
    assert_eq!(score, 4, "a score with no gold should be the sum of the points for each card");
    word[0].gold = true;
    let score = get_score_for_word(word.as_slice(), &dictionary());
    assert_eq!(score, 8, "a word with one gold card should double the score");
    word[1].gold = true;
    let score = get_score_for_word(word.as_slice(), &dictionary());
    assert_eq!(score, 16, "a word with two gold cards should double the score twice");
    word[2].gold = true;
    let score = get_score_for_word(word.as_slice(), &dictionary());
    assert_eq!(score, 32, "a word with two gold cards should double the score three times");
    word[3].gold = true;
    let score = get_score_for_word(word.as_slice(), &dictionary());
    assert_eq!(score, 64, "a word with two gold cards should double the score four times");
}

/// The highest scoring word wins.
#[test]
fn highest_score_wins() {
    let mut state = init_with_4_players(false);
    to_choice(&mut state, 4);

    put_down_word(&mut state, 0, vec![254, 251, 250, 4, 0, 3, 253, 252]).unwrap(); // billycan: 15
    put_down_word(&mut state, 1, vec![254, 253, 252, 4, 2, 1]).unwrap(); // bandit: 9
    put_down_word(&mut state, 2, vec![2, 252, 3, 254, 250, 4, 0]).unwrap(); // inkblot: 13
    put_down_word(&mut state, 3, vec![254, 253, 251, 250, 4, 3, 0, 252]).unwrap(); // bailsman: 24

    let game = get_game_state(&state, 0);

    assert_eq!(game.winner, Some("player3".to_string()), "Winner is not the highest word");
    assert_eq!(state.players[3].chips, 48_000_000 + 7_200_000);
    assert_eq!(state.players[0].chips, 48_000_000);
}

/// Putting down the same card twice results in an error.
#[test]
fn putting_down_card_twice_results_in_err() {
    let mut state = init_with_4_players(false);
    to_choice(&mut state, 4);

    let word = put_down_word(&mut state, 0, vec![0, 0]);
    assert!(word.is_err(), "putting down the same card twice should result in an error");
    assert_eq!(word.unwrap_err(), GameError::CantUseCardTwice);
    assert_eq!(state.game_board.words.len(), 0);
    assert_eq!(state.players[0].hand.len(), 5);
}

/// Putting down a card that is not there results in an error.
#[test]
fn putting_down_invalid_word_results_in_err() {
    let mut state = init_with_4_players(false);
    to_choice(&mut state, 4);

    let word = put_down_word(&mut state, 0, vec![6]);
    assert!(word.is_err(), "putting down the same card twice should result in an error");
    assert_eq!(word.unwrap_err(), GameError::NotInYourHand);

    let word = put_down_word(&mut state, 0, vec![123]);
    assert!(word.is_err(), "putting down the same card twice should result in an error");
    assert_eq!(put_down_word(&mut state, 0, vec![5]).unwrap_err(), GameError::NotInYourHand);
    assert_eq!(put_down_word(&mut state, 0, vec![249]).unwrap_err(), GameError::NotInYourHand);
    assert_eq!(put_down_word(&mut state, 0, vec![255]).unwrap_err(), GameError::NotInYourHand);
    assert_eq!(put_down_word(&mut state, 0, vec![250, 1, 250]).unwrap_err(), GameError::CantUseCardTwice);
    assert_eq!(put_down_word(&mut state, 0, vec![0, 9, 0]).unwrap_err(), GameError::NotInYourHand);
    assert!(put_down_word(&mut state, 0, vec![4, 254]).is_ok());
}
