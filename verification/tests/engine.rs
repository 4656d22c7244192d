use secret_dreamscape::contract::{
    handle, init, Coin, Effect, Env, GameError, HandleMsg, InitMsg, PhonebookHandleMsg,
    SecretDreamscapeJackpot, SecretDreamscapeNFT, StampHandleMsg,
};
use secret_dreamscape::game_state::{Card, GameRound, PlayerAction, State};
use secret_dreamscape::limits::{fits, is_well_formed, points_fit, try_handle};
use secret_dreamscape::query::{query, GameState, QueryAnswer, QueryMsg};
use secret_dreamscape::rounds::{advance_turn_if_necessary, get_bet_stats, get_highest_bet};
use secret_dreamscape::settlement::{
    advance_to_next_turn_if_all_players_but_one_folded, get_winners_for_turn,
    give_winners_their_money,
};
use secret_dreamscape::table::{deal_in, take_seat};
use secret_dreamscape::utils::cards::{
    find_word_id, generate_deck, get_n_cards, get_rng, get_score_for_word, get_seed, Dictionary,
};
use secret_dreamscape::utils::general::get_non_folded_players;

fn dictionary() -> Dictionary {
    Dictionary::from_text(
        "TEST\nBILLYCAN\nBANDIT\nINKBLOT\nBAILSMAN\nTROIKA\nTAMARISK\nGRAPIEST\nWEEPIEST\nADUNCATE\nCRAWS\nFISHNET\nOX\nFLOGGED\nZED\n",
    )
}

fn env(player: usize, amount: u128) -> Env {
    Env {
        sender: format!("player{}", player),
        block_time: 0,
        contract_address: "session".to_string(),
        sent_funds: vec![Coin { denom: "uscrt".to_string(), amount }],
    }
}

fn new_session(private: bool) -> State {
    let msg = InitMsg {
        bg: 0,
        password: if private { Some("correct password".to_string()) } else { None },
        label: "table".to_string(),
        stamp_addr: "stamp".to_string(),
        stamp_hash: "stamp hash".to_string(),
        callback_addr: "phonebook".to_string(),
        callback_hash: "phonebook hash".to_string(),
        min_buy: 1_000_000,
        max_buy: 100_000_000,
        jackpot_addr: "jackpot".to_string(),
        jackpot_hash: "jackpot hash".to_string(),
    };
    let (state, _) = init(&env(0, 0), msg);
    state
}

fn run(state: &mut State, player: usize, amount: u128, msg: HandleMsg) -> Result<Vec<Effect>, GameError> {
    match try_handle(state, &env(player, amount), msg, &dictionary()) {
        Some(r) => r,
        None => panic!("the command is beyond what the engine takes"),
    }
}

fn join(state: &mut State, player: usize, password: &str) -> Result<Vec<Effect>, GameError> {
    run(
        state,
        player,
        1_000_000,
        HandleMsg::Join { secret: player as u64, password: password.to_string(), nfts: vec![] },
    )
}

fn cards(text: &str) -> Vec<Card> {
    let mut out: Vec<Card> = vec![];
    for ch in text.chars() {
        if ch == '*' {
            out.last_mut().unwrap().gold = true;
        } else {
            out.push(Card { letter: ch as u8 - b'a', gold: false });
        }
    }
    out
}

/// The draw pile from which the cards come in the given order.
fn pile(order: &str) -> Vec<Card> {
    let order = cards(order);
    let mut deck: Vec<Card> = vec![];
    if let Some(first) = order.first() {
        deck.push(*first);
        deck.extend(order[1..].iter().rev().cloned());
    }
    deck
}

/// Lays out the cards that the scenarios are written for: the river, the
/// hands of the first two players, and a pile stacked with the cards of the
/// later turns. The longest scenario runs for more turns than one deck of
/// forty lasts, so the pile is as long as that scenario needs.
fn lay_out(state: &mut State) {
    state.game_board.river = cards("linab");
    state.players[0].hand = cards("ytgcl");
    state.players[1].hand = cards("rtiad");
    let turns = [
        "taikoaarm*sw",
        "eitnpsreew",
        "otcuanndeeesr",
        "ieeieth*fsox*z",
        "guod*eilgfdmo",
        "eeeeeaaiio",
    ];
    state.deck = pile(&turns.concat());
}

fn init_with_n_players(n: usize, private: bool) -> State {
    let mut state = new_session(private);
    for i in 0..n {
        join(&mut state, i, if private { "correct password" } else { "" }).unwrap();
        if i == 1 {
            lay_out(&mut state);
        }
    }
    for i in 0..n {
        run(&mut state, i, 50_000_000, HandleMsg::BuyChips {}).unwrap();
    }
    state
}

fn init_with_2_players(private: bool) -> State {
    init_with_n_players(2, private)
}

fn init_with_4_players(private: bool) -> State {
    init_with_n_players(4, private)
}

fn get_game_state(state: &State, player: u64) -> GameState {
    match query(state, QueryMsg::GetGameState { secret: player }, &dictionary()) {
        Ok(QueryAnswer::GameState(seen)) => seen,
        _ => panic!("no game state for this secret"),
    }
}

fn send_bet(state: &mut State, player: usize, amount: u64) -> Result<Vec<Effect>, GameError> {
    run(state, player, 0, HandleMsg::Bet { amount })
}

fn match_bet(state: &mut State, player: usize, amount: u64) -> Result<Vec<Effect>, GameError> {
    run(state, player, 0, HandleMsg::Match { amount })
}

fn put_down_word(state: &mut State, player: usize, word: Vec<u8>) -> Result<Vec<Effect>, GameError> {
    run(state, player, 0, HandleMsg::PutDownCard { indexes: word, opened_dictionary: false })
}

fn request_next_turn(state: &mut State, player: usize) -> Result<Vec<Effect>, GameError> {
    run(state, player, 0, HandleMsg::RequestNextTurn {})
}

fn fold(state: &mut State, player: usize) -> Result<Vec<Effect>, GameError> {
    run(state, player, 0, HandleMsg::Fold {})
}

fn letters(cards: &Vec<Card>) -> String {
    let mut text = String::new();
    for card in cards {
        text.push((card.letter + b'a') as char);
        if card.gold {
            text.push('*');
        }
    }
    text
}

fn to_choice(state: &mut State, players: usize) {
    for _ in 0..2 {
        for i in 0..players {
            send_bet(state, i, 1_000_000).unwrap();
        }
    }
    assert!(state.game_board.round == GameRound::Choice);
}


fn all_cards(state: &State) -> Vec<Card> {
    let mut all = state.deck.clone();
    all.extend(state.game_board.river.iter().cloned());
    for p in &state.players {
        all.extend(p.hand.iter().cloned());
    }
    all
}

fn check(state: &mut State, player: usize) -> Result<Vec<Effect>, GameError> {
    run(state, player, 0, HandleMsg::Check {})
}

fn leave(state: &mut State, player: usize) -> Result<Vec<Effect>, GameError> {
    run(state, player, 0, HandleMsg::Leave {})
}

#[test]
fn a_new_session_is_empty_and_announces_itself() {
    let msg = InitMsg {
        bg: 7,
        password: Some("pw".to_string()),
        label: "table".to_string(),
        stamp_addr: "stamp".to_string(),
        stamp_hash: "stamp hash".to_string(),
        callback_addr: "phonebook".to_string(),
        callback_hash: "phonebook hash".to_string(),
        min_buy: 1,
        max_buy: 2,
        jackpot_addr: "jackpot".to_string(),
        jackpot_hash: "jackpot hash".to_string(),
    };
    let mut call = env(0, 0);
    call.block_time = 1234;
    let (state, effects) = init(&call, msg);
    assert!(is_well_formed(&state));
    assert_eq!(state.players.len(), 0);
    assert!(state.game_board.round == GameRound::NotStarted);
    assert_eq!(state.game_board.rake_percentage, 10);
    assert_eq!(state.game_board.pool, 0);
    assert_eq!(state.game_board.turn, 0);
    assert_eq!(state.started_time, 1234);
    assert_eq!(state.level_design, 7);
    assert_eq!(state.password, Some("pw".to_string()));
    assert_eq!(state.min_buy, 1);
    assert_eq!(state.max_buy, 2);
    assert!(state.can_join);
    assert!(state.winner.is_none());
    assert_eq!(effects.len(), 1);
    match &effects[0] {
        Effect::Phonebook(PhonebookHandleMsg::RegisteredCallback {
            address,
            private,
            label,
            referrer,
        }) => {
            assert_eq!(address, "session");
            assert!(*private);
            assert_eq!(label, "table");
            assert_eq!(referrer, "phonebook hash");
        }
        _ => panic!("Expected the notice for the directory"),
    }
}

#[test]
fn the_first_player_waits_without_cards() {
    let mut state = new_session(false);
    join(&mut state, 0, "").unwrap();
    assert!(state.game_board.round == GameRound::NotStarted);
    assert_eq!(state.players[0].hand.len(), 0);
    assert_eq!(state.deck.len(), 0);
    assert_eq!(state.players[0].hp, 5);
    assert_eq!(state.players[0].chips, 0);
    assert!(!state.players[0].folded);
    assert!(state.players[0].last_action.is_none());
    assert_eq!(send_bet(&mut state, 0, 1_000_000).unwrap_err(), GameError::NotInGame);
    assert_eq!(fold(&mut state, 0).unwrap_err(), GameError::NotInGame);
    assert_eq!(check(&mut state, 0).unwrap_err(), GameError::NotInGame);
    assert_eq!(request_next_turn(&mut state, 0).unwrap_err(), GameError::NotInGame);
    assert_eq!(put_down_word(&mut state, 0, vec![0]).unwrap_err(), GameError::NotInGame);
}

#[test]
fn the_second_player_opens_the_session() {
    let mut state = new_session(false);
    join(&mut state, 0, "").unwrap();
    join(&mut state, 1, "").unwrap();
    assert!(state.game_board.round == GameRound::Blind);
    assert_eq!(letters(&state.game_board.river), "kegmy");
    assert_eq!(letters(&state.players[0].hand), "eje*et");
    assert_eq!(letters(&state.players[1].hand), "fecen");
    assert_eq!(state.deck.len(), 40 - 15);
    assert!(!state.players[1].folded);
    assert!(is_well_formed(&state));
    join(&mut state, 2, "").unwrap();
    assert_eq!(letters(&state.players[2].hand), "eprdw");
    assert!(!state.players[2].folded);
    assert!(state.players[2].last_action.is_none());
    assert_eq!(state.deck.len(), 40 - 20);
    assert_eq!(join(&mut state, 1, "").unwrap_err(), GameError::AlreadyInGame);
    assert_eq!(state.players.len(), 3);
}

#[test]
fn the_deck_has_the_cards_of_the_table_and_five_gold() {
    let mut state = new_session(false);
    for i in 0..4 {
        join(&mut state, i, "").unwrap();
    }
    let all = all_cards(&state);
    assert_eq!(all.len(), 40);
    assert_eq!(all.iter().filter(|c| c.gold).count(), 5);
    let expected: [usize; 26] =
        [2, 1, 1, 1, 12, 1, 1, 1, 2, 1, 1, 1, 1, 1, 2, 1, 1, 1, 1, 1, 1, 1, 1, 1, 1, 1];
    for letter in 0..26u8 {
        assert_eq!(
            all.iter().filter(|c| c.letter == letter).count(),
            expected[letter as usize],
            "letter {}",
            letter
        );
    }
}

#[test]
fn the_deck_is_shuffled_and_depends_on_the_seed() {
    let state = new_session(false);
    let deck = generate_deck(get_rng(&state, &env(0, 0)));
    assert_eq!(deck.len(), 40);
    assert_eq!(deck.iter().filter(|c| c.gold).count(), 5);
    assert_ne!(letters(&deck[0..12].to_vec()), "e*e*e*e*e*eeeeeee");
    assert_eq!(letters(&deck), "afgt*vqie*yxswmkleedpioeeebeuecez*hjnaro*ee*e");
    let again = generate_deck(get_rng(&state, &env(0, 0)));
    assert_eq!(letters(&deck), letters(&again));
    let mut later = env(0, 0);
    later.block_time = 1;
    let other = generate_deck(get_rng(&state, &later));
    assert_ne!(letters(&deck), letters(&other));
}

#[test]
fn the_seed_is_the_digest_of_time_and_secrets() {
    let state = new_session(false);
    assert_eq!(
        get_seed(&state, &env(0, 0)),
        [
            175, 85, 112, 245, 161, 129, 11, 122, 247, 140, 175, 75, 199, 10, 102, 15, 13, 245,
            30, 66, 186, 249, 29, 77, 229, 178, 50, 141, 224, 232, 61, 252
        ]
    );
    let two = init_with_2_players(false);
    assert_eq!(
        get_seed(&two, &env(0, 0)),
        [
            237, 139, 123, 44, 44, 107, 174, 58, 101, 15, 225, 86, 153, 181, 99, 21, 50, 89, 105,
            32, 195, 255, 199, 84, 38, 150, 244, 1, 50, 40, 16, 18
        ]
    );
    let mut one = new_session(false);
    let mut call = env(0, 0);
    call.block_time = 0x0102030405060708;
    take_seat(&mut one, &call, 0xfffefdfcfbfaf9f8, "".to_string(), vec![]).unwrap();
    assert_eq!(
        get_seed(&one, &call),
        [
            230, 63, 216, 107, 211, 48, 34, 176, 131, 255, 189, 204, 102, 226, 248, 154, 98, 117,
            156, 184, 242, 44, 107, 69, 229, 90, 142, 84, 172, 64, 100, 100
        ]
    );
}

#[test]
fn drawing_takes_the_front_card_and_fills_the_slot_from_the_back() {
    let mut state = new_session(false);
    state.deck = cards("abcdef");
    let drawn = get_n_cards(&mut state, 3);
    assert_eq!(letters(&drawn), "afe");
    assert_eq!(letters(&state.deck), "dbc");
    let drawn = get_n_cards(&mut state, 0);
    assert_eq!(drawn.len(), 0);
    assert_eq!(letters(&state.deck), "dbc");
    let drawn = get_n_cards(&mut state, 3);
    assert_eq!(letters(&drawn), "dcb");
    assert_eq!(state.deck.len(), 0);
}

#[test]
fn dealing_with_a_given_deck() {
    let mut state = new_session(false);
    take_seat(&mut state, &env(0, 0), 0, "".to_string(), vec![]).unwrap();
    take_seat(&mut state, &env(1, 0), 1, "".to_string(), vec![]).unwrap();
    deal_in(&mut state, cards("abcdefghijklmnopqrst"));
    assert!(state.game_board.round == GameRound::Blind);
    assert_eq!(letters(&state.game_board.river), "atsrq");
    assert_eq!(letters(&state.players[0].hand), "ponml");
    assert_eq!(letters(&state.players[1].hand), "kjihg");
    assert_eq!(letters(&state.deck), "fbcde");
}

#[test]
fn the_dictionary_is_the_lines_of_its_text() {
    let dict = Dictionary::from_text("AB\n\nCD\n");
    assert_eq!(dict.words, vec![b"AB".to_vec(), b"".to_vec(), b"CD".to_vec(), b"".to_vec()]);
    assert!(dict.contains(&b"CD".to_vec()));
    assert!(!dict.contains(&b"C".to_vec()));
    assert_eq!(find_word_id(&dict, &b"CD".to_vec()), Some(2));
    assert_eq!(find_word_id(&dict, &b"".to_vec()), Some(1));
    assert_eq!(find_word_id(&dict, &b"EF".to_vec()), None);
    let empty = Dictionary::from_text("");
    assert_eq!(empty.words, vec![b"".to_vec()]);
    let one = Dictionary::from_text("ZED");
    assert_eq!(one.words, vec![b"ZED".to_vec()]);
}

#[test]
fn a_word_scores_its_letters_doubled_for_gold() {
    let dict = dictionary();
    assert_eq!(get_score_for_word(cards("zed").as_slice(), &dict), 11);
    assert_eq!(get_score_for_word(cards("z*ed").as_slice(), &dict), 22);
    assert_eq!(get_score_for_word(cards("z*e*d*").as_slice(), &dict), 88);
    assert_eq!(get_score_for_word(cards("ox").as_slice(), &dict), 9);
    assert_eq!(get_score_for_word(cards("xo").as_slice(), &dict), 0);
    assert_eq!(get_score_for_word(cards("x*o*").as_slice(), &dict), 0);
    assert_eq!(get_score_for_word(cards("").as_slice(), &dict), 0);
    assert_eq!(get_score_for_word(cards("billycan").as_slice(), &dict), 15);
    let every = cards("abcdefghijklmnopqrstuvwxyz");
    let alphabet = Dictionary::from_text("ABCDEFGHIJKLMNOPQRSTUVWXYZ");
    assert_eq!(get_score_for_word(every.as_slice(), &alphabet), 85);
}

#[test]
fn scores_beyond_sixteen_bits_are_told_apart() {
    assert!(points_fit(&cards("q*q*q*q*q*q*q*q*q*qqq")));
    assert!(!points_fit(&cards("q*q*q*q*q*q*q*q*q*q*qq")));
    assert!(points_fit(&cards("a*a*a*a*a*a*a*a*a*a*a*a*aaa")));
    assert!(!points_fit(&cards("a*a*a*a*a*a*a*a*a*a*a*a*aaaa")));
    assert!(points_fit(&cards("")));
}

#[test]
fn checks_all_round_lead_to_the_words() {
    let mut state = init_with_2_players(false);
    check(&mut state, 0).unwrap();
    assert!(state.game_board.round == GameRound::Blind);
    assert!(state.players[0].checked);
    assert!(state.players[0].last_action == Some(PlayerAction::Checked));
    check(&mut state, 1).unwrap();
    assert!(state.game_board.round == GameRound::Flop);
    assert!(state.players[0].last_action.is_none());
    check(&mut state, 0).unwrap();
    assert!(state.players[0].checked2);
    check(&mut state, 1).unwrap();
    assert!(state.game_board.round == GameRound::Choice);
    assert_eq!(check(&mut state, 0).unwrap_err(), GameError::CantCheckIfNeedToMatch);
}

#[test]
fn a_check_against_a_bet_leads_to_matching() {
    let mut state = init_with_2_players(false);
    send_bet(&mut state, 0, 1_000_000).unwrap();
    assert_eq!(check(&mut state, 0).unwrap_err(), GameError::CantCheckAfterBet);
    check(&mut state, 1).unwrap();
    assert!(state.game_board.round == GameRound::Matching);
    assert_eq!(check(&mut state, 1).unwrap_err(), GameError::CantCheckIfNeedToMatch);
    assert_eq!(match_bet(&mut state, 1, 1_000_000).unwrap().len(), 0);
    assert!(state.game_board.round == GameRound::Flop);
    assert_eq!(state.game_board.pool, 2_000_000);
    assert_eq!(state.players[1].bet, 1_000_000);
    assert_eq!(state.players[1].chips, 49_000_000);
}

#[test]
fn bets_are_recorded_and_paid_from_chips() {
    let mut state = init_with_2_players(false);
    assert_eq!(send_bet(&mut state, 0, 50_000_001).unwrap_err(), GameError::NotEnoughChips);
    assert_eq!(send_bet(&mut state, 7, 1_000_000).unwrap_err(), GameError::NotInGame);
    send_bet(&mut state, 0, 1_500_000).unwrap();
    assert_eq!(state.players[0].bet, 1_500_000);
    assert_eq!(state.players[0].bet2, 0);
    assert_eq!(state.players[0].chips, 48_500_000);
    assert!(state.players[0].last_action == Some(PlayerAction::SentBet(1_500_000)));
    assert_eq!(get_highest_bet(&state), 0);
    send_bet(&mut state, 1, 1_500_000).unwrap();
    assert!(state.game_board.round == GameRound::Flop);
    send_bet(&mut state, 0, 2_000_000).unwrap();
    assert_eq!(state.players[0].bet2, 2_000_000);
    assert_eq!(get_highest_bet(&state), 2_000_000);
    send_bet(&mut state, 1, 3_000_000).unwrap();
    assert!(state.game_board.round == GameRound::Matching2);
    assert_eq!(get_highest_bet(&state), 3_000_000);
    assert_eq!(match_bet(&mut state, 0, 999_999).unwrap_err(), GameError::WrongMatchingAmount);
    assert_eq!(match_bet(&mut state, 9, 1_000_000).unwrap_err(), GameError::NotInGame);
    match_bet(&mut state, 0, 1_000_000).unwrap();
    assert!(state.game_board.round == GameRound::Choice);
    assert!(state.players[0].last_action.is_none());
    assert_eq!(state.game_board.pool, 9_000_000);
    assert_eq!(send_bet(&mut state, 0, 1_000_000).unwrap_err(), GameError::CantBetNow);
}

#[test]
fn the_stats_of_a_phase() {
    let mut state = init_with_4_players(false);
    assert_eq!(get_bet_stats(&state), (false, false, true, false, false));
    send_bet(&mut state, 0, 1_000_000).unwrap();
    assert_eq!(get_bet_stats(&state), (false, false, true, false, false));
    send_bet(&mut state, 1, 2_000_000).unwrap();
    assert_eq!(get_bet_stats(&state), (false, false, false, false, false));
    check(&mut state, 2).unwrap();
    assert_eq!(get_bet_stats(&state), (false, false, false, true, false));
    fold(&mut state, 3).unwrap();
    assert!(state.game_board.round == GameRound::Matching);
    assert!(state.players[3].last_action == Some(PlayerAction::Folded));
    assert!(state.players[0].last_action.is_none());
    assert_eq!(get_bet_stats(&state), (false, false, false, false, false));
    let before = format!("{:?}", state);
    advance_turn_if_necessary(&mut state);
    assert_eq!(format!("{:?}", state), before);
}

#[test]
fn folding_draws_a_fresh_hand_and_sits_out() {
    let mut state = init_with_4_players(false);
    let deck = state.deck.len();
    fold(&mut state, 1).unwrap();
    assert!(state.players[1].folded);
    assert_eq!(state.players[1].hand.len(), 5);
    assert_ne!(letters(&state.players[1].hand), "rtiad");
    assert_eq!(state.deck.len(), deck - 5);
    assert!(state.game_board.winner_for_turn.is_none());
    assert_eq!(get_non_folded_players(&state).len(), 3);
    assert_eq!(get_non_folded_players(&state)[1].addr, "player2");
    assert_eq!(fold(&mut state, 9).unwrap_err(), GameError::NotInGame);
    assert_eq!(check(&mut state, 9).unwrap_err(), GameError::NotInGame);
    assert_eq!(state.deck.len(), deck - 5);
}

#[test]
fn the_last_player_in_takes_the_pot_less_the_rake() {
    let mut state = init_with_2_players(false);
    send_bet(&mut state, 0, 1_000_001).unwrap();
    let effects = fold(&mut state, 0).unwrap();
    assert_eq!(state.game_board.winner_for_turn, Some("player1".to_string()));
    assert_eq!(state.game_board.pool, 0);
    assert_eq!(state.players[1].chips, 50_000_000 + 1_000_001 - 100_000);
    assert_eq!(state.players[0].chips, 50_000_000 - 1_000_001);
    assert_eq!(state.players[0].bet, 1_000_001);
    assert_eq!(effects.len(), 1);
    match &effects[0] {
        Effect::Jackpot(SecretDreamscapeJackpot::Fund {}, funds) => assert_eq!(*funds, 100_000),
        _ => panic!("Expected the rake for the jackpot"),
    }
    let again = check(&mut state, 1).unwrap();
    assert_eq!(again.len(), 0);
    assert_eq!(state.players[1].chips, 50_900_001);
}

#[test]
fn paying_the_pot_to_given_seats() {
    let mut state = init_with_4_players(false);
    state.game_board.pool = 1_000;
    state.game_board.rake_percentage = 7;
    let effects = give_winners_their_money(&mut state, vec![2, 0, 3]);
    assert_eq!(state.game_board.winner_for_turn, Some("player2".to_string()));
    assert_eq!(state.game_board.pool, 0);
    assert_eq!(state.players[0].chips, 50_000_310);
    assert_eq!(state.players[1].chips, 50_000_000);
    assert_eq!(state.players[2].chips, 50_000_310);
    assert_eq!(state.players[3].chips, 50_000_310);
    match &effects[0] {
        Effect::Jackpot(SecretDreamscapeJackpot::Fund {}, funds) => assert_eq!(*funds, 70),
        _ => panic!("Expected the rake for the jackpot"),
    }
    let effects = give_winners_their_money(&mut state, vec![1]);
    assert_eq!(effects.len(), 0);
    assert_eq!(state.game_board.winner_for_turn, Some("player1".to_string()));
    assert_eq!(state.players[1].chips, 50_000_000);
    let effects = advance_to_next_turn_if_all_players_but_one_folded(&mut state);
    assert_eq!(effects.len(), 0);
    assert_eq!(state.game_board.winner_for_turn, Some("player1".to_string()));
}

#[test]
fn leaving_returns_the_chips() {
    let mut state = init_with_4_players(false);
    let effects = leave(&mut state, 1).unwrap();
    assert_eq!(state.players.len(), 3);
    assert_eq!(state.players[1].addr, "player2");
    assert_eq!(effects.len(), 1);
    match &effects[0] {
        Effect::Send { to_address, amount } => {
            assert_eq!(to_address, "player1");
            assert_eq!(*amount, 50_000_000);
        }
        _ => panic!("Expected the chips to be sent back"),
    }
    assert_eq!(leave(&mut state, 1).unwrap_err(), GameError::NotInGame);
    assert_eq!(state.players.len(), 3);
    join(&mut state, 1, "").unwrap();
    assert_eq!(state.players[3].addr, "player1");
    assert_eq!(state.players[3].chips, 0);
    assert_eq!(state.players[3].hand.len(), 5);
}

#[test]
fn leaving_down_to_one_player_ends_the_turn() {
    let mut state = init_with_2_players(false);
    send_bet(&mut state, 0, 2_000_000).unwrap();
    let effects = leave(&mut state, 0).unwrap();
    assert_eq!(state.players.len(), 1);
    assert_eq!(state.game_board.winner_for_turn, Some("player1".to_string()));
    assert_eq!(state.players[0].chips, 51_800_000);
    assert_eq!(effects.len(), 2);
    match (&effects[0], &effects[1]) {
        (Effect::Jackpot(_, funds), Effect::Send { to_address, amount }) => {
            assert_eq!(*funds, 200_000);
            assert_eq!(to_address, "player0");
            assert_eq!(*amount, 48_000_000);
        }
        _ => panic!("Expected the rake and the chips"),
    }
}

#[test]
fn buying_chips_is_bounded() {
    let mut state = new_session(false);
    join(&mut state, 0, "").unwrap();
    assert_eq!(
        run(&mut state, 3, 2_000_000, HandleMsg::BuyChips {}).unwrap_err(),
        GameError::NotInGame
    );
    assert_eq!(
        run(&mut state, 0, 999_999, HandleMsg::BuyChips {}).unwrap_err(),
        GameError::BuyOutOfRange
    );
    assert_eq!(
        run(&mut state, 0, 100_000_001, HandleMsg::BuyChips {}).unwrap_err(),
        GameError::BuyOutOfRange
    );
    let mut call = env(0, 2_000_000);
    call.sent_funds[0].denom = "uatom".to_string();
    assert_eq!(
        try_handle(&mut state, &call, HandleMsg::BuyChips {}, &dictionary()).unwrap().unwrap_err(),
        GameError::OnlyScrt
    );
    call.sent_funds = vec![];
    assert_eq!(
        try_handle(&mut state, &call, HandleMsg::BuyChips {}, &dictionary()).unwrap().unwrap_err(),
        GameError::OnlyScrt
    );
    run(&mut state, 0, 60_000_000, HandleMsg::BuyChips {}).unwrap();
    assert_eq!(state.players[0].chips, 60_000_000);
    assert_eq!(
        run(&mut state, 0, 40_000_001, HandleMsg::BuyChips {}).unwrap_err(),
        GameError::BuyOverMax
    );
    run(&mut state, 0, 40_000_000, HandleMsg::BuyChips {}).unwrap();
    assert_eq!(state.players[0].chips, 100_000_000);
}

#[test]
fn words_are_laid_down_once_and_in_the_choice_phase() {
    let mut state = init_with_4_players(false);
    assert_eq!(
        put_down_word(&mut state, 0, vec![0]).unwrap_err(),
        GameError::CantPutCardAtTheMoment
    );
    assert_eq!(put_down_word(&mut state, 8, vec![0]).unwrap_err(), GameError::NotInGame);
    fold(&mut state, 3).unwrap();
    to_choice(&mut state, 3);
    assert_eq!(
        put_down_word(&mut state, 3, vec![0]).unwrap_err(),
        GameError::CantPutCardIfFolded
    );
    put_down_word(&mut state, 0, vec![1, 250, 3]).unwrap();
    assert_eq!(letters(&state.players[0].hand), "ygl");
    assert_eq!(letters(&state.game_board.words[0].cards), "tlc");
    assert_eq!(state.game_board.words[0].player_addr, "player0");
    assert!(state.players[0].last_action == Some(PlayerAction::ChoseWord));
    assert_eq!(put_down_word(&mut state, 0, vec![0]).unwrap_err(), GameError::AlreadyPutDown);
    assert!(state.game_board.winner_for_turn.is_none());
    assert_eq!(request_next_turn(&mut state, 0).unwrap_err(), GameError::NoNextTurn);
    put_down_word(&mut state, 1, vec![]).unwrap();
    put_down_word(&mut state, 2, vec![0, 1, 2, 3, 4]).unwrap();
    assert_eq!(state.players[2].hand.len(), 0);
    assert_eq!(state.game_board.winner_for_turn, Some("player0".to_string()));
    assert_eq!(state.players[0].bet, 0);
    assert_eq!(state.players[1].bet2, 0);
    assert_eq!(state.players[0].chips, 48_000_000 + 1_800_000);
    assert_eq!(state.players[1].chips, 48_000_000 + 1_800_000);
    assert_eq!(state.players[2].chips, 48_000_000 + 1_800_000);
    assert_eq!(state.players[3].chips, 50_000_000);
    assert_eq!(get_winners_for_turn(&state, &dictionary()).len(), 3);
}

#[test]
fn the_winning_words_share_the_highest_score() {
    let mut state = init_with_4_players(false);
    to_choice(&mut state, 4);
    put_down_word(&mut state, 0, vec![254, 251, 250, 4, 0, 3, 253, 252]).unwrap();
    put_down_word(&mut state, 1, vec![254, 253, 252, 4, 2, 1]).unwrap();
    put_down_word(&mut state, 2, vec![2, 252, 3, 254, 250, 4, 0]).unwrap();
    let winners = get_winners_for_turn(&state, &dictionary());
    assert_eq!(winners.len(), 1);
    assert_eq!(winners[0].player_addr, "player0");
    assert_eq!(letters(&winners[0].cards), "billycan");
}

#[test]
fn collectibles_are_stamped() {
    let mut state = new_session(false);
    let nfts = vec![
        SecretDreamscapeNFT { id: "plain b".to_string(), letter: "B".to_string(), gold: false },
        SecretDreamscapeNFT { id: "gold b".to_string(), letter: "B".to_string(), gold: true },
        SecretDreamscapeNFT { id: "plain l".to_string(), letter: "L".to_string(), gold: false },
        SecretDreamscapeNFT { id: "other l".to_string(), letter: "L".to_string(), gold: false },
        SecretDreamscapeNFT { id: "long".to_string(), letter: "LL".to_string(), gold: false },
        SecretDreamscapeNFT { id: "small".to_string(), letter: "y".to_string(), gold: false },
    ];
    run(&mut state, 0, 0, HandleMsg::Join { secret: 0, password: "".to_string(), nfts }).unwrap();
    join(&mut state, 1, "").unwrap();
    lay_out(&mut state);
    run(&mut state, 0, 50_000_000, HandleMsg::BuyChips {}).unwrap();
    run(&mut state, 1, 50_000_000, HandleMsg::BuyChips {}).unwrap();
    to_choice(&mut state, 2);
    let effects = run(
        &mut state,
        0,
        0,
        HandleMsg::PutDownCard {
            indexes: vec![254, 251, 250, 4, 0, 3, 253, 252],
            opened_dictionary: true,
        },
    )
    .unwrap();
    assert!(state.players[0].opened_dictionary);
    let stamps: Vec<(String, u16, String)> = effects
        .iter()
        .map(|e| match e {
            Effect::Stamp(StampHandleMsg::Stamp { nft_id, word_id, callee }) => {
                (nft_id.clone(), *word_id, callee.clone())
            }
            _ => panic!("Expected a stamp"),
        })
        .collect();
    assert_eq!(
        stamps,
        vec![
            ("plain b".to_string(), 15, "player0".to_string()),
            ("plain l".to_string(), 15, "player0".to_string()),
            ("plain l".to_string(), 15, "player0".to_string()),
        ]
    );
}

#[test]
fn the_next_turn_refills_hands_and_sits_out_the_broke() {
    let mut state = init_with_2_players(false);
    to_choice(&mut state, 2);
    put_down_word(&mut state, 0, vec![254, 251, 250, 4, 0, 3, 253, 252]).unwrap();
    put_down_word(&mut state, 1, vec![254, 253, 252, 4, 2, 1]).unwrap();
    assert_eq!(request_next_turn(&mut state, 5).unwrap_err(), GameError::NotInGame);
    state.players[1].chips = 124_999;
    let deck = state.deck.len();
    request_next_turn(&mut state, 1).unwrap();
    assert_eq!(letters(&state.game_board.river), "taiko");
    assert_eq!(letters(&state.players[0].hand), "tgaar");
    assert_eq!(letters(&state.players[1].hand), "ram*sw");
    assert_eq!(state.deck.len(), deck - 11);
    assert!(!state.players[0].folded);
    assert!(state.players[1].folded);
    assert!(state.players[1].last_action == Some(PlayerAction::Folded));
    assert!(!state.players[0].checked && !state.players[0].checked2);
    assert!(is_well_formed(&state));
}

#[test]
fn a_turned_down_command_changes_nothing() {
    let mut state = init_with_4_players(false);
    send_bet(&mut state, 0, 1_000_000).unwrap();
    let before = format!("{:?}", state);
    assert!(send_bet(&mut state, 1, 1).is_err());
    assert!(match_bet(&mut state, 1, 5).is_err());
    assert!(check(&mut state, 0).is_err());
    assert!(put_down_word(&mut state, 0, vec![0]).is_err());
    assert!(request_next_turn(&mut state, 0).is_err());
    assert!(join(&mut state, 5, "").is_err());
    assert!(run(&mut state, 0, 1, HandleMsg::BuyChips {}).is_err());
    assert_eq!(format!("{:?}", state), before);
}

#[test]
fn what_the_engine_cannot_take_is_told_beforehand() {
    let dict = dictionary();
    let mut state = init_with_2_players(false);
    assert!(is_well_formed(&state));
    state.deck.truncate(4);
    assert!(is_well_formed(&state));
    assert!(!fits(&state, &env(0, 0), &HandleMsg::Fold {}, &dict));
    assert!(fits(&state, &env(7, 0), &HandleMsg::Fold {}, &dict));
    assert!(matches!(
        try_handle(&mut state, &env(7, 0), HandleMsg::Fold {}, &dict),
        Some(Err(GameError::NotInGame))
    ));
    assert!(fits(&state, &env(0, 0), &HandleMsg::Check {}, &dict));
    assert!(try_handle(&mut state, &env(0, 0), HandleMsg::Fold {}, &dict).is_none());
    assert_eq!(state.deck.len(), 4);
    assert!(!state.players[0].folded);
    assert!(!fits(
        &state,
        &env(2, 0),
        &HandleMsg::Join { secret: 2, password: "".to_string(), nfts: vec![] },
        &dict
    ));

    let mut twice = init_with_2_players(false);
    twice.players[1].addr = "player0".to_string();
    assert!(!is_well_formed(&twice));
    assert!(try_handle(&mut twice, &env(0, 0), HandleMsg::Check {}, &dict).is_none());

    let mut odd = init_with_2_players(false);
    odd.players[0].hand[0].letter = 26;
    assert!(!is_well_formed(&odd));
    let mut short = init_with_2_players(false);
    short.players[0].hand.pop();
    assert!(!is_well_formed(&short));
    let mut owing = init_with_2_players(false);
    owing.players[0].bet = 1;
    assert!(!is_well_formed(&owing));
    owing.game_board.pool = 1;
    assert!(is_well_formed(&owing));
    owing.game_board.rake_percentage = 101;
    assert!(!is_well_formed(&owing));

    let mut last = init_with_2_players(false);
    send_bet(&mut last, 0, 1_000_000).unwrap();
    fold(&mut last, 0).unwrap();
    last.game_board.turn = 255;
    assert!(!fits(&last, &env(0, 0), &HandleMsg::RequestNextTurn {}, &dict));
    last.game_board.turn = 254;
    assert!(fits(&last, &env(0, 0), &HandleMsg::RequestNextTurn {}, &dict));
    assert!(handle(&mut last, &env(0, 0), HandleMsg::RequestNextTurn {}, &dict).is_ok());
    assert_eq!(last.game_board.turn, 255);
}

#[test]
fn questions_are_answered() {
    let dict = dictionary();
    let mut state = init_with_2_players(false);
    assert!(matches!(
        query(&state, QueryMsg::GetResult {}, &dict),
        Err(GameError::WaitingForPlayers)
    ));
    assert!(matches!(
        query(&state, QueryMsg::GetGameState { secret: 9 }, &dict),
        Err(GameError::NotInGame)
    ));
    send_bet(&mut state, 0, 1_000_000).unwrap();
    let seen = get_game_state(&state, 1);
    assert_eq!(letters(&seen.hand), "rtiad");
    assert_eq!(seen.players.len(), 2);
    assert_eq!(seen.players[0].bet, 1_000_000);
    assert_eq!(seen.players[0].addr, "player0");
    assert_eq!(seen.players[0].hp, 5);
    assert!(!seen.players[0].folded);
    assert_eq!(seen.level_design, 0);
    send_bet(&mut state, 1, 1_000_000).unwrap();
    let seen = get_game_state(&state, 1);
    assert_eq!(seen.players[0].bet, 0);
    assert!(seen.round == GameRound::Flop);
    match query(&state, QueryMsg::CanJoin {}, &dict) {
        Ok(QueryAnswer::CanJoin(answer)) => {
            assert!(answer.can_join);
            assert!(!answer.requires_password);
        }
        _ => panic!("Expected the join permissions"),
    }
    let full = init_with_4_players(false);
    match query(&full, QueryMsg::CanJoin {}, &dict) {
        Ok(QueryAnswer::CanJoin(answer)) => assert!(!answer.can_join),
        _ => panic!("Expected the join permissions"),
    }
}

#[test]
fn reasons_are_worded() {
    assert_eq!(GameError::NotInGame.message(), "You are not in the game");
    assert_eq!(GameError::GameOver.message(), "Game is over");
    assert_eq!(GameError::GameFull.message(), "Game is full.");
    assert_eq!(GameError::WrongPassword.message(), "Wrong room password.");
    assert_eq!(GameError::BetTooSmall.message(), "Less than  0.125scrt");
    assert_eq!(GameError::NotEnoughChips.message(), "Not enough chips");
    assert_eq!(GameError::CantBetNow.message(), "You can't bet anything now");
    assert_eq!(GameError::WrongMatchingAmount.message(), "You've sent the wrong bet amount.");
    assert_eq!(GameError::WaitingForPlayers.message(), "Still waiting for players.");
    assert_eq!(
        GameError::CantUseCardTwice.message(),
        "You can't use the same card more than once"
    );
    assert_eq!(
        GameError::NotInYourHand.message(),
        "You cannot place a card that's not in your hand"
    );
    assert_eq!(
        GameError::NoNextTurn.message(),
        "You can't advance to the next turn yet"
    );
}

fn funds(state: &State) -> u64 {
    state.game_board.pool + state.players.iter().map(|p| p.chips).sum::<u64>()
}

fn paid(effects: &Vec<Effect>) -> u64 {
    effects
        .iter()
        .map(|e| match e {
            Effect::Send { amount, .. } => *amount,
            Effect::Jackpot(_, amount) => *amount,
            _ => 0,
        })
        .sum()
}

#[test]
fn no_command_makes_money() {
    let mut state = init_with_4_players(false);
    let mut held = funds(&state);
    assert_eq!(held, 200_000_000);
    let moves: Vec<(usize, HandleMsg)> = vec![
        (0, HandleMsg::Bet { amount: 1_000_001 }),
        (1, HandleMsg::Bet { amount: 2_000_000 }),
        (2, HandleMsg::Check {}),
        (3, HandleMsg::Fold {}),
        (0, HandleMsg::Match { amount: 999_999 }),
        (2, HandleMsg::Match { amount: 2_000_000 }),
        (0, HandleMsg::Bet { amount: 125_000 }),
        (1, HandleMsg::Bet { amount: 125_000 }),
        (2, HandleMsg::Leave {}),
        (0, HandleMsg::PutDownCard { indexes: vec![0, 250], opened_dictionary: false }),
        (1, HandleMsg::PutDownCard { indexes: vec![1, 251, 252], opened_dictionary: false }),
        (3, HandleMsg::RequestNextTurn {}),
        (0, HandleMsg::Bet { amount: 3_000_000 }),
        (1, HandleMsg::Leave {}),
        (3, HandleMsg::Leave {}),
    ];
    for (player, msg) in moves {
        let effects = run(&mut state, player, 0, msg).unwrap();
        let now = funds(&state) + paid(&effects);
        assert!(now <= held);
        assert!(held - now <= 2);
        held = funds(&state);
        assert!(is_well_formed(&state));
    }
    assert_eq!(state.game_board.winner_for_turn, Some("player0".to_string()));
    assert_eq!(state.players.len(), 1);
}

#[test]
fn a_check_of_somebody_who_folded_does_not_count() {
    let mut state = init_with_n_players(3, false);
    check(&mut state, 0).unwrap();
    assert_eq!(get_bet_stats(&state).3, true);
    fold(&mut state, 0).unwrap();
    assert_eq!(get_bet_stats(&state).3, false);
    send_bet(&mut state, 1, 1_000_000).unwrap();
    assert!(state.game_board.round == GameRound::Blind);
    send_bet(&mut state, 2, 1_000_000).unwrap();
    assert!(state.game_board.round == GameRound::Flop);
}

#[test]
fn bets_are_matched_in_the_matching_phases_only() {
    let mut state = init_with_2_players(false);
    assert_eq!(match_bet(&mut state, 0, 0).unwrap_err(), GameError::CantMatchNow);
    send_bet(&mut state, 0, 1_000_000).unwrap();
    assert_eq!(match_bet(&mut state, 1, 1_000_000).unwrap_err(), GameError::CantMatchNow);
    send_bet(&mut state, 1, 2_000_000).unwrap();
    assert!(state.game_board.round == GameRound::Matching);
    match_bet(&mut state, 0, 1_000_000).unwrap();
    assert!(state.game_board.round == GameRound::Flop);
    assert_eq!(match_bet(&mut state, 0, 0).unwrap_err(), GameError::CantMatchNow);
    send_bet(&mut state, 0, 1_000_000).unwrap();
    send_bet(&mut state, 1, 1_000_000).unwrap();
    assert!(state.game_board.round == GameRound::Choice);
    assert_eq!(match_bet(&mut state, 0, 0).unwrap_err(), GameError::CantMatchNow);
    assert_eq!(GameError::CantMatchNow.message(), "You can't match a bet at the moment");
}

fn dealt(state: &State) -> String {
    let mut text = letters(&state.game_board.river);
    for player in &state.players {
        text.push('/');
        text.push_str(&letters(&player.hand));
    }
    text
}

#[test]
fn the_deal_follows_the_block_time_and_every_secret() {
    let mut seats = new_session(false);
    join(&mut seats, 0, "").unwrap();
    take_seat(&mut seats, &env(1, 1_000_000), 1, "".to_string(), vec![]).unwrap();
    let deck = generate_deck(get_rng(&seats, &env(1, 1_000_000)));
    assert_eq!(deck.len(), 40);

    let mut state = new_session(false);
    join(&mut state, 0, "").unwrap();
    join(&mut state, 1, "").unwrap();
    let river = vec![deck[0], deck[39], deck[38], deck[37], deck[36]];
    let first = vec![deck[35], deck[34], deck[33], deck[32], deck[31]];
    let second = vec![deck[30], deck[29], deck[28], deck[27], deck[26]];
    assert_eq!(
        dealt(&state),
        format!("{}/{}/{}", letters(&river), letters(&first), letters(&second))
    );
    assert_eq!(dealt(&state), "kegmy/eje*et/fecen");

    let mut again = new_session(false);
    join(&mut again, 0, "").unwrap();
    join(&mut again, 1, "").unwrap();
    assert_eq!(dealt(&again), dealt(&state));
    assert_eq!(letters(&again.deck), letters(&state.deck));

    let mut other = new_session(false);
    join(&mut other, 0, "").unwrap();
    run(
        &mut other,
        1,
        1_000_000,
        HandleMsg::Join { secret: 77, password: "".to_string(), nfts: vec![] },
    )
    .unwrap();
    assert_ne!(dealt(&other), dealt(&state));

    let mut later = new_session(false);
    join(&mut later, 0, "").unwrap();
    let mut at = env(1, 1_000_000);
    at.block_time = 5;
    let msg = HandleMsg::Join { secret: 1, password: "".to_string(), nfts: vec![] };
    try_handle(&mut later, &at, msg, &dictionary()).unwrap().unwrap();
    assert_ne!(dealt(&later), dealt(&state));
}
