//! Who sits at the table: joining, leaving and buying chips.

use vstd::prelude::*;
use vstd::string::StringExecFns;

use crate::contract::{Coin, Effect, Env, GameError, SecretDreamscapeNFT};
use crate::game_state::{
    cards_valid, find_player, is_seated, lemma_totals_remove, seat_of,
    total_chips, BoardModel, Card, GameRound, Player, PlayerModel, State, StateModel,
};
use crate::rounds::{advance_spec, advance_turn_if_necessary, lemma_advance_frame};
use crate::settlement::{advance_to_next_turn_if_all_players_but_one_folded, fold_out_spec};
use crate::utils::cards::{
    deck_of, draw_cards, drawn, generate_deck, get_rng, is_fresh_deck, lemma_draw_facts,
    remaining, secrets_of, seed_material, seeded_rng, sha256_digest,
};
use crate::wagers::{outcome_of, Outcome};

verus! {

/// Why somebody is not let in, if so. The session takes four players, each
/// address once, and asks for its password where it has one.
pub open spec fn join_refusal(s: StateModel, sender: Seq<char>, password: Seq<char>) -> Option<
    GameError,
> {
    if match s.password {
        Some(p) => p@ != password,
        None => false,
    } {
        Some(GameError::WrongPassword)
    } else if s.players.len() >= 4 {
        Some(GameError::GameFull)
    } else if is_seated(s.players, sender) {
        Some(GameError::AlreadyInGame)
    } else {
        None
    }
}

/// A player who has just sat down: in the turn, with five hit points, no
/// cards, no wager and no chips.
pub open spec fn newcomer(sender: String, secret: u64, nfts: Seq<SecretDreamscapeNFT>) -> PlayerModel {
    PlayerModel {
        addr: sender,
        bet: 0,
        bet2: 0,
        checked: false,
        checked2: false,
        chips: 0,
        folded: false,
        hand: Seq::empty(),
        hp: 5,
        last_action: None,
        nfts,
        opened_dictionary: false,
        secret,
    }
}

/// The session with the newcomer in the last seat, before any card is dealt.
pub open spec fn seated(
    s: StateModel,
    sender: String,
    secret: u64,
    nfts: Seq<SecretDreamscapeNFT>,
) -> StateModel {
    StateModel { players: s.players.push(newcomer(sender, secret, nfts)), ..s }
}

/// The players and the pile after the first `upto` seats have been served:
/// in seat order, every player without a card draws five.
pub open spec fn deal_hands(players: Seq<PlayerModel>, deck: Seq<Card>, upto: nat) -> (
    Seq<PlayerModel>,
    Seq<Card>,
)
    decreases upto,
{
    if upto == 0 {
        (players, deck)
    } else {
        let served = deal_hands(players, deck, (upto - 1) as nat);
        let i = upto - 1;
        if served.0[i].hand.len() == 0 {
            (
                served.0.update(i, PlayerModel { hand: drawn(served.1, 5), ..served.0[i] }),
                remaining(served.1, 5),
            )
        } else {
            served
        }
    }
}

/// The session after dealing. With exactly two players at the table the
/// fresh deck becomes the draw pile and gives the river. With two or more,
/// every player without a card draws five, and a session that had not started
/// enters the blind phase.
pub open spec fn deal_spec(s: StateModel, fresh: Seq<Card>) -> StateModel {
    let opened = if s.players.len() == 2 {
        StateModel {
            deck: remaining(fresh, 5),
            game_board: BoardModel { river: drawn(fresh, 5), ..s.game_board },
            ..s
        }
    } else {
        s
    };
    if opened.players.len() >= 2 {
        let dealt = deal_hands(opened.players, opened.deck, opened.players.len());
        StateModel {
            players: dealt.0,
            deck: dealt.1,
            game_board: BoardModel {
                round: if opened.game_board.round == GameRound::NotStarted {
                    GameRound::Blind
                } else {
                    opened.game_board.round
                },
                ..opened.game_board
            },
            ..opened
        }
    } else {
        opened
    }
}

/// How many players of the list hold no card.
pub open spec fn empty_hands(players: Seq<PlayerModel>) -> nat
    decreases players.len(),
{
    if players.len() == 0 {
        0
    } else {
        empty_hands(players.drop_last()) + if players.last().hand.len() == 0 {
            1nat
        } else {
            0nat
        }
    }
}

/// The pile that is dealt from holds five cards for the river, where the
/// river is dealt, and five for every player without a card.
pub open spec fn deal_fits(s: StateModel, fresh: Seq<Card>) -> bool {
    &&& s.players.len() == 2 ==> fresh.len() >= 5 + 5 * empty_hands(s.players)
    &&& s.players.len() > 2 ==> s.deck.len() >= 5 * empty_hands(s.players)
}

/// Serving the first `upto` seats leaves the other seats alone, changes hands
/// only, and takes five cards from the pile for every empty hand served.
pub proof fn lemma_deal_hands(players: Seq<PlayerModel>, deck: Seq<Card>, upto: nat)
    requires
        upto <= players.len(),
        deck.len() >= 5 * empty_hands(players.take(upto as int)),
    ensures
        deal_hands(players, deck, upto).0.len() == players.len(),
        deal_hands(players, deck, upto).1.len() == deck.len() - 5 * empty_hands(
            players.take(upto as int),
        ),
        forall|j: int|
            upto <= j < players.len() ==> (#[trigger] deal_hands(players, deck, upto).0[j])
                == players[j],
        forall|j: int|
            0 <= j < players.len() ==> (#[trigger] deal_hands(players, deck, upto).0[j])
                == (PlayerModel { hand: deal_hands(players, deck, upto).0[j].hand, ..players[j] }),
        forall|j: int|
            0 <= j < upto ==> (#[trigger] deal_hands(players, deck, upto).0[j]).hand.len() == (
            if players[j].hand.len() == 0 {
                5
            } else {
                players[j].hand.len()
            }),
        cards_valid(deck) ==> cards_valid(deal_hands(players, deck, upto).1),
        cards_valid(deck) ==> forall|j: int|
            0 <= j < players.len() && cards_valid(players[j].hand) ==> cards_valid(
                (#[trigger] deal_hands(players, deck, upto).0[j]).hand,
            ),
    decreases upto,
{
    if upto > 0 {
        let i = upto - 1;
        assert(players.take(upto as int).drop_last() =~= players.take(i));
        assert(players.take(upto as int).last() == players[i]);
        lemma_deal_hands(players, deck, i as nat);
        let served = deal_hands(players, deck, i as nat);
        assert(served.0[i] == players[i]);
        if served.0[i].hand.len() == 0 {
            lemma_draw_facts(served.1, 5);
        }
    }
}

/// Lets the caller sit down, or says why not. No card is dealt yet.
pub fn take_seat(
    state: &mut State,
    env: &Env,
    secret: u64,
    password: String,
    nfts: Vec<SecretDreamscapeNFT>,
) -> (r: Result<(), GameError>)
    ensures
        match r {
            Ok(_) => join_refusal(old(state)@, env.sender@, password@) is None && final(state)@
                == seated(old(state)@, env.sender, secret, nfts@),
            Err(e) => join_refusal(old(state)@, env.sender@, password@) == Some(e) && *final(state)
                == *old(state),
        },
{
    match &state.password {
        Some(pass) => {
            if !(password == *pass) {
                return Err(GameError::WrongPassword);
            }
        },
        None => {},
    }
    if state.players.len() >= 4 {
        return Err(GameError::GameFull);
    }
    if find_player(state, &env.sender).is_some() {
        return Err(GameError::AlreadyInGame);
    }
    let ghost before = state@.players;
    let player = Player {
        addr: env.sender.clone(),
        secret,
        hand: Vec::new(),
        hp: 5,
        bet: 0,
        bet2: 0,
        folded: false,
        checked: false,
        checked2: false,
        opened_dictionary: false,
        last_action: None,
        nfts,
        chips: 0,
    };
    assert(player@ =~= newcomer(env.sender, secret, nfts@));
    state.players.push(player);
    assert(state@.players =~= before.push(newcomer(env.sender, secret, nfts@)));
    Ok(())
}

/// Deals after somebody has sat down. `fresh` is the shuffled deck to open
/// the session with; it is used where exactly two players sit at the table.
pub fn deal_in(state: &mut State, fresh: Vec<Card>)
    requires
        deal_fits(old(state)@, fresh@),
    ensures
        final(state)@ == deal_spec(old(state)@, fresh@),
{
    let ghost s0 = state@;
    if state.players.len() == 2 {
        state.deck = fresh;
        proof {
            lemma_draw_facts(fresh@, 5);
        }
        let river = draw_cards(&mut state.deck, 5);
        state.game_board.river = river;
    }
    if state.players.len() >= 2 {
        let ghost opened = state@;
        let n = state.players.len();
        let mut i: usize = 0;
        assert(opened.players.take(n as int) =~= opened.players);
        while i < n
            invariant
                i <= n,
                n == opened.players.len(),
                n == state.players.len(),
                opened.deck.len() >= 5 * empty_hands(opened.players),
                (state@.players, state@.deck) == deal_hands(opened.players, opened.deck, i as nat),
                state@ == (StateModel { players: state@.players, deck: state@.deck, ..opened }),
            decreases n - i,
        {
            proof {
                lemma_empty_hands_prefix(opened.players, i as int);
                lemma_empty_hands_prefix(opened.players, i + 1);
                lemma_deal_hands(opened.players, opened.deck, i as nat);
                assert(opened.players.take(i + 1).drop_last() =~= opened.players.take(i as int));
                assert(opened.players.take(i + 1).last() == opened.players[i as int]);
            }
            let ghost prev = state@.players;
            if state.players[i].hand.len() == 0 {
                let hand = draw_cards(&mut state.deck, 5);
                state.players[i].hand = hand;
                assert(state@.players =~= prev.update(
                    i as int,
                    PlayerModel { hand: hand@, ..prev[i as int] },
                ));
            }
            i += 1;
        }
        if state.game_board.round == GameRound::NotStarted {
            state.game_board.round = GameRound::Blind;
        }
    }
}

/// The empty hands of a prefix are among the empty hands of the whole.
pub proof fn lemma_empty_hands_prefix(players: Seq<PlayerModel>, k: int)
    requires
        0 <= k <= players.len(),
    ensures
        empty_hands(players.take(k)) <= empty_hands(players),
    decreases players.len(),
{
    if players.len() == 0 || k == players.len() {
        assert(players.take(k) =~= players);
    } else {
        assert(players.drop_last().take(k) =~= players.take(k));
        lemma_empty_hands_prefix(players.drop_last(), k);
    }
}

/// Somebody who is let in by a session that already has two players finds
/// five cards in the draw pile for every player without a card, the
/// newcomer among them.
pub open spec fn join_fits(s: StateModel, sender: Seq<char>, password: Seq<char>) -> bool {
    join_refusal(s, sender, password) is None && s.players.len() >= 2 ==> s.deck.len() >= 5 * (
    empty_hands(s.players) + 1)
}

/// The outcome of joining, given the shuffled deck that the session is opened
/// with where the newcomer is its second player.
pub open spec fn join_spec(
    s: StateModel,
    sender: String,
    secret: u64,
    password: Seq<char>,
    nfts: Seq<SecretDreamscapeNFT>,
    fresh: Seq<Card>,
) -> Outcome {
    match join_refusal(s, sender@, password) {
        Some(e) => Err(e),
        None => Ok((deal_spec(seated(s, sender, secret, nfts), fresh), Seq::empty())),
    }
}

/// A player sits down. The second player to sit down opens the session: the
/// deck is the opening deck for the block time and the secrets of both, and
/// the river and the hands are dealt from it.
pub fn join(
    state: &mut State,
    env: &Env,
    secret: u64,
    password: String,
    nfts: Vec<SecretDreamscapeNFT>,
) -> (r: Result<Vec<Effect>, GameError>)
    requires
        old(state).wf(),
        join_fits(old(state)@, env.sender@, password@),
    ensures
        r matches Err(e) ==> join_refusal(old(state)@, env.sender@, password@) == Some(e)
            && *final(state) == *old(state),
        r is Ok ==> final(state).wf(),
        r is Ok ==> exists|fresh: Seq<Card>|
            dealt_from(old(state)@, env.sender, secret, nfts@, env.block_time, fresh)
                && outcome_of(r, final(state)@) == join_spec(
                old(state)@,
                env.sender,
                secret,
                password@,
                nfts@,
                fresh,
            ),
{
    let ghost s0 = state@;
    let ghost pw = password@;
    let ghost held = nfts@;
    match take_seat(state, env, secret, password, nfts) {
        Err(e) => {
            return Err(e);
        },
        Ok(_) => {},
    }
    proof {
        lemma_empty_hands_push(s0.players, newcomer(env.sender, secret, held));
        lemma_empty_hands_bound(state@.players);
    }
    let fresh = if state.players.len() == 2 {
        generate_deck(get_rng(state, env))
    } else {
        Vec::new()
    };
    let ghost used = fresh@;
    proof {
        crate::wellformed::lemma_join_wf(s0, env.sender, secret, pw, held, used);
    }
    deal_in(state, fresh);
    let effects: Vec<Effect> = Vec::new();
    assert(dealt_from(s0, env.sender, secret, held, env.block_time, used) && outcome_of(
        Ok(effects),
        state@,
    ) == join_spec(
        s0,
        env.sender,
        secret,
        pw,
        held,
        used,
    ));
    Ok(effects)
}

/// The deck is fit to open the session with, where joining opens it: where
/// the newcomer is the second player, the deck is a fresh one.
pub open spec fn opens_with(s: StateModel, fresh: Seq<Card>) -> bool {
    s.players.len() == 1 ==> is_fresh_deck(fresh)
}

/// The deck that opens a session: the one that the generator yields which is
/// seeded with the digest of the block time and of the secrets of the players
/// at the table, in join order.
pub open spec fn opening_deck(s: StateModel, block_time: u64) -> Seq<Card> {
    deck_of(seeded_rng(sha256_digest(seed_material(block_time, secrets_of(s.players)))))
}

/// The deck is the one that joining deals from: where the newcomer is the
/// second player, it is the opening deck of the session with the newcomer
/// seated, and a fresh deck.
pub open spec fn dealt_from(
    s: StateModel,
    sender: String,
    secret: u64,
    nfts: Seq<SecretDreamscapeNFT>,
    block_time: u64,
    fresh: Seq<Card>,
) -> bool {
    s.players.len() == 1 ==> is_fresh_deck(fresh) && fresh == opening_deck(
        seated(s, sender, secret, nfts),
        block_time,
    )
}

/// A newcomer adds one to the number of empty hands.
pub proof fn lemma_empty_hands_push(players: Seq<PlayerModel>, p: PlayerModel)
    ensures
        empty_hands(players.push(p)) == empty_hands(players) + if p.hand.len() == 0 {
            1nat
        } else {
            0nat
        },
{
    assert(players.push(p).drop_last() =~= players);
}

/// There are no more empty hands than players.
pub proof fn lemma_empty_hands_bound(players: Seq<PlayerModel>)
    ensures
        empty_hands(players) <= players.len(),
    decreases players.len(),
{
    if players.len() > 0 {
        lemma_empty_hands_bound(players.drop_last());
    }
}

/// The session without the seat of the player with this address.
pub open spec fn vacated(s: StateModel, sender: Seq<char>) -> StateModel {
    StateModel { players: s.players.remove(seat_of(s.players, sender)), ..s }
}

/// The outcome of leaving. Only a player can leave. The seat is given up, the
/// advancement and the fold-out rule are applied to those who stay, and the
/// chips that the player held are sent back.
pub open spec fn leave_spec(s: StateModel, sender: String) -> Outcome {
    if !is_seated(s.players, sender@) {
        Err(GameError::NotInGame)
    } else {
        let chips = s.players[seat_of(s.players, sender@)].chips;
        let settled = fold_out_spec(advance_spec(vacated(s, sender@)));
        Ok(
            (
                settled.0,
                if chips > 0 {
                    settled.1.push(Effect::Send { to_address: sender, amount: chips })
                } else {
                    settled.1
                },
            ),
        )
    }
}

/// A player gives up the seat and takes the own chips along.
pub fn leave(state: &mut State, env: &Env) -> (r: Result<Vec<Effect>, GameError>)
    requires
        old(state).wf(),
    ensures
        outcome_of(r, final(state)@) == leave_spec(old(state)@, env.sender),
        r is Err ==> *final(state) == *old(state),
        r is Ok ==> final(state).wf(),
{
    let ghost s0 = state@;
    proof {
        crate::wellformed::lemma_leave_wf(s0, env.sender);
    }
    let i = match find_player(state, &env.sender) {
        Some(i) => i,
        None => {
            return Err(GameError::NotInGame);
        },
    };
    let chips = state.players[i].chips;
    state.players.remove(i);
    proof {
        assert(state@.players =~= s0.players.remove(i as int));
        lemma_totals_remove(s0.players, i as int);
    }
    proof {
        lemma_advance_frame(state@);
    }
    advance_turn_if_necessary(state);
    let mut effects = advance_to_next_turn_if_all_players_but_one_folded(state);
    if chips > 0 {
        effects.push(Effect::Send { to_address: env.sender.clone(), amount: chips });
    }
    Ok(effects)
}

/// The name of the currency that chips are bought with.
pub open spec fn native_denom() -> Seq<char> {
    "uscrt"@
}

/// The amount of a coin as the engine counts it: its low 64 bits.
pub open spec fn counted(coin: Coin) -> u64 {
    coin.amount as u64
}

/// Why chips are not sold, if so. The caller has a seat and sends exactly one
/// coin of the native currency, worth no less than the least and no more than
/// the most that the session sells, and ends up with no more chips than that
/// most.
pub open spec fn buy_refusal(s: StateModel, sender: Seq<char>, funds: Seq<Coin>) -> Option<
    GameError,
> {
    if !is_seated(s.players, sender) {
        Some(GameError::NotInGame)
    } else if funds.len() != 1 {
        Some(GameError::OnlyScrt)
    } else if funds[0].denom@ != native_denom() {
        Some(GameError::OnlyScrt)
    } else if counted(funds[0]) < s.min_buy || counted(funds[0]) > s.max_buy {
        Some(GameError::BuyOutOfRange)
    } else if s.players[seat_of(s.players, sender)].chips + counted(funds[0]) > s.max_buy {
        Some(GameError::BuyOverMax)
    } else {
        None
    }
}

/// The outcome of buying chips.
pub open spec fn buy_spec(s: StateModel, sender: Seq<char>, funds: Seq<Coin>) -> Outcome {
    match buy_refusal(s, sender, funds) {
        Some(e) => Err(e),
        None => {
            let seat = seat_of(s.players, sender);
            let p = s.players[seat];
            Ok(
                (
                    StateModel {
                        players: s.players.update(
                            seat,
                            PlayerModel { chips: (p.chips + counted(funds[0])) as u64, ..p },
                        ),
                        ..s
                    },
                    Seq::empty(),
                ),
            )
        },
    }
}

/// Chips that are sold keep the pot and all chips together within `u64`.
pub open spec fn buy_fits(s: StateModel, sender: Seq<char>, funds: Seq<Coin>) -> bool {
    buy_refusal(s, sender, funds) is None ==> s.game_board.pool + total_chips(s.players)
        + counted(funds[0]) <= u64::MAX
}

/// A player turns the coin that came with the command into chips.
pub fn buy_chips(state: &mut State, env: &Env) -> (r: Result<Vec<Effect>, GameError>)
    requires
        old(state).wf(),
        buy_fits(old(state)@, env.sender@, env.sent_funds@),
    ensures
        outcome_of(r, final(state)@) == buy_spec(old(state)@, env.sender@, env.sent_funds@),
        r is Err ==> *final(state) == *old(state),
        r is Ok ==> final(state).wf(),
{
    let ghost s0 = state@;
    proof {
        crate::wellformed::lemma_buy_wf(s0, env.sender@, env.sent_funds@);
    }
    let seat = match find_player(state, &env.sender) {
        Some(i) => i,
        None => {
            return Err(GameError::NotInGame);
        },
    };
    if env.sent_funds.len() != 1 {
        return Err(GameError::OnlyScrt);
    }
    let native = String::from_str("uscrt");
    if !(env.sent_funds[0].denom == native) {
        return Err(GameError::OnlyScrt);
    }
    let amount = env.sent_funds[0].amount as u64;
    if amount < state.min_buy || amount > state.max_buy {
        return Err(GameError::BuyOutOfRange);
    }
    if state.players[seat].chips as u128 + amount as u128 > state.max_buy as u128 {
        return Err(GameError::BuyOverMax);
    }
    state.players[seat].chips += amount;
    proof {
        let bought = buy_spec(s0, env.sender@, env.sent_funds@)->Ok_0.0;
        assert(state@.players =~= bought.players);
    }
    Ok(Vec::new())
}

} // verus!
