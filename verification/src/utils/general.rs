//! Helpers over the list of players.

use vstd::prelude::*;

use crate::game_state::{player_models, Player, PlayerModel, State};

verus! {

/// The predicate that holds of a player that has not folded.
pub open spec fn not_folded() -> spec_fn(PlayerModel) -> bool {
    |p: PlayerModel| !p.folded
}

/// The players that have not folded, in seat order.
pub open spec fn active_players(players: Seq<PlayerModel>) -> Seq<PlayerModel> {
    players.filter(not_folded())
}

/// Copies of the players that have not folded, in seat order.
pub fn get_non_folded_players(state: &State) -> (active: Vec<Player>)
    ensures
        player_models(active@) == active_players(state@.players),
{
    let mut active: Vec<Player> = Vec::new();
    let mut i: usize = 0;
    let ghost all = state@.players;
    assert(all.take(0) =~= Seq::<PlayerModel>::empty());
    while i < state.players.len()
        invariant
            i <= state.players.len(),
            all == state@.players,
            all.len() == state.players.len(),
            player_models(active@) == active_players(all.take(i as int)),
        decreases state.players.len() - i,
    {
        proof {
            assert(all.take(i + 1) =~= all.take(i as int).push(state.players[i as int]@));
            all.take(i as int).lemma_filter_push(state.players[i as int]@, not_folded());
        }
        if !state.players[i].folded {
            let p = state.players[i].clone();
            let ghost prev = active@;
            active.push(p);
            assert(player_models(active@) =~= player_models(prev).push(p@));
        }
        i += 1;
    }
    assert(all.take(state.players.len() as int) =~= all);
    active
}

} // verus!
