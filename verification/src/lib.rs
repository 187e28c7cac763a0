//! Lifecycle core of a multi-player trivia game whose answers and answer key
//! stay secret-shared: a registry of games, each a linear state machine
//! (Pending, InProgress, Complete, Published), driven by actions and by
//! events delivered from a multi-party-computation collaborator and matched
//! to games and players through metadata tags.

use vstd::prelude::*;

pub mod types;
pub mod zk_compute;

use vstd::multiset::Multiset;

use types::lemma_player_positions_push;
use types::lemma_sorted_insert_multiset;
use types::lemma_sorted_insert_player_count;
use types::player_positions;
use types::lemma_sorted_insert_sorted;
use types::sorted_desc;
use types::sorted_insert;
use types::Address;
use types::GameState;
use types::GameStatus;
use types::GameView;
use types::LeaderboardPosition;
use types::OpenedVariable;
use types::OpenedView;
use types::SecretVarId;
use types::TriviaError;
use types::VariableKind;
use types::MAX_QUESTIONS;

verus! {

/// Mathematical model of the whole registry: the ordered index of game ids
/// and the sequence of game records.
pub struct StateView {
    pub game_ids: Seq<u32>,
    pub games: Seq<GameView>,
}

/// The ids of a sequence of games, in the same order.
pub open spec fn ids_of(games: Seq<GameView>) -> Seq<u32> {
    games.map_values(|g: GameView| g.game_id)
}

/// Whether some game in the sequence carries the given id.
pub open spec fn has_game(games: Seq<GameView>, game_id: u32) -> bool {
    exists|i: int| 0 <= i < games.len() && games[i].game_id == game_id
}

/// The index of the game with the given id (unique when ids are unique).
pub open spec fn game_index(games: Seq<GameView>, game_id: u32) -> int {
    choose|i: int| 0 <= i < games.len() && games[i].game_id == game_id
}

/// The game with the given id.
pub open spec fn game_of(games: Seq<GameView>, game_id: u32) -> GameView {
    games[game_index(games, game_id)]
}

/// No two games share an id.
pub open spec fn unique_ids(games: Seq<GameView>) -> bool {
    forall|i: int, j: int|
        0 <= i < j < games.len() ==> games[i].game_id != games[j].game_id
}

impl StateView {
    /// Registry well-formedness: the id index lists exactly the games' ids
    /// in order, ids are unique, and every game record is well-formed.
    pub open spec fn wf(self) -> bool {
        &&& self.game_ids == ids_of(self.games)
        &&& unique_ids(self.games)
        &&& forall|i: int| 0 <= i < self.games.len() ==> (#[trigger] self.games[i]).wf()
    }
}

/// When ids are unique, the id of a game pins down its index.
pub proof fn lemma_game_index(games: Seq<GameView>, i: int)
    requires
        unique_ids(games),
        0 <= i < games.len(),
    ensures
        has_game(games, games[i].game_id),
        game_index(games, games[i].game_id) == i,
        game_of(games, games[i].game_id) == games[i],
{
    let id = games[i].game_id;
    assert(has_game(games, id));
    let j = game_index(games, id);
    assert(0 <= j < games.len() && games[j].game_id == id);
    if i < j {
        assert(games[i].game_id != games[j].game_id);
    }
    if j < i {
        assert(games[j].game_id != games[i].game_id);
    }
}

/// The entirety of durable state: the registry of all games, keyed by their
/// unique id. Games are never deleted; terminal games persist.
pub struct ContractState {
    /// Index of every registered game id, in registration order.
    pub game_ids: Vec<u32>,
    /// The game records, in registration order.
    pub games: Vec<GameState>,
}

impl View for ContractState {
    type V = StateView;

    open spec fn view(&self) -> StateView {
        StateView {
            game_ids: self.game_ids@,
            games: self.games@.map_values(|g: GameState| g@),
        }
    }
}

impl ContractState {
    /// Create the empty registry.
    pub fn new() -> (s: ContractState)
        ensures
            s@.games == Seq::<GameView>::empty(),
            s@.game_ids == Seq::<u32>::empty(),
            s@.wf(),
    {
        let s = ContractState { game_ids: Vec::new(), games: Vec::new() };
        proof {
            assert(s@.games =~= Seq::<GameView>::empty());
            assert(s@.game_ids =~= ids_of(s@.games));
        }
        s
    }

    /// Check if a game id is already registered.
    pub fn has_game_id(&self, game_id: u32) -> (r: bool)
        requires
            self@.wf(),
        ensures
            r == has_game(self@.games, game_id),
    {
        let mut i: usize = 0;
        while i < self.game_ids.len()
            invariant
                self@.wf(),
                0 <= i <= self@.game_ids.len(),
                self@.game_ids.len() == self@.games.len(),
                forall|j: int| 0 <= j < i ==> self@.games[j].game_id != game_id,
            decreases self@.game_ids.len() - i,
        {
            if self.game_ids[i] == game_id {
                proof {
                    assert(self@.game_ids[i as int] == self@.games[i as int].game_id);
                }
                return true;
            }
            i = i + 1;
        }
        false
    }

    /// Register a new game. Callers must have checked that its id is free.
    pub fn add_game(&mut self, game: GameState)
        requires
            old(self)@.wf(),
            game@.wf(),
            !has_game(old(self)@.games, game.game_id),
        ensures
            final(self)@.games == old(self)@.games.push(game@),
            final(self)@.game_ids == old(self)@.game_ids.push(game.game_id),
            final(self)@.wf(),
    {
        self.game_ids.push(game.game_id);
        self.games.push(game);
        proof {
            assert(final(self)@.games =~= old(self)@.games.push(game@));
            assert(final(self)@.game_ids =~= ids_of(final(self)@.games));
        }
    }

    /// Look up a game by id.
    pub fn get_game(&self, game_id: u32) -> (r: Option<&GameState>)
        requires
            self@.wf(),
        ensures
            match r {
                Some(g) => has_game(self@.games, game_id) && g@ == game_of(self@.games, game_id),
                None => !has_game(self@.games, game_id),
            },
    {
        let mut i: usize = 0;
        while i < self.games.len()
            invariant
                self@.wf(),
                0 <= i <= self@.games.len(),
                forall|j: int| 0 <= j < i ==> self@.games[j].game_id != game_id,
            decreases self@.games.len() - i,
        {
            if self.games[i].game_id == game_id {
                proof {
                    lemma_game_index(self@.games, i as int);
                }
                return Some(&self.games[i]);
            }
            i = i + 1;
        }
        None
    }

    /// Look up a game by id and borrow it mutably.
    pub fn get_game_mut(&mut self, game_id: u32) -> (r: Option<&mut GameState>)
        requires
            unique_ids(old(self)@.games),
        ensures
            match r {
                Some(g) => {
                    &&& has_game(old(self)@.games, game_id)
                    &&& (*g)@ == game_of(old(self)@.games, game_id)
                    &&& final(self).games@ == old(self).games@.update(
                        game_index(old(self)@.games, game_id),
                        *final(g),
                    )
                    &&& final(self).game_ids@ == old(self).game_ids@
                },
                None => !has_game(old(self)@.games, game_id) && *final(self) == *old(self),
            },
    {
        let mut i: usize = 0;
        let n = self.games.len();
        while i < n
            invariant
                unique_ids(self@.games),
                *self == *old(self),
                n == self@.games.len(),
                0 <= i <= n,
                forall|j: int| 0 <= j < i ==> self@.games[j].game_id != game_id,
            decreases n - i,
        {
            if self.games[i].game_id == game_id {
                proof {
                    lemma_game_index(self@.games, i as int);
                }
                return Some(&mut self.games[i]);
            }
            i = i + 1;
        }
        None
    }

    /// Look up a game's index and borrow it mutably. Callers must have
    /// checked that the id is registered.
    pub fn get_game_with_index_mut(&mut self, game_id: u32) -> (r: (usize, &mut GameState))
        requires
            unique_ids(old(self)@.games),
            has_game(old(self)@.games, game_id),
        ensures
            r.0 as int == game_index(old(self)@.games, game_id),
            (*r.1)@ == game_of(old(self)@.games, game_id),
            final(self).games@ == old(self).games@.update(r.0 as int, *final(r.1)),
            final(self).game_ids@ == old(self).game_ids@,
    {
        let n = self.games.len();
        let mut i: usize = 0;
        while self.games[i].game_id != game_id
            invariant
                unique_ids(self@.games),
                *self == *old(self),
                has_game(self@.games, game_id),
                n == self@.games.len(),
                0 <= i < n,
                forall|j: int| 0 <= j < i ==> self@.games[j].game_id != game_id,
            decreases self@.games.len() - i,
        {
            i = i + 1;
            proof {
                let k = game_index(self@.games, game_id);
                assert(self@.games[k].game_id == game_id);
                assert(i <= k);
            }
        }
        proof {
            lemma_game_index(self@.games, i as int);
        }
        let g = &mut self.games[i];
        (i, g)
    }
}

/// Updating one record and then abstracting the sequence is the same as
/// abstracting it and updating the record's model.
pub proof fn lemma_view_update(games: Seq<GameState>, i: int, g: GameState)
    requires
        0 <= i < games.len(),
    ensures
        games.update(i, g).map_values(|x: GameState| x@) == games.map_values(
            |x: GameState| x@,
        ).update(i, g@),
{
    assert(games.update(i, g).map_values(|x: GameState| x@) =~= games.map_values(
        |x: GameState| x@,
    ).update(i, g@));
}

/// Create the empty contract state; the registry starts with no games.
pub fn initialize() -> (s: ContractState)
    ensures
        s@.games == Seq::<GameView>::empty(),
        s@.game_ids == Seq::<u32>::empty(),
        s@.wf(),
{
    ContractState::new()
}

/// Replacing one game record by another carrying the same id leaves the id
/// index, id uniqueness, game existence and game positions unchanged.
pub proof fn lemma_ids_after_update(games0: Seq<GameView>, games1: Seq<GameView>, i: int)
    requires
        unique_ids(games0),
        0 <= i < games0.len(),
        games1 == games0.update(i, games1[i]),
        games1[i].game_id == games0[i].game_id,
    ensures
        ids_of(games1) == ids_of(games0),
        unique_ids(games1),
        forall|id: u32| has_game(games1, id) == has_game(games0, id),
        forall|id: u32| has_game(games0, id) ==> game_index(games1, id) == game_index(games0, id),
{
    assert(ids_of(games1) =~= ids_of(games0));
    assert forall|k: int| 0 <= k < games1.len() implies (#[trigger] games1[k]).game_id
        == games0[k].game_id by {}
    assert forall|id: u32| has_game(games1, id) == has_game(games0, id) by {
        if has_game(games0, id) {
            let k = game_index(games0, id);
            assert(games1[k].game_id == id);
        }
        if has_game(games1, id) {
            let k = game_index(games1, id);
            assert(games0[k].game_id == id);
        }
    }
    assert forall|id: u32| has_game(games0, id) implies game_index(games1, id) == game_index(
        games0,
        id,
    ) by {
        let k = game_index(games0, id);
        assert(games1[k].game_id == id);
        lemma_game_index(games1, k);
    }
}

/// Replacing one game record with a well-formed record carrying the same id
/// keeps the whole registry well-formed.
pub proof fn lemma_wf_after_update(v0: StateView, v1: StateView, i: int)
    requires
        v0.wf(),
        0 <= i < v0.games.len(),
        v1.game_ids == v0.game_ids,
        v1.games == v0.games.update(i, v1.games[i]),
        v1.games[i].game_id == v0.games[i].game_id,
        v1.games[i].wf(),
    ensures
        v1.wf(),
        ids_of(v1.games) == ids_of(v0.games),
        forall|id: u32| has_game(v1.games, id) == has_game(v0.games, id),
        forall|id: u32| has_game(v0.games, id) ==> game_index(v1.games, id) == game_index(
            v0.games,
            id,
        ),
{
    lemma_ids_after_update(v0.games, v1.games, i);
}

/// The parameters of the create-game action.
#[derive(Clone, Copy, PartialEq, Eq, Structural, Debug)]
pub struct GameInitParams {
    pub game_id: u32,
    pub question_count: u8,
    pub game_deadline: i64,
}

/// Admission rule of create-game, in the order the checks are applied: the
/// deadline must lie in the future, the id must be free, and the question
/// count must fit the fixed capacity.
pub open spec fn create_game_check(
    games: Seq<GameView>,
    block_time: i64,
    params: GameInitParams,
) -> Result<(), TriviaError> {
    if block_time >= params.game_deadline {
        Err(TriviaError::DeadlineInPast)
    } else if has_game(games, params.game_id) {
        Err(TriviaError::GameIdInUse)
    } else if params.question_count as int > MAX_QUESTIONS as int {
        Err(TriviaError::TooManyQuestions)
    } else {
        Ok(())
    }
}

/// Start a new game: register a Pending record under the given id and ask
/// the collaborator for the secret answer key, tagged so that its committed
/// handle can be matched back to this game. A rejected call leaves the
/// registry untouched; in particular, a duplicate id is rejected exactly
/// when the id is already registered.
pub fn create_game(
    state: &mut ContractState,
    block_time: i64,
    sender: Address,
    params: GameInitParams,
) -> (r: Result<VariableKind, TriviaError>)
    requires
        old(state)@.wf(),
    ensures
        final(state)@.wf(),
        match r {
            Ok(m) => {
                &&& create_game_check(old(state)@.games, block_time, params) is Ok
                &&& m == (VariableKind::GameAnswers {
                    game_id: params.game_id,
                    length: params.question_count,
                })
                &&& final(state)@.games == old(state)@.games.push(
                    GameView::init(
                        params.game_id,
                        sender,
                        params.game_deadline,
                        params.question_count,
                    ),
                )
                &&& final(state)@.game_ids == old(state)@.game_ids.push(params.game_id)
            },
            Err(e) => {
                &&& create_game_check(old(state)@.games, block_time, params) == Err::<
                    (),
                    TriviaError,
                >(e)
                &&& *final(state) == *old(state)
            },
        },
{
    if block_time >= params.game_deadline {
        return Err(TriviaError::DeadlineInPast);
    }
    if state.has_game_id(params.game_id) {
        return Err(TriviaError::GameIdInUse);
    }
    if params.question_count as usize > MAX_QUESTIONS {
        return Err(TriviaError::TooManyQuestions);
    }
    let game = GameState::new(params.game_id, sender, params.game_deadline, params.question_count);
    state.add_game(game);
    Ok(VariableKind::GameAnswers { game_id: params.game_id, length: params.question_count })
}

/// Admission rule of the answer-key-committed event: the tag must be a
/// GameAnswers tag, its game must exist and must still be Pending. On
/// success it yields the game id the event belongs to.
pub open spec fn game_started_check(games: Seq<GameView>, metadata: VariableKind) -> Result<
    u32,
    TriviaError,
> {
    match metadata {
        VariableKind::GameAnswers { game_id, length } => {
            if !has_game(games, game_id) {
                Err(TriviaError::UnknownGameId)
            } else if !(game_of(games, game_id).game_status is Pending) {
                Err(TriviaError::StatusConflict)
            } else {
                Ok(game_id)
            }
        },
        _ => Err(TriviaError::UnexpectedMetadata),
    }
}

/// The collaborator confirmed that the answer-key secret value exists: move
/// the game from Pending to InProgress and record the key's handle. This is
/// the only transition that sets the handle, so it is set exactly once.
pub fn game_started(
    state: &mut ContractState,
    game_data_svar_id: SecretVarId,
    metadata: VariableKind,
) -> (r: Result<(), TriviaError>)
    requires
        old(state)@.wf(),
    ensures
        final(state)@.wf(),
        final(state)@.game_ids == old(state)@.game_ids,
        match r {
            Ok(_) => metadata matches VariableKind::GameAnswers { game_id, length }
                && game_started_check(old(state)@.games, metadata) == Ok::<u32, TriviaError>(
                game_id,
            ) && final(state)@.games == old(state)@.games.update(
                game_index(old(state)@.games, game_id),
                (GameView {
                    game_status: GameStatus::InProgress,
                    game_data_svar: Some(game_data_svar_id),
                    ..game_of(old(state)@.games, game_id)
                }),
            ),
            Err(e) => game_started_check(old(state)@.games, metadata) == Err::<u32, TriviaError>(e)
                && *final(state) == *old(state),
        },
{
    match metadata {
        VariableKind::GameAnswers { game_id, length: _ } => {
            if !state.has_game_id(game_id) {
                return Err(TriviaError::UnknownGameId);
            }
            let is_pending = match state.get_game(game_id) {
                Some(g) => g.game_status == GameStatus::Pending,
                None => false,
            };
            if !is_pending {
                return Err(TriviaError::StatusConflict);
            }
            let ghost v0 = state@;
            let (idx, game) = state.get_game_with_index_mut(game_id);
            game.start(game_data_svar_id);
            proof {
                lemma_view_update(old(state).games@, idx as int, state.games@[idx as int]);
                lemma_wf_after_update(v0, state@, idx as int);
            }
            Ok(())
        },
        _ => Err(TriviaError::UnexpectedMetadata),
    }
}

/// Admission rule of submit-answers: the game must exist and be InProgress,
/// the call must come strictly before the deadline, and the player must not
/// have submitted already.
pub open spec fn submit_answers_check(
    games: Seq<GameView>,
    block_time: i64,
    sender: Address,
    game_id: u32,
) -> Result<(), TriviaError> {
    if !has_game(games, game_id) {
        Err(TriviaError::UnknownGameId)
    } else if !(game_of(games, game_id).game_status is InProgress) {
        Err(TriviaError::StatusConflict)
    } else if block_time >= game_of(games, game_id).game_deadline {
        Err(TriviaError::DeadlinePassed)
    } else if game_of(games, game_id).players.contains(sender) {
        Err(TriviaError::PlayerAlreadySubmitted)
    } else {
        Ok(())
    }
}

/// A player asks to submit secret answers: add the player to the roster and
/// ask the collaborator for the secret entry, tagged with the game and the
/// player so the committed handle can be matched back. Rejected exactly when
/// the game is missing, not in progress, the deadline has been reached, or
/// the player already submitted; a rejected call changes nothing.
pub fn submit_answers(
    state: &mut ContractState,
    block_time: i64,
    sender: Address,
    game_id: u32,
) -> (r: Result<VariableKind, TriviaError>)
    requires
        old(state)@.wf(),
    ensures
        final(state)@.wf(),
        final(state)@.game_ids == old(state)@.game_ids,
        match r {
            Ok(m) => {
                &&& submit_answers_check(old(state)@.games, block_time, sender, game_id) is Ok
                &&& m == (VariableKind::Entry { game_id, player: sender })
                &&& final(state)@.games == old(state)@.games.update(
                    game_index(old(state)@.games, game_id),
                    (GameView {
                        players: game_of(old(state)@.games, game_id).players.push(sender),
                        ..game_of(old(state)@.games, game_id)
                    }),
                )
            },
            Err(e) => {
                &&& submit_answers_check(old(state)@.games, block_time, sender, game_id) == Err::<
                    (),
                    TriviaError,
                >(e)
                &&& *final(state) == *old(state)
            },
        },
{
    if !state.has_game_id(game_id) {
        return Err(TriviaError::UnknownGameId);
    }
    let admitted = match state.get_game(game_id) {
        Some(g) => {
            if g.game_status != GameStatus::InProgress {
                Err(TriviaError::StatusConflict)
            } else if g.is_game_deadline_passed(block_time) {
                Err(TriviaError::DeadlinePassed)
            } else if g.has_player_submitted(&sender) {
                Err(TriviaError::PlayerAlreadySubmitted)
            } else {
                Ok(())
            }
        },
        None => Err(TriviaError::UnknownGameId),
    };
    if let Err(e) = admitted {
        return Err(e);
    }
    let ghost v0 = state@;
    let (idx, game) = state.get_game_with_index_mut(game_id);
    game.add_player(sender);
    proof {
        lemma_view_update(old(state).games@, idx as int, state.games@[idx as int]);
        let g1 = state@.games[idx as int];
        assert forall|i: int, j: int| 0 <= i < j < g1.players.len() implies g1.players[i]
            != g1.players[j] by {
            let g0 = v0.games[idx as int];
            if j == g0.players.len() {
                assert(g0.players[i] != sender);
            }
        }
        lemma_wf_after_update(v0, state@, idx as int);
    }
    Ok(VariableKind::Entry { game_id, player: sender })
}

/// A request handed back to the collaborator: start the scoring computation
/// over the game's answer key and one entry, tagging the eventual result
/// with the game and player it must be credited to.
#[derive(Clone, Copy, PartialEq, Eq, Structural, Debug)]
pub struct ComputationRequest {
    pub answers_var_id: SecretVarId,
    pub entry_var_id: SecretVarId,
    pub result_metadata: VariableKind,
}

/// Admission rule of the entry-committed event: the tag must be an Entry
/// tag, its game must exist and must be InProgress.
pub open spec fn entry_submitted_check(games: Seq<GameView>, metadata: VariableKind) -> Result<
    u32,
    TriviaError,
> {
    match metadata {
        VariableKind::Entry { game_id, player } => {
            if !has_game(games, game_id) {
                Err(TriviaError::UnknownGameId)
            } else if !(game_of(games, game_id).game_status is InProgress) {
                Err(TriviaError::StatusConflict)
            } else {
                Ok(game_id)
            }
        },
        _ => Err(TriviaError::UnexpectedMetadata),
    }
}

/// The collaborator confirmed that a player's secret entry exists: record
/// its handle and ask for the scoring computation over the answer key and
/// the entry. Replaying the event with an already-recorded handle is
/// harmless: it records nothing twice and starts no second computation.
pub fn entry_submitted(
    state: &mut ContractState,
    entry_svar_id: SecretVarId,
    metadata: VariableKind,
) -> (r: Result<Option<ComputationRequest>, TriviaError>)
    requires
        old(state)@.wf(),
    ensures
        final(state)@.wf(),
        final(state)@.game_ids == old(state)@.game_ids,
        match r {
            Ok(req) => metadata matches VariableKind::Entry { game_id, player }
                && entry_submitted_check(old(state)@.games, metadata) == Ok::<u32, TriviaError>(
                game_id,
            ) && (if game_of(old(state)@.games, game_id).entries_svars.contains(entry_svar_id) {
                req is None && *final(state) == *old(state)
            } else {
                req == Some(
                    ComputationRequest {
                        answers_var_id: game_of(old(state)@.games, game_id).game_data_svar->0,
                        entry_var_id: entry_svar_id,
                        result_metadata: VariableKind::Result { game_id, player },
                    },
                ) && final(state)@.games == old(state)@.games.update(
                    game_index(old(state)@.games, game_id),
                    (GameView {
                        entries_svars: game_of(old(state)@.games, game_id).entries_svars.push(
                            entry_svar_id,
                        ),
                        ..game_of(old(state)@.games, game_id)
                    }),
                )
            }),
            Err(e) => entry_submitted_check(old(state)@.games, metadata) == Err::<u32, TriviaError>(
                e,
            ) && *final(state) == *old(state),
        },
{
    match metadata {
        VariableKind::Entry { game_id, player } => {
            if !state.has_game_id(game_id) {
                return Err(TriviaError::UnknownGameId);
            }
            let step = match state.get_game(game_id) {
                Some(g) => {
                    if g.game_status != GameStatus::InProgress {
                        Err(TriviaError::StatusConflict)
                    } else if contains_svar(&g.entries_svars, entry_svar_id) {
                        Ok(None)
                    } else {
                        match g.game_data_svar {
                            Some(key) => Ok(Some(key)),
                            None => Err(TriviaError::StatusConflict),
                        }
                    }
                },
                None => Err(TriviaError::UnknownGameId),
            };
            match step {
                Err(e) => Err(e),
                Ok(None) => Ok(None),
                Ok(Some(key)) => {
                    let ghost v0 = state@;
                    let (idx, game) = state.get_game_with_index_mut(game_id);
                    game.add_entry_svar(entry_svar_id);
                    proof {
                        lemma_view_update(old(state).games@, idx as int, state.games@[idx as int]);
                        lemma_wf_after_update(v0, state@, idx as int);
                    }
                    Ok(
                        Some(
                            ComputationRequest {
                                answers_var_id: key,
                                entry_var_id: entry_svar_id,
                                result_metadata: VariableKind::Result { game_id, player },
                            },
                        ),
                    )
                },
            }
        },
        _ => Err(TriviaError::UnexpectedMetadata),
    }
}

/// Check whether a handle is already recorded in a list of handles.
fn contains_svar(v: &Vec<SecretVarId>, x: SecretVarId) -> (r: bool)
    ensures
        r == v@.contains(x),
{
    let mut i: usize = 0;
    while i < v.len()
        invariant
            0 <= i <= v@.len(),
            forall|j: int| 0 <= j < i ==> v@[j] != x,
        decreases v@.len() - i,
    {
        if v[i] == x {
            return true;
        }
        i = i + 1;
    }
    false
}

/// Copy a list of handles.
fn copy_svar_list(v: &Vec<SecretVarId>) -> (r: Vec<SecretVarId>)
    ensures
        r@ == v@,
{
    let mut r: Vec<SecretVarId> = Vec::new();
    let mut i: usize = 0;
    while i < v.len()
        invariant
            0 <= i <= v@.len(),
            r@ == v@.take(i as int),
        decreases v@.len() - i,
    {
        r.push(v[i]);
        proof {
            assert(r@ =~= v@.take(i as int + 1));
        }
        i = i + 1;
    }
    proof {
        assert(v@.take(v@.len() as int) =~= v@);
    }
    r
}

/// Admission rule of finish-game: the game must exist, be InProgress, and
/// its deadline must have been reached.
pub open spec fn finish_game_check(games: Seq<GameView>, block_time: i64, game_id: u32) -> Result<
    (),
    TriviaError,
> {
    if !has_game(games, game_id) {
        Err(TriviaError::UnknownGameId)
    } else if !(game_of(games, game_id).game_status is InProgress) {
        Err(TriviaError::StatusConflict)
    } else if block_time < game_of(games, game_id).game_deadline {
        Err(TriviaError::DeadlineNotReached)
    } else {
        Ok(())
    }
}

/// Close the submission phase once the deadline has passed: the game moves
/// from InProgress to Complete, and every result handle recorded so far is
/// handed back so the caller can ask the collaborator to open them. Fails if
/// the game is already Complete or Published, or before the deadline.
pub fn finish_game(state: &mut ContractState, block_time: i64, game_id: u32) -> (r: Result<
    Vec<SecretVarId>,
    TriviaError,
>)
    requires
        old(state)@.wf(),
    ensures
        final(state)@.wf(),
        final(state)@.game_ids == old(state)@.game_ids,
        match r {
            Ok(vars) => {
                &&& finish_game_check(old(state)@.games, block_time, game_id) is Ok
                &&& vars@ == game_of(old(state)@.games, game_id).results_svars
                &&& final(state)@.games == old(state)@.games.update(
                    game_index(old(state)@.games, game_id),
                    (GameView {
                        game_status: GameStatus::Complete,
                        ..game_of(old(state)@.games, game_id)
                    }),
                )
            },
            Err(e) => {
                &&& finish_game_check(old(state)@.games, block_time, game_id) == Err::<
                    (),
                    TriviaError,
                >(e)
                &&& *final(state) == *old(state)
            },
        },
{
    if !state.has_game_id(game_id) {
        return Err(TriviaError::UnknownGameId);
    }
    let admitted = match state.get_game(game_id) {
        Some(g) => {
            if g.game_status != GameStatus::InProgress {
                Err(TriviaError::StatusConflict)
            } else if !g.is_game_deadline_passed(block_time) {
                Err(TriviaError::DeadlineNotReached)
            } else {
                Ok(())
            }
        },
        None => Err(TriviaError::UnknownGameId),
    };
    if let Err(e) = admitted {
        return Err(e);
    }
    let ghost v0 = state@;
    let (idx, game) = state.get_game_with_index_mut(game_id);
    let vars = copy_svar_list(&game.results_svars);
    game.complete();
    proof {
        lemma_view_update(old(state).games@, idx as int, state.games@[idx as int]);
        lemma_wf_after_update(v0, state@, idx as int);
    }
    Ok(vars)
}

/// The game id a metadata tag points at.
pub open spec fn meta_game_id(m: VariableKind) -> u32 {
    match m {
        VariableKind::GameAnswers { game_id, length } => game_id,
        VariableKind::Entry { game_id, player } => game_id,
        VariableKind::Result { game_id, player } => game_id,
    }
}

/// The player an Entry or Result tag points at.
pub open spec fn meta_player(m: VariableKind) -> Address {
    match m {
        VariableKind::GameAnswers { game_id, length } => Address { id: 0 },
        VariableKind::Entry { game_id, player } => player,
        VariableKind::Result { game_id, player } => player,
    }
}

/// Admission rule for one element of a computation-complete batch: the tag
/// must be a Result tag and its game must exist and not be Published yet.
pub open spec fn entry_processed_elem_check(games: Seq<GameView>, m: VariableKind) -> Result<
    u32,
    TriviaError,
> {
    match m {
        VariableKind::Result { game_id, player } => {
            if !has_game(games, game_id) {
                Err(TriviaError::UnknownGameId)
            } else if !(game_of(games, game_id).game_status is InProgress || game_of(
                games,
                game_id,
            ).game_status is Complete) {
                Err(TriviaError::StatusConflict)
            } else {
                Ok(game_id)
            }
        },
        _ => Err(TriviaError::UnexpectedMetadata),
    }
}

/// First rejection over a computation-complete batch, if any: the whole
/// event is rejected, with no state change, as soon as one element fails.
pub open spec fn entry_processed_batch_check(
    games: Seq<GameView>,
    outs: Seq<(SecretVarId, VariableKind)>,
) -> Result<(), TriviaError>
    decreases outs.len(),
{
    if outs.len() == 0 {
        Ok(())
    } else {
        match entry_processed_elem_check(games, outs[0].1) {
            Err(e) => Err(e),
            Ok(_) => entry_processed_batch_check(games, outs.drop_first()),
        }
    }
}

/// A batch whose elements all pass is accepted.
pub proof fn lemma_entry_batch_ok(games: Seq<GameView>, outs: Seq<(SecretVarId, VariableKind)>)
    requires
        forall|j: int| 0 <= j < outs.len() ==> entry_processed_elem_check(games, outs[j].1) is Ok,
    ensures
        entry_processed_batch_check(games, outs) is Ok,
    decreases outs.len(),
{
    if outs.len() > 0 {
        lemma_entry_batch_ok(games, outs.drop_first());
    }
}

/// If the elements before position `i` pass and the element at `i` fails,
/// the batch is rejected with exactly that element's error.
pub proof fn lemma_entry_batch_err(
    games: Seq<GameView>,
    outs: Seq<(SecretVarId, VariableKind)>,
    i: int,
    e: TriviaError,
)
    requires
        0 <= i < outs.len(),
        forall|j: int| 0 <= j < i ==> entry_processed_elem_check(games, outs[j].1) is Ok,
        entry_processed_elem_check(games, outs[i].1) == Err::<u32, TriviaError>(e),
    ensures
        entry_processed_batch_check(games, outs) == Err::<(), TriviaError>(e),
    decreases i,
{
    if i > 0 {
        lemma_entry_batch_err(games, outs.drop_first(), i - 1, e);
    }
}

/// One result handle folded into its game's record.
pub open spec fn record_result(games: Seq<GameView>, out: (SecretVarId, VariableKind)) -> Seq<
    GameView,
> {
    let i = game_index(games, meta_game_id(out.1));
    games.update(i, (GameView { results_svars: games[i].results_svars.push(out.0), ..games[i] }))
}

/// A whole computation-complete batch folded into the registry, first
/// element first.
pub open spec fn record_results(
    games: Seq<GameView>,
    outs: Seq<(SecretVarId, VariableKind)>,
) -> Seq<GameView>
    decreases outs.len(),
{
    if outs.len() == 0 {
        games
    } else {
        record_result(record_results(games, outs.drop_last()), outs.last())
    }
}

/// The collaborator reports finished scoring computations: record each
/// output variable's handle against the game its Result tag names, so that
/// finish-game can later ask for all of them to be opened. The whole batch
/// is rejected, with no state change, if any element's tag does not fit.
pub fn entry_processed(
    state: &mut ContractState,
    output_variables: &Vec<(SecretVarId, VariableKind)>,
) -> (r: Result<(), TriviaError>)
    requires
        old(state)@.wf(),
    ensures
        final(state)@.wf(),
        final(state)@.game_ids == old(state)@.game_ids,
        match r {
            Ok(_) => {
                &&& entry_processed_batch_check(old(state)@.games, output_variables@) is Ok
                &&& final(state)@.games == record_results(old(state)@.games, output_variables@)
            },
            Err(e) => {
                &&& entry_processed_batch_check(old(state)@.games, output_variables@) == Err::<
                    (),
                    TriviaError,
                >(e)
                &&& *final(state) == *old(state)
            },
        },
{
    let ghost games0 = old(state)@.games;
    let ghost outs = output_variables@;
    let n = output_variables.len();

    let mut i: usize = 0;
    while i < n
        invariant
            state@.wf(),
            *state == *old(state),
            n == outs.len(),
            outs == output_variables@,
            games0 == state@.games,
            0 <= i <= n,
            forall|j: int|
                0 <= j < i ==> entry_processed_elem_check(games0, outs[j].1) is Ok,
        decreases n - i,
    {
        let (_, m) = output_variables[i];
        let elem = match m {
            VariableKind::Result { game_id, player: _ } => {
                if !state.has_game_id(game_id) {
                    Err(TriviaError::UnknownGameId)
                } else {
                    match state.get_game(game_id) {
                        Some(g) => {
                            if g.game_status == GameStatus::InProgress || g.game_status
                                == GameStatus::Complete {
                                Ok(())
                            } else {
                                Err(TriviaError::StatusConflict)
                            }
                        },
                        None => Err(TriviaError::UnknownGameId),
                    }
                }
            },
            _ => Err(TriviaError::UnexpectedMetadata),
        };
        if let Err(e) = elem {
            proof {
                lemma_entry_batch_err(games0, outs, i as int, e);
            }
            return Err(e);
        }
        i = i + 1;
    }
    proof {
        lemma_entry_batch_ok(games0, outs);
    }

    let mut i: usize = 0;
    while i < n
        invariant
            state@.wf(),
            state@.game_ids == old(state)@.game_ids,
            n == outs.len(),
            outs == output_variables@,
            0 <= i <= n,
            state@.games == record_results(games0, outs.take(i as int)),
            forall|j: int| 0 <= j < n ==> entry_processed_elem_check(games0, outs[j].1) is Ok,
            forall|id: u32| has_game(state@.games, id) == has_game(games0, id),
            forall|id: u32|
                has_game(games0, id) ==> game_index(state@.games, id) == game_index(games0, id),
        decreases n - i,
    {
        let (handle, m) = output_variables[i];
        match m {
            VariableKind::Result { game_id, player: _ } => {
                let ghost v1 = state@;
                let ghost gs1 = state.games@;
                proof {
                    assert(entry_processed_elem_check(games0, outs[i as int].1) is Ok);
                }
                let (idx, game) = state.get_game_with_index_mut(game_id);
                game.add_result_svar(handle);
                proof {
                    lemma_view_update(gs1, idx as int, state.games@[idx as int]);
                    lemma_wf_after_update(v1, state@, idx as int);
                    assert(outs.take(i as int + 1).drop_last() =~= outs.take(i as int));
                    assert(outs.take(i as int + 1).last() == outs[i as int]);
                    assert(state@.games =~= record_result(v1.games, outs[i as int]));
                }
            },
            _ => {},
        }
        i = i + 1;
    }
    proof {
        assert(outs.take(n as int) =~= outs);
    }
    Ok(())
}

/// The models of a delivered batch of opened variables.
pub open spec fn opened_views(s: Seq<OpenedVariable>) -> Seq<OpenedView> {
    s.map_values(|o: OpenedVariable| o@)
}

/// Admission rule for one opened variable: the tag must be a Result tag, its
/// game must exist and must be Complete (not yet Published), and the
/// cleartext must be exactly the one score byte.
pub open spec fn vars_opened_elem_check(games: Seq<GameView>, v: OpenedView) -> Result<
    u32,
    TriviaError,
> {
    match v.metadata {
        VariableKind::Result { game_id, player } => {
            if !has_game(games, game_id) {
                Err(TriviaError::UnknownGameId)
            } else if !(game_of(games, game_id).game_status is Complete) {
                Err(TriviaError::StatusConflict)
            } else if v.data.len() != 1 {
                Err(TriviaError::MalformedScoreData)
            } else {
                Ok(game_id)
            }
        },
        _ => Err(TriviaError::UnexpectedMetadata),
    }
}

/// First rejection over an opened batch, if any.
pub open spec fn vars_opened_batch_check(games: Seq<GameView>, vs: Seq<OpenedView>) -> Result<
    (),
    TriviaError,
>
    decreases vs.len(),
{
    if vs.len() == 0 {
        Ok(())
    } else {
        match vars_opened_elem_check(games, vs[0]) {
            Err(e) => Err(e),
            Ok(_) => vars_opened_batch_check(games, vs.drop_first()),
        }
    }
}

/// An opened batch whose elements all pass is accepted.
pub proof fn lemma_opened_batch_ok(games: Seq<GameView>, vs: Seq<OpenedView>)
    requires
        forall|j: int| 0 <= j < vs.len() ==> vars_opened_elem_check(games, vs[j]) is Ok,
    ensures
        vars_opened_batch_check(games, vs) is Ok,
    decreases vs.len(),
{
    if vs.len() > 0 {
        lemma_opened_batch_ok(games, vs.drop_first());
    }
}

/// If the opened elements before position `i` pass and the element at `i`
/// fails, the batch is rejected with exactly that element's error.
pub proof fn lemma_opened_batch_err(
    games: Seq<GameView>,
    vs: Seq<OpenedView>,
    i: int,
    e: TriviaError,
)
    requires
        0 <= i < vs.len(),
        forall|j: int| 0 <= j < i ==> vars_opened_elem_check(games, vs[j]) is Ok,
        vars_opened_elem_check(games, vs[i]) == Err::<u32, TriviaError>(e),
    ensures
        vars_opened_batch_check(games, vs) == Err::<(), TriviaError>(e),
    decreases i,
{
    if i > 0 {
        lemma_opened_batch_err(games, vs.drop_first(), i - 1, e);
    }
}

/// The leaderboard position carried by one opened result: the game and
/// player from its tag, and the score from its one cleartext byte.
pub open spec fn position_of(v: OpenedView) -> LeaderboardPosition {
    LeaderboardPosition {
        game_id: meta_game_id(v.metadata),
        player: meta_player(v.metadata),
        score: v.data[0] as i8,
    }
}

/// One opened result ranked into its game's leaderboard.
pub open spec fn record_opened(games: Seq<GameView>, v: OpenedView) -> Seq<GameView> {
    let i = game_index(games, meta_game_id(v.metadata));
    games.update(
        i,
        (GameView { leaderboard: sorted_insert(games[i].leaderboard, position_of(v)), ..games[i] }),
    )
}

/// A whole opened batch ranked into the registry, first element first.
pub open spec fn record_all_opened(games: Seq<GameView>, vs: Seq<OpenedView>) -> Seq<GameView>
    decreases vs.len(),
{
    if vs.len() == 0 {
        games
    } else {
        record_opened(record_all_opened(games, vs.drop_last()), vs.last())
    }
}

/// Whether a batch carries at least one result belonging to the given game.
pub open spec fn touched(vs: Seq<OpenedView>, game_id: u32) -> bool {
    exists|k: int| 0 <= k < vs.len() && meta_game_id(vs[k].metadata) == game_id
}

/// A game moved to its terminal phase.
pub open spec fn publish_view(g: GameView) -> GameView {
    GameView { game_status: GameStatus::Published, ..g }
}

/// Every game the batch touches, published; the others untouched.
pub open spec fn publish_touched(games: Seq<GameView>, vs: Seq<OpenedView>) -> Seq<GameView> {
    games.map_values(|g: GameView| if touched(vs, g.game_id) { publish_view(g) } else { g })
}

/// Every game whose id lies in the set, published; the others untouched.
pub open spec fn publish_ids(games: Seq<GameView>, ids: Set<u32>) -> Seq<GameView> {
    games.map_values(|g: GameView| if ids.contains(g.game_id) { publish_view(g) } else { g })
}

/// The registry after a whole opened batch: every result ranked into its
/// game's leaderboard, then every touched game published.
pub open spec fn after_opened(games: Seq<GameView>, vs: Seq<OpenedView>) -> Seq<GameView> {
    publish_touched(record_all_opened(games, vs), vs)
}

/// Extending a batch by one element touches that element's game and changes
/// nothing else about which games are touched.
pub proof fn lemma_touched_step(vs: Seq<OpenedView>, i: int)
    requires
        0 <= i < vs.len(),
    ensures
        forall|id: u32| touched(vs.take(i + 1), id) == (touched(vs.take(i), id) || meta_game_id(vs[i].metadata) == id),
{
    assert forall|id: u32| touched(vs.take(i + 1), id) == (touched(vs.take(i), id)
        || meta_game_id(vs[i].metadata) == id) by {
        if touched(vs.take(i), id) {
            let k = choose|k: int|
                0 <= k < vs.take(i).len() && #[trigger] meta_game_id(vs.take(i)[k].metadata)
                    == id;
            assert(vs.take(i + 1)[k] == vs.take(i)[k]);
            assert(touched(vs.take(i + 1), id));
        }
        if meta_game_id(vs[i].metadata) == id {
            assert(vs.take(i + 1)[i] == vs[i]);
            assert(touched(vs.take(i + 1), id));
        }
        if touched(vs.take(i + 1), id) {
            let k = choose|k: int|
                0 <= k < vs.take(i + 1).len() && #[trigger] meta_game_id(
                    vs.take(i + 1)[k].metadata,
                ) == id;
            if k < i {
                assert(vs.take(i)[k] == vs.take(i + 1)[k]);
                assert(touched(vs.take(i), id));
            } else {
                assert(vs.take(i + 1)[k] == vs[i]);
            }
        }
    }
}

/// Check whether a game id was already collected.
fn contains_u32(v: &Vec<u32>, x: u32) -> (r: bool)
    ensures
        r == v@.contains(x),
{
    let mut i: usize = 0;
    while i < v.len()
        invariant
            0 <= i <= v@.len(),
            forall|j: int| 0 <= j < i ==> v@[j] != x,
        decreases v@.len() - i,
    {
        if v[i] == x {
            return true;
        }
        i = i + 1;
    }
    false
}

/// Read an opened variable's one-byte cleartext as a little-endian signed
/// score.
pub fn read_variable_i8_le(opened: &OpenedVariable) -> (r: i8)
    requires
        opened@.data.len() == 1,
    ensures
        r == opened@.data[0] as i8,
{
    let b = opened.data[0];
    #[verifier::truncate] (b as i8)
}

/// The collaborator opened a batch of result variables: credit every opened
/// score to the player and game its Result tag names, ranking it into that
/// game's leaderboard, and then move each touched game — once, after the
/// whole batch — from Complete to Published. Batches mixing several games
/// are dispatched per element; every touched game is finalized. The whole
/// batch is rejected, with no state change, if any element does not fit.
#[verifier::loop_isolation(false)]
#[verifier::rlimit(100)]
pub fn vars_opened(state: &mut ContractState, opened_variables: &Vec<OpenedVariable>) -> (r: Result<
    (),
    TriviaError,
>)
    requires
        old(state)@.wf(),
    ensures
        final(state)@.wf(),
        final(state)@.game_ids == old(state)@.game_ids,
        match r {
            Ok(_) => {
                &&& vars_opened_batch_check(old(state)@.games, opened_views(opened_variables@)) is Ok
                &&& final(state)@.games == after_opened(
                    old(state)@.games,
                    opened_views(opened_variables@),
                )
            },
            Err(e) => {
                &&& vars_opened_batch_check(old(state)@.games, opened_views(opened_variables@))
                    == Err::<(), TriviaError>(e)
                &&& *final(state) == *old(state)
            },
        },
{
    let ghost games0 = old(state)@.games;
    let ghost vs = opened_views(opened_variables@);
    let n = opened_variables.len();

    let mut i: usize = 0;
    while i < n
        invariant
            *state == *old(state),
            0 <= i <= n,
            forall|j: int| 0 <= j < i ==> vars_opened_elem_check(games0, vs[j]) is Ok,
        decreases n - i,
    {
        let ov = &opened_variables[i];
        let elem = match ov.metadata {
            VariableKind::Result { game_id, player: _ } => {
                if !state.has_game_id(game_id) {
                    Err(TriviaError::UnknownGameId)
                } else {
                    match state.get_game(game_id) {
                        Some(g) => {
                            if g.game_status != GameStatus::Complete {
                                Err(TriviaError::StatusConflict)
                            } else if ov.data.len() != 1 {
                                Err(TriviaError::MalformedScoreData)
                            } else {
                                Ok(())
                            }
                        },
                        None => Err(TriviaError::UnknownGameId),
                    }
                }
            },
            _ => Err(TriviaError::UnexpectedMetadata),
        };
        if let Err(e) = elem {
            proof {
                lemma_opened_batch_err(games0, vs, i as int, e);
            }
            return Err(e);
        }
        i = i + 1;
    }
    proof {
        lemma_opened_batch_ok(games0, vs);
    }

    let mut touched_ids: Vec<u32> = Vec::new();
    let mut i: usize = 0;
    while i < n
        invariant
            0 <= i <= n,
            state@.game_ids == old(state)@.game_ids,
            state@.games == record_all_opened(games0, vs.take(i as int)),
            unique_ids(state@.games),
            ids_of(state@.games) == ids_of(games0),
            forall|id: u32| has_game(state@.games, id) == has_game(games0, id),
            forall|id: u32|
                has_game(games0, id) ==> game_index(state@.games, id) == game_index(games0, id),
            forall|k: int|
                0 <= k < state@.games.len() ==> (#[trigger] state@.games[k]).wf_core(),
            forall|k: int|
                0 <= k < state@.games.len() ==> (#[trigger] state@.games[k]).game_status
                    == games0[k].game_status && state@.games[k].game_data_svar
                    == games0[k].game_data_svar,
            forall|k: int|
                0 <= k < state@.games.len() && !touched(
                    vs.take(i as int),
                    state@.games[k].game_id,
                ) ==> state@.games[k] == games0[k],
            forall|id: u32| touched_ids@.contains(id) == touched(vs.take(i as int), id),
        decreases n - i,
    {
        let ov = &opened_variables[i];
        match ov.metadata {
            VariableKind::Result { game_id, player } => {
                let score = read_variable_i8_le(ov);
                let pos = LeaderboardPosition { game_id, player, score };
                let ghost v1 = state@;
                let ghost gs1 = state.games@;
                proof {
                    assert(vars_opened_elem_check(games0, vs[i as int]) is Ok);
                }
                let (idx, game) = state.get_game_with_index_mut(game_id);
                game.add_leaderboard_entry(pos);
                let ghost tids1 = touched_ids@;
                let dup = contains_u32(&touched_ids, game_id);
                if !dup {
                    touched_ids.push(game_id);
                }
                proof {
                    lemma_view_update(gs1, idx as int, state.games@[idx as int]);
                    lemma_ids_after_update(v1.games, state@.games, idx as int);
                    lemma_sorted_insert_sorted(v1.games[idx as int].leaderboard, pos);
                    assert(pos == position_of(vs[i as int]));
                    assert(vs.take(i as int + 1).drop_last() =~= vs.take(i as int));
                    assert(vs.take(i as int + 1).last() == vs[i as int]);
                    assert(state@.games =~= record_opened(v1.games, vs[i as int]));
                    lemma_touched_step(vs, i as int);
                    assert forall|id: u32| touched_ids@.contains(id) == touched(
                        vs.take(i as int + 1),
                        id,
                    ) by {
                        if id == game_id {
                            if dup {
                                assert(touched_ids@.contains(id));
                            } else {
                                assert(touched_ids@[tids1.len() as int] == id);
                                assert(touched_ids@.contains(id));
                            }
                            assert(touched(vs.take(i as int + 1), id));
                        } else {
                            if touched_ids@.contains(id) {
                                let w = choose|w: int|
                                    0 <= w < touched_ids@.len() && touched_ids@[w] == id;
                                assert(tids1[w] == id);
                                assert(tids1.contains(id));
                            }
                            if tids1.contains(id) {
                                let w = choose|w: int| 0 <= w < tids1.len() && tids1[w] == id;
                                assert(touched_ids@[w] == id);
                                assert(touched_ids@.contains(id));
                            }
                            assert(tids1.contains(id) == touched(vs.take(i as int), id));
                            assert(touched(vs.take(i as int + 1), id) == touched(
                                vs.take(i as int),
                                id,
                            ));
                        }
                    }
                }
            },
            _ => {},
        }
        i = i + 1;
    }
    proof {
        assert(vs.take(n as int) =~= vs);
    }

    let ghost mid = state@.games;
    proof {
        assert(publish_ids(mid, touched_ids@.take(0).to_set()) =~= mid);
    }
    let mut k: usize = 0;
    while k < touched_ids.len()
        invariant
            0 <= k <= touched_ids@.len(),
            state@.game_ids == old(state)@.game_ids,
            state@.games == publish_ids(mid, touched_ids@.take(k as int).to_set()),
            unique_ids(state@.games),
            ids_of(state@.games) == ids_of(games0),
            forall|id: u32| has_game(state@.games, id) == has_game(games0, id),
            forall|id: u32|
                has_game(games0, id) ==> game_index(state@.games, id) == game_index(games0, id),
        decreases touched_ids@.len() - k,
    {
        let gid = touched_ids[k];
        proof {
            assert(touched_ids@[k as int] == gid);
            assert(touched_ids@.contains(gid));
            assert(touched(vs, gid));
            let w = choose|w: int|
                0 <= w < vs.len() && #[trigger] meta_game_id(vs[w].metadata) == gid;
            assert(vars_opened_elem_check(games0, vs[w]) is Ok);
            assert(has_game(games0, gid));
        }
        let ghost v1 = state@;
        let ghost gs1 = state.games@;
        let (idx, game) = state.get_game_with_index_mut(gid);
        game.publish();
        proof {
            lemma_view_update(gs1, idx as int, state.games@[idx as int]);
            lemma_ids_after_update(v1.games, state@.games, idx as int);
            let s0 = touched_ids@.take(k as int).to_set();
            let s1 = touched_ids@.take(k as int + 1).to_set();
            assert forall|id: u32| s1.contains(id) == (s0.contains(id) || id == gid) by {
                if touched_ids@.take(k as int).contains(id) {
                    let w = choose|w: int|
                        0 <= w < k && #[trigger] touched_ids@.take(k as int)[w] == id;
                    assert(touched_ids@.take(k as int + 1)[w] == id);
                }
                if id == gid {
                    assert(touched_ids@.take(k as int + 1)[k as int] == id);
                }
                if touched_ids@.take(k as int + 1).contains(id) {
                    let w = choose|w: int|
                        0 <= w < k + 1 && #[trigger] touched_ids@.take(k as int + 1)[w] == id;
                    if w < k {
                        assert(touched_ids@.take(k as int)[w] == id);
                    }
                }
            }
            assert forall|j: int| 0 <= j < mid.len() implies state@.games[j] == publish_ids(
                mid,
                s1,
            )[j] by {
                if j == idx as int {
                    assert(mid[j].game_id == gid);
                } else {
                    assert(v1.games[j].game_id != gid);
                }
            }
            assert(state@.games =~= publish_ids(mid, s1));
        }
        k = k + 1;
    }
    proof {
        assert(touched_ids@.take(touched_ids@.len() as int) =~= touched_ids@);
        assert(publish_ids(mid, touched_ids@.to_set()) =~= publish_touched(mid, vs));
        assert forall|j: int|
            0 <= j < state@.games.len() implies (#[trigger] state@.games[j]).wf() by {
            let id = mid[j].game_id;
            assert(mid[j].game_id == games0[j].game_id);
            if touched(vs, id) {
                assert(state@.games[j] == publish_view(mid[j]));
                let w = choose|w: int|
                    0 <= w < vs.len() && #[trigger] meta_game_id(vs[w].metadata) == id;
                assert(vars_opened_elem_check(games0, vs[w]) is Ok);
                lemma_game_index(games0, j);
                assert(game_of(games0, id) == games0[j]);
                assert(games0[j].game_status is Complete);
                assert(mid[j].game_data_svar == games0[j].game_data_svar);
            } else {
                assert(mid[j] == games0[j]);
                assert(state@.games[j] == mid[j]);
            }
        }
        assert(state@.game_ids =~= ids_of(state@.games));
    }
    Ok(())
}

/// Law: a game id is rejected as a duplicate exactly when it is already
/// registered. Together with the handlers' guarantee that the id index only
/// ever grows by the ids of successfully created games, this holds across
/// every sequence of create-game calls.
pub proof fn lemma_duplicate_id_rejected(games: Seq<GameView>, block_time: i64, p: GameInitParams)
    requires
        block_time < p.game_deadline,
    ensures
        (create_game_check(games, block_time, p) == Err::<(), TriviaError>(
            TriviaError::GameIdInUse,
        )) == has_game(games, p.game_id),
{
}

/// Law: in a well-formed registry, no player appears twice in any game's
/// roster — under any interleaving of actions, since every action hands the
/// registry back well-formed.
pub proof fn lemma_roster_no_duplicates(v: StateView, game_id: u32)
    requires
        v.wf(),
        has_game(v.games, game_id),
    ensures
        forall|i: int, j: int|
            0 <= i < j < game_of(v.games, game_id).players.len() ==> game_of(
                v.games,
                game_id,
            ).players[i] != game_of(v.games, game_id).players[j],
{
    assert(game_of(v.games, game_id).wf());
}

/// Law: Published is terminal. Every action or event addressed to a
/// Published game fails its admission rule, and a create-game call reusing
/// its id fails too; no action against it can succeed.
pub proof fn lemma_published_is_terminal(
    games: Seq<GameView>,
    game_id: u32,
    block_time: i64,
    sender: Address,
    params: GameInitParams,
    m: VariableKind,
    v: OpenedView,
)
    requires
        has_game(games, game_id),
        game_of(games, game_id).game_status is Published,
        params.game_id == game_id,
        meta_game_id(m) == game_id,
        meta_game_id(v.metadata) == game_id,
    ensures
        create_game_check(games, block_time, params) is Err,
        submit_answers_check(games, block_time, sender, game_id) == Err::<(), TriviaError>(
            TriviaError::StatusConflict,
        ),
        finish_game_check(games, block_time, game_id) == Err::<(), TriviaError>(
            TriviaError::StatusConflict,
        ),
        game_started_check(games, m) is Err,
        entry_submitted_check(games, m) is Err,
        entry_processed_elem_check(games, m) is Err,
        vars_opened_elem_check(games, v) is Err,
{
}

/// The positions a batch carries for one game, in delivery order.
pub open spec fn positions_for(vs: Seq<OpenedView>, game_id: u32) -> Seq<LeaderboardPosition>
    decreases vs.len(),
{
    if vs.len() == 0 {
        Seq::empty()
    } else {
        let rest = positions_for(vs.drop_last(), game_id);
        if meta_game_id(vs.last().metadata) == game_id {
            rest.push(position_of(vs.last()))
        } else {
            rest
        }
    }
}

/// A batch accepted as a whole has every element accepted.
pub proof fn lemma_opened_batch_ok_elems(games: Seq<GameView>, vs: Seq<OpenedView>)
    requires
        vars_opened_batch_check(games, vs) is Ok,
    ensures
        forall|j: int| 0 <= j < vs.len() ==> vars_opened_elem_check(games, #[trigger] vs[j]) is Ok,
    decreases vs.len(),
{
    if vs.len() > 0 {
        lemma_opened_batch_ok_elems(games, vs.drop_first());
        assert forall|j: int|
            0 <= j < vs.len() implies vars_opened_elem_check(games, #[trigger] vs[j]) is Ok by {
            if j > 0 {
                assert(vs.drop_first()[j - 1] == vs[j]);
            }
        }
    }
}

/// Ranking a whole batch into the registry changes nothing but the
/// leaderboards: each game's leaderboard gains exactly the positions the
/// batch carries for it, and stays sorted if it was.
pub proof fn lemma_record_all_opened(games: Seq<GameView>, vs: Seq<OpenedView>)
    requires
        unique_ids(games),
        forall|j: int|
            0 <= j < vs.len() ==> has_game(games, #[trigger] meta_game_id(vs[j].metadata)),
    ensures
        record_all_opened(games, vs).len() == games.len(),
        forall|k: int|
            0 <= k < games.len() ==> {
                let g1 = #[trigger] record_all_opened(games, vs)[k];
                g1 == (GameView { leaderboard: g1.leaderboard, ..games[k] })
            },
        forall|k: int|
            0 <= k < games.len() ==> (#[trigger] record_all_opened(games, vs)[k]).leaderboard.to_multiset()
                == games[k].leaderboard.to_multiset().add(
                positions_for(vs, games[k].game_id).to_multiset(),
            ),
        forall|k: int|
            0 <= k < games.len() && sorted_desc(games[k].leaderboard) ==> sorted_desc(
                (#[trigger] record_all_opened(games, vs)[k]).leaderboard,
            ),
        forall|k: int|
            0 <= k < games.len() && !touched(vs, games[k].game_id)
                ==> #[trigger] record_all_opened(games, vs)[k] == games[k],
    decreases vs.len(),
{
    broadcast use vstd::seq_lib::group_to_multiset_ensures;

    if vs.len() == 0 {
        assert forall|k: int| 0 <= k < games.len() implies (#[trigger] record_all_opened(
            games,
            vs,
        )[k]).leaderboard.to_multiset() == games[k].leaderboard.to_multiset().add(
            positions_for(vs, games[k].game_id).to_multiset(),
        ) by {
            assert(positions_for(vs, games[k].game_id).to_multiset() =~= Multiset::empty());
            assert(games[k].leaderboard.to_multiset().add(Multiset::empty())
                =~= games[k].leaderboard.to_multiset());
        }
    } else {
        let prefix = vs.drop_last();
        let last = vs.last();
        assert forall|j: int|
            0 <= j < prefix.len() implies has_game(
            games,
            #[trigger] meta_game_id(prefix[j].metadata),
        ) by {
            assert(prefix[j] == vs[j]);
        }
        lemma_record_all_opened(games, prefix);
        let prev = record_all_opened(games, prefix);
        let gid = meta_game_id(last.metadata);
        assert(has_game(games, gid));
        let w = game_index(games, gid);
        assert(games[w].game_id == gid);
        assert forall|i: int, j: int|
            0 <= i < j < prev.len() implies prev[i].game_id != prev[j].game_id by {
            assert(prev[i].game_id == games[i].game_id);
            assert(prev[j].game_id == games[j].game_id);
        }
        assert(prev[w].game_id == gid);
        lemma_game_index(prev, w);
        let pos = position_of(last);
        lemma_sorted_insert_multiset(prev[w].leaderboard, pos);
        assert forall|k: int|
            0 <= k < games.len() && sorted_desc(games[k].leaderboard) implies sorted_desc(
            (#[trigger] record_all_opened(games, vs)[k]).leaderboard,
        ) by {
            if k == w {
                lemma_sorted_insert_sorted(prev[w].leaderboard, pos);
            } else {
                assert(record_all_opened(games, vs)[k] == prev[k]);
            }
        }
        assert forall|k: int| 0 <= k < games.len() implies (#[trigger] record_all_opened(
            games,
            vs,
        )[k]).leaderboard.to_multiset() == games[k].leaderboard.to_multiset().add(
            positions_for(vs, games[k].game_id).to_multiset(),
        ) by {
            if k == w {
                assert(positions_for(vs, gid) == positions_for(prefix, gid).push(pos));
                assert(positions_for(vs, gid).to_multiset() == positions_for(
                    prefix,
                    gid,
                ).to_multiset().insert(pos));
                assert(record_all_opened(games, vs)[k].leaderboard.to_multiset()
                    == prev[w].leaderboard.to_multiset().insert(pos));
                assert(games[k].leaderboard.to_multiset().add(
                    positions_for(prefix, gid).to_multiset().insert(pos),
                ) =~= games[k].leaderboard.to_multiset().add(
                    positions_for(prefix, gid).to_multiset(),
                ).insert(pos));
            } else {
                assert(games[k].game_id != gid);
                assert(positions_for(vs, games[k].game_id) == positions_for(
                    prefix,
                    games[k].game_id,
                ));
                assert(record_all_opened(games, vs)[k] == prev[k]);
            }
        }
        assert forall|k: int|
            0 <= k < games.len() && !touched(vs, games[k].game_id) implies #[trigger] record_all_opened(
            games,
            vs,
        )[k] == games[k] by {
            assert forall|j: int|
                0 <= j < prefix.len() implies #[trigger] meta_game_id(prefix[j].metadata)
                    != games[k].game_id by {
                assert(prefix[j] == vs[j]);
                if meta_game_id(vs[j].metadata) == games[k].game_id {
                    assert(touched(vs, games[k].game_id));
                }
            }
            assert(!touched(prefix, games[k].game_id));
            if meta_game_id(last.metadata) == games[k].game_id {
                assert(vs[vs.len() - 1] == last);
                assert(touched(vs, games[k].game_id));
            }
            assert(k != w);
            assert(record_all_opened(games, vs)[k] == prev[k]);
        }
    }
}

/// Law: after a valid opened batch is processed, every game the batch
/// touches is Published and its leaderboard holds exactly the positions the
/// batch carries for it — one per opened result, each scoring what its
/// cleartext byte says — ranked by descending score; every other game is
/// left exactly as it was. (One position per distinct player follows when
/// the batch carries at most one result per player, which the pipeline
/// guarantees by starting one computation per entry and one entry per
/// player.)
pub proof fn lemma_leaderboard_after_publication(v0: StateView, vs: Seq<OpenedView>)
    requires
        v0.wf(),
        vars_opened_batch_check(v0.games, vs) is Ok,
    ensures
        after_opened(v0.games, vs).len() == v0.games.len(),
        forall|k: int|
            0 <= k < v0.games.len() && touched(vs, v0.games[k].game_id) ==> {
                let g1 = #[trigger] after_opened(v0.games, vs)[k];
                &&& g1.game_status is Published
                &&& g1.leaderboard.to_multiset() == positions_for(
                    vs,
                    v0.games[k].game_id,
                ).to_multiset()
                &&& sorted_desc(g1.leaderboard)
                &&& g1 == (GameView {
                    game_status: GameStatus::Published,
                    leaderboard: g1.leaderboard,
                    ..v0.games[k]
                })
            },
        forall|k: int|
            0 <= k < v0.games.len() && !touched(vs, v0.games[k].game_id)
                ==> #[trigger] after_opened(v0.games, vs)[k] == v0.games[k],
{
    broadcast use vstd::seq_lib::group_to_multiset_ensures;

    lemma_opened_batch_ok_elems(v0.games, vs);
    assert forall|j: int|
        0 <= j < vs.len() implies has_game(v0.games, #[trigger] meta_game_id(vs[j].metadata)) by {
        assert(vars_opened_elem_check(v0.games, vs[j]) is Ok);
    }
    lemma_record_all_opened(v0.games, vs);
    let mid = record_all_opened(v0.games, vs);
    assert forall|k: int|
        0 <= k < v0.games.len() && touched(vs, v0.games[k].game_id) implies {
        let g1 = #[trigger] after_opened(v0.games, vs)[k];
        &&& g1.game_status is Published
        &&& g1.leaderboard.to_multiset() == positions_for(vs, v0.games[k].game_id).to_multiset()
        &&& sorted_desc(g1.leaderboard)
        &&& g1 == (GameView {
            game_status: GameStatus::Published,
            leaderboard: g1.leaderboard,
            ..v0.games[k]
        })
    } by {
        let id = v0.games[k].game_id;
        let g1 = after_opened(v0.games, vs)[k];
        assert(mid[k].game_id == id);
        assert(g1 == publish_view(mid[k]));
        let w = choose|w: int| 0 <= w < vs.len() && #[trigger] meta_game_id(vs[w].metadata) == id;
        assert(vars_opened_elem_check(v0.games, vs[w]) is Ok);
        lemma_game_index(v0.games, k);
        assert(game_of(v0.games, id) == v0.games[k]);
        assert(v0.games[k].game_status is Complete);
        assert(v0.games[k].wf());
        assert(v0.games[k].leaderboard.len() == 0);
        assert(v0.games[k].leaderboard.to_multiset() =~= Multiset::empty());
        assert(Multiset::empty().add(positions_for(vs, id).to_multiset()) =~= positions_for(
            vs,
            id,
        ).to_multiset());
        assert(sorted_desc(v0.games[k].leaderboard));
    }
    assert forall|k: int|
        0 <= k < v0.games.len() && !touched(vs, v0.games[k].game_id) implies #[trigger] after_opened(
        v0.games,
        vs,
    )[k] == v0.games[k] by {
        let id = v0.games[k].game_id;
        assert(mid[k].game_id == id);
        assert(after_opened(v0.games, vs)[k] == mid[k]);
        assert(mid[k] == v0.games[k]);
    }
}

/// Ranking a whole batch changes each player's position count in each game
/// by exactly the number of positions the batch carries for that player in
/// that game.
pub proof fn lemma_record_player_count(games: Seq<GameView>, vs: Seq<OpenedView>, p: Address)
    requires
        unique_ids(games),
        forall|j: int|
            0 <= j < vs.len() ==> has_game(games, #[trigger] meta_game_id(vs[j].metadata)),
    ensures
        record_all_opened(games, vs).len() == games.len(),
        forall|k: int|
            0 <= k < games.len() ==> player_positions(
                (#[trigger] record_all_opened(games, vs)[k]).leaderboard,
                p,
            ).len() == player_positions(games[k].leaderboard, p).len() + player_positions(
                positions_for(vs, games[k].game_id),
                p,
            ).len(),
    decreases vs.len(),
{
    lemma_record_all_opened(games, vs);
    if vs.len() == 0 {
        reveal(Seq::filter);
        assert forall|k: int| 0 <= k < games.len() implies player_positions(
            (#[trigger] record_all_opened(games, vs)[k]).leaderboard,
            p,
        ).len() == player_positions(games[k].leaderboard, p).len() + player_positions(
            positions_for(vs, games[k].game_id),
            p,
        ).len() by {
            assert(positions_for(vs, games[k].game_id).len() == 0);
        }
    } else {
        let prefix = vs.drop_last();
        let last = vs.last();
        assert forall|j: int|
            0 <= j < prefix.len() implies has_game(
            games,
            #[trigger] meta_game_id(prefix[j].metadata),
        ) by {
            assert(prefix[j] == vs[j]);
        }
        lemma_record_player_count(games, prefix, p);
        lemma_record_all_opened(games, prefix);
        let prev = record_all_opened(games, prefix);
        let gid = meta_game_id(last.metadata);
        let w = game_index(games, gid);
        assert(games[w].game_id == gid);
        assert forall|i: int, j: int|
            0 <= i < j < prev.len() implies prev[i].game_id != prev[j].game_id by {
            assert(prev[i].game_id == games[i].game_id);
            assert(prev[j].game_id == games[j].game_id);
        }
        assert(prev[w].game_id == gid);
        lemma_game_index(prev, w);
        let pos = position_of(last);
        assert forall|k: int| 0 <= k < games.len() implies player_positions(
            (#[trigger] record_all_opened(games, vs)[k]).leaderboard,
            p,
        ).len() == player_positions(games[k].leaderboard, p).len() + player_positions(
            positions_for(vs, games[k].game_id),
            p,
        ).len() by {
            if k == w {
                lemma_sorted_insert_player_count(prev[w].leaderboard, pos, p);
                assert(positions_for(vs, gid) == positions_for(prefix, gid).push(pos));
                lemma_player_positions_push(positions_for(prefix, gid), pos, p);
            } else {
                assert(games[k].game_id != gid);
                assert(positions_for(vs, games[k].game_id) == positions_for(
                    prefix,
                    games[k].game_id,
                ));
                assert(record_all_opened(games, vs)[k] == prev[k]);
            }
        }
    }
}

/// Law: after publication a game's leaderboard holds, for every player,
/// exactly as many positions as the batch opened results for that player in
/// that game — exactly one where one result was opened, none where none was.
pub proof fn lemma_one_position_per_player(v0: StateView, vs: Seq<OpenedView>, p: Address)
    requires
        v0.wf(),
        vars_opened_batch_check(v0.games, vs) is Ok,
    ensures
        forall|k: int|
            0 <= k < v0.games.len() && touched(vs, v0.games[k].game_id) ==> player_positions(
                (#[trigger] after_opened(v0.games, vs)[k]).leaderboard,
                p,
            ).len() == player_positions(positions_for(vs, v0.games[k].game_id), p).len(),
{
    lemma_opened_batch_ok_elems(v0.games, vs);
    assert forall|j: int|
        0 <= j < vs.len() implies has_game(v0.games, #[trigger] meta_game_id(vs[j].metadata)) by {
        assert(vars_opened_elem_check(v0.games, vs[j]) is Ok);
    }
    lemma_record_player_count(v0.games, vs, p);
    let mid = record_all_opened(v0.games, vs);
    assert forall|k: int|
        0 <= k < v0.games.len() && touched(vs, v0.games[k].game_id) implies player_positions(
        (#[trigger] after_opened(v0.games, vs)[k]).leaderboard,
        p,
    ).len() == player_positions(positions_for(vs, v0.games[k].game_id), p).len() by {
        let id = v0.games[k].game_id;
        lemma_record_all_opened(v0.games, vs);
        assert(mid[k].game_id == id);
        assert(after_opened(v0.games, vs)[k] == publish_view(mid[k]));
        assert(after_opened(v0.games, vs)[k].leaderboard == mid[k].leaderboard);
        let w = choose|w: int| 0 <= w < vs.len() && #[trigger] meta_game_id(vs[w].metadata) == id;
        assert(vars_opened_elem_check(v0.games, vs[w]) is Ok);
        lemma_game_index(v0.games, k);
        assert(game_of(v0.games, id) == v0.games[k]);
        assert(v0.games[k].game_status is Complete);
        assert(v0.games[k].wf());
        assert(v0.games[k].leaderboard.len() == 0);
        assert(player_positions(v0.games[k].leaderboard, p).len() == 0) by {
            reveal(Seq::filter);
        }
    }
}

} // verus!
