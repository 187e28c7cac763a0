//! Core data model of the trivia game: identities, secret-variable handles,
//! metadata tags, game status, and the per-game record with its invariants.

use vstd::prelude::*;

verus! {

/// Fixed capacity of the secret answer arrays. A game's `question_count`
/// never exceeds it; unused trailing slots hold the blank sentinel (zero or
/// a negative value) and are skipped by scoring.
pub const MAX_QUESTIONS: usize = 20;

/// A fixed-capacity answer array. Positions holding a value greater than
/// zero are meaningful; other positions are blank padding.
pub type AnswersArr = [i8; MAX_QUESTIONS];

/// Identity of an account interacting with the game.
#[derive(Clone, Copy, PartialEq, Eq, Structural, Debug)]
pub struct Address {
    pub id: u64,
}

/// Opaque handle to a secret value held by the multi-party computation
/// collaborator. The value itself never enters this library; the handle is a
/// weak reference resolved by the collaborator.
#[derive(Clone, Copy, PartialEq, Eq, Structural, Debug)]
pub struct SecretVarId {
    pub raw_id: u32,
}

/// Lifecycle phase of a game. Transitions are strictly linear:
/// Pending, then InProgress, then Complete, then Published (terminal).
#[derive(Clone, Copy, PartialEq, Eq, Structural, Debug)]
pub enum GameStatus {
    Pending,
    InProgress,
    Complete,
    Published,
}

/// Metadata tag carried alongside every secret-variable handle. It is the
/// only mechanism that correlates an asynchronous secret-computation event
/// back to the game and player it belongs to.
#[derive(Clone, Copy, PartialEq, Eq, Structural, Debug)]
pub enum VariableKind {
    /// The game's secret answer key.
    GameAnswers { game_id: u32, length: u8 },
    /// A player's secret entry.
    Entry { game_id: u32, player: Address },
    /// The secret score computed for one player's entry.
    Result { game_id: u32, player: Address },
}

/// One finalized ranking entry of a published game.
#[derive(Clone, Copy, PartialEq, Eq, Structural, Debug)]
pub struct LeaderboardPosition {
    pub game_id: u32,
    pub player: Address,
    pub score: i8,
}

/// Why an action was rejected. User errors leave the state untouched;
/// `UnexpectedMetadata` and `MalformedScoreData` signal a broken protocol
/// between this core and the collaborator.
#[derive(Clone, Copy, PartialEq, Eq, Structural, Debug)]
pub enum TriviaError {
    /// create-game: the deadline is not in the future.
    DeadlineInPast,
    /// create-game: the game id is already registered.
    GameIdInUse,
    /// create-game: the question count exceeds `MAX_QUESTIONS`.
    TooManyQuestions,
    /// No game with the given id is registered.
    UnknownGameId,
    /// The game's status does not admit the attempted action.
    StatusConflict,
    /// submit-answers: the game's deadline has been reached.
    DeadlinePassed,
    /// finish-game: the game's deadline has not been reached yet.
    DeadlineNotReached,
    /// submit-answers: the player already submitted an entry.
    PlayerAlreadySubmitted,
    /// A secret variable's metadata tag does not match the event.
    UnexpectedMetadata,
    /// An opened result's cleartext is not exactly one byte.
    MalformedScoreData,
}

/// One opened secret value as delivered by the collaborator: the handle,
/// the metadata tag resolved for it, and its cleartext bytes.
pub struct OpenedVariable {
    pub variable_id: SecretVarId,
    pub metadata: VariableKind,
    pub data: Vec<u8>,
}

/// Mathematical model of an opened secret value.
pub struct OpenedView {
    pub variable_id: SecretVarId,
    pub metadata: VariableKind,
    pub data: Seq<u8>,
}

impl View for OpenedVariable {
    type V = OpenedView;

    open spec fn view(&self) -> OpenedView {
        OpenedView { variable_id: self.variable_id, metadata: self.metadata, data: self.data@ }
    }
}

/// Mathematical model of one game: the record with every collection replaced
/// by its sequence abstraction.
pub struct GameView {
    pub game_id: u32,
    pub creator: Address,
    pub game_status: GameStatus,
    pub game_deadline: i64,
    pub question_count: u8,
    pub players: Seq<Address>,
    pub game_data_svar: Option<SecretVarId>,
    pub entries_svars: Seq<SecretVarId>,
    pub results_svars: Seq<SecretVarId>,
    pub leaderboard: Seq<LeaderboardPosition>,
}

/// A leaderboard is ranked by strictly non-increasing score.
pub open spec fn sorted_desc(lb: Seq<LeaderboardPosition>) -> bool {
    forall|i: int, j: int| 0 <= i < j < lb.len() ==> lb[i].score >= lb[j].score
}

/// Index at which a new entry with the given score is inserted into a
/// descending leaderboard: right after the last entry scoring at least as
/// much, so that ties keep their insertion order.
pub open spec fn descent_point(lb: Seq<LeaderboardPosition>, score: i8) -> int
    decreases lb.len(),
{
    if lb.len() == 0 {
        0
    } else if lb[0].score >= score {
        1 + descent_point(lb.drop_first(), score)
    } else {
        0
    }
}

/// The leaderboard after one entry is ranked into it.
pub open spec fn sorted_insert(lb: Seq<LeaderboardPosition>, e: LeaderboardPosition) -> Seq<
    LeaderboardPosition,
> {
    lb.insert(descent_point(lb, e.score), e)
}

/// `descent_point` is a valid index and is exactly the first position whose
/// score is strictly below the inserted one.
pub proof fn lemma_descent_point(lb: Seq<LeaderboardPosition>, score: i8)
    ensures
        0 <= descent_point(lb, score) <= lb.len(),
        forall|j: int| 0 <= j < descent_point(lb, score) ==> lb[j].score >= score,
        descent_point(lb, score) < lb.len() ==> lb[descent_point(lb, score)].score < score,
    decreases lb.len(),
{
    if lb.len() > 0 && lb[0].score >= score {
        lemma_descent_point(lb.drop_first(), score);
        assert forall|j: int| 0 <= j < descent_point(lb, score) implies lb[j].score
            >= score by {
            if j > 0 {
                assert(lb.drop_first()[j - 1] == lb[j]);
            }
        }
    }
}

/// Ranking one entry into a descending leaderboard keeps it descending.
pub proof fn lemma_sorted_insert_sorted(lb: Seq<LeaderboardPosition>, e: LeaderboardPosition)
    requires
        sorted_desc(lb),
    ensures
        sorted_desc(sorted_insert(lb, e)),
{
    let p = descent_point(lb, e.score);
    lemma_descent_point(lb, e.score);
    lb.insert_ensures(p, e);
    let r = sorted_insert(lb, e);
    assert forall|i: int, j: int| 0 <= i < j < r.len() implies r[i].score >= r[j].score by {
        if i < p {
            assert(r[i] == lb[i]);
        }
        if j < p {
            assert(r[j] == lb[j]);
        }
        if i > p {
            assert(r[i] == lb[i - 1]);
        }
        if j > p {
            assert(r[j] == lb[j - 1]);
        }
    }
}

/// Ranking one entry adds exactly that entry: the leaderboard's contents as
/// a multiset grow by the new position and nothing else.
pub proof fn lemma_sorted_insert_multiset(lb: Seq<LeaderboardPosition>, e: LeaderboardPosition)
    ensures
        sorted_insert(lb, e).to_multiset() == lb.to_multiset().insert(e),
        sorted_insert(lb, e).len() == lb.len() + 1,
{
    let p = descent_point(lb, e.score);
    lemma_descent_point(lb, e.score);
    lb.insert_ensures(p, e);
    broadcast use vstd::seq_lib::to_multiset_insert;

}

/// Selects the positions credited to one player.
pub open spec fn player_pred(p: Address) -> spec_fn(LeaderboardPosition) -> bool {
    |e: LeaderboardPosition| e.player == p
}

/// The positions credited to one player in a leaderboard, in rank order.
pub open spec fn player_positions(lb: Seq<LeaderboardPosition>, p: Address) -> Seq<
    LeaderboardPosition,
> {
    lb.filter(player_pred(p))
}

/// Appending one position adds it to its player's positions and to nobody
/// else's.
pub proof fn lemma_player_positions_push(
    lb: Seq<LeaderboardPosition>,
    e: LeaderboardPosition,
    p: Address,
)
    ensures
        player_positions(lb.push(e), p).len() == player_positions(lb, p).len() + (
        if e.player == p {
            1int
        } else {
            0int
        }),
{
    reveal(Seq::filter);
    let s = lb.push(e);
    let pred = player_pred(p);
    assert(s.len() == lb.len() + 1);
    assert(s.drop_last() =~= lb);
    assert(s.last() == e);
    assert(pred(e) == (e.player == p));
    assert(s.filter(pred) == if pred(e) {
        lb.filter(pred).push(e)
    } else {
        lb.filter(pred)
    });
}

/// Ranking one position into a leaderboard adds it to its player's
/// positions and to nobody else's.
pub proof fn lemma_sorted_insert_player_count(
    lb: Seq<LeaderboardPosition>,
    e: LeaderboardPosition,
    p: Address,
)
    ensures
        player_positions(sorted_insert(lb, e), p).len() == player_positions(lb, p).len() + (
        if e.player == p {
            1int
        } else {
            0int
        }),
{
    lemma_descent_point(lb, e.score);
    let dp = descent_point(lb, e.score);
    let a = lb.subrange(0, dp);
    let b = lb.subrange(dp, lb.len() as int);
    let pred = player_pred(p);
    assert(a.push(e) =~= a + seq![e]);
    assert(sorted_insert(lb, e) =~= (a + seq![e]) + b);
    Seq::filter_distributes_over_add(a + seq![e], b, pred);
    Seq::filter_distributes_over_add(a, seq![e], pred);
    assert(lb =~= a + b);
    Seq::filter_distributes_over_add(a, b, pred);
    assert(seq![e] =~= Seq::<LeaderboardPosition>::empty().push(e));
    lemma_player_positions_push(Seq::<LeaderboardPosition>::empty(), e, p);
}

impl GameView {
    /// Structural well-formedness of one game, maintained between actions:
    /// no duplicate players, bounded question count, the answer-key handle
    /// present exactly from the Pending-to-InProgress transition on, and a
    /// leaderboard that stays empty until publication and is always ranked.
    pub open spec fn wf(self) -> bool {
        &&& self.wf_core()
        &&& !(self.game_status is Published) ==> self.leaderboard.len() == 0
    }

    /// `wf` without the leaderboard-emptiness clause; this is the part that
    /// holds even while an opened batch is being folded into leaderboards.
    pub open spec fn wf_core(self) -> bool {
        &&& forall|i: int, j: int|
            0 <= i < j < self.players.len() ==> self.players[i] != self.players[j]
        &&& self.question_count as int <= MAX_QUESTIONS as int
        &&& (self.game_status is Pending <==> self.game_data_svar is None)
        &&& sorted_desc(self.leaderboard)
    }

    /// The freshly created game record.
    pub open spec fn init(
        game_id: u32,
        creator: Address,
        game_deadline: i64,
        question_count: u8,
    ) -> GameView {
        GameView {
            game_id,
            creator,
            game_status: GameStatus::Pending,
            game_deadline,
            question_count,
            players: Seq::empty(),
            game_data_svar: None,
            entries_svars: Seq::empty(),
            results_svars: Seq::empty(),
            leaderboard: Seq::empty(),
        }
    }
}

/// Persisted record of one game: status, deadline, roster, the handles of
/// the secret values attached to it, and the final leaderboard.
pub struct GameState {
    pub game_id: u32,
    pub creator: Address,
    pub game_status: GameStatus,
    pub game_deadline: i64,
    pub question_count: u8,
    pub players: Vec<Address>,
    pub game_data_svar: Option<SecretVarId>,
    pub entries_svars: Vec<SecretVarId>,
    pub results_svars: Vec<SecretVarId>,
    pub leaderboard: Vec<LeaderboardPosition>,
}

impl View for GameState {
    type V = GameView;

    open spec fn view(&self) -> GameView {
        GameView {
            game_id: self.game_id,
            creator: self.creator,
            game_status: self.game_status,
            game_deadline: self.game_deadline,
            question_count: self.question_count,
            players: self.players@,
            game_data_svar: self.game_data_svar,
            entries_svars: self.entries_svars@,
            results_svars: self.results_svars@,
            leaderboard: self.leaderboard@,
        }
    }
}

impl GameState {
    /// Create a new game record in the Pending phase.
    pub fn new(game_id: u32, creator: Address, game_deadline: i64, question_count: u8) -> (g:
        GameState)
        ensures
            g@ == GameView::init(game_id, creator, game_deadline, question_count),
    {
        let g = GameState {
            game_id,
            creator,
            game_status: GameStatus::Pending,
            game_deadline,
            question_count,
            players: Vec::new(),
            game_data_svar: None,
            entries_svars: Vec::new(),
            results_svars: Vec::new(),
            leaderboard: Vec::new(),
        };
        proof {
            assert(g@ =~= GameView::init(game_id, creator, game_deadline, question_count));
        }
        g
    }

    /// Check if the game is currently in progress.
    pub fn is_in_progress(&self) -> (r: bool)
        ensures
            r == (self@.game_status is InProgress),
    {
        self.game_status == GameStatus::InProgress
    }

    /// Check if the game is in the completed phase.
    pub fn is_complete(&self) -> (r: bool)
        ensures
            r == (self@.game_status is Complete),
    {
        self.game_status == GameStatus::Complete
    }

    /// Check if the game is still open (Pending or InProgress).
    pub fn is_open(&self) -> (r: bool)
        ensures
            r == (self@.game_status is Pending || self@.game_status is InProgress),
    {
        self.game_status == GameStatus::Pending || self.game_status == GameStatus::InProgress
    }

    /// Check if the game's deadline has been reached: true exactly when the
    /// current time is at or past the deadline.
    pub fn is_game_deadline_passed(&self, current_time: i64) -> (r: bool)
        ensures
            r == (current_time >= self@.game_deadline),
    {
        current_time >= self.game_deadline
    }

    /// Transition the game to InProgress, recording the answer-key handle.
    /// This is the only place the handle is ever set.
    pub fn start(&mut self, game_data_svar: SecretVarId)
        ensures
            final(self)@ == (GameView {
                game_status: GameStatus::InProgress,
                game_data_svar: Some(game_data_svar),
                ..old(self)@
            }),
    {
        self.game_status = GameStatus::InProgress;
        self.game_data_svar = Some(game_data_svar);
    }

    /// Transition the game to Complete.
    pub fn complete(&mut self)
        ensures
            final(self)@ == (GameView { game_status: GameStatus::Complete, ..old(self)@ }),
    {
        self.game_status = GameStatus::Complete;
    }

    /// Transition the game to Published, its terminal phase.
    pub fn publish(&mut self)
        ensures
            final(self)@ == (GameView { game_status: GameStatus::Published, ..old(self)@ }),
    {
        self.game_status = GameStatus::Published;
    }

    /// Check if a player has already submitted an entry to this game.
    pub fn has_player_submitted(&self, player: &Address) -> (r: bool)
        ensures
            r == self@.players.contains(*player),
    {
        let mut i: usize = 0;
        while i < self.players.len()
            invariant
                0 <= i <= self@.players.len(),
                forall|j: int| 0 <= j < i ==> self@.players[j] != *player,
            decreases self@.players.len() - i,
        {
            if self.players[i] == *player {
                return true;
            }
            i = i + 1;
        }
        false
    }

    /// Add a player to the roster. Callers must have checked that the
    /// player has not submitted yet; the roster never holds duplicates.
    pub fn add_player(&mut self, player: Address)
        requires
            !old(self)@.players.contains(player),
        ensures
            final(self)@ == (GameView { players: old(self)@.players.push(player), ..old(self)@ }),
    {
        self.players.push(player);
    }

    /// Record the handle of a confirmed player-entry secret value. The list
    /// only ever grows.
    pub fn add_entry_svar(&mut self, svar: SecretVarId)
        ensures
            final(self)@ == (GameView {
                entries_svars: old(self)@.entries_svars.push(svar),
                ..old(self)@
            }),
    {
        self.entries_svars.push(svar);
    }

    /// Record the handle of a finished scoring computation's result value.
    pub fn add_result_svar(&mut self, svar: SecretVarId)
        ensures
            final(self)@ == (GameView {
                results_svars: old(self)@.results_svars.push(svar),
                ..old(self)@
            }),
    {
        self.results_svars.push(svar);
    }

    /// Rank one finalized position into the leaderboard, keeping it sorted
    /// by descending score; an entry tying an existing score goes after it.
    pub fn add_leaderboard_entry(&mut self, leaderboard_entry: LeaderboardPosition)
        ensures
            final(self)@ == (GameView {
                leaderboard: sorted_insert(old(self)@.leaderboard, leaderboard_entry),
                ..old(self)@
            }),
    {
        let ghost lb0 = self@.leaderboard;
        let mut i: usize = 0;
        while i < self.leaderboard.len() && self.leaderboard[i].score >= leaderboard_entry.score
            invariant
                0 <= i <= lb0.len(),
                self@.leaderboard == lb0,
                forall|j: int| 0 <= j < i ==> lb0[j].score >= leaderboard_entry.score,
            decreases lb0.len() - i,
        {
            i = i + 1;
        }
        proof {
            lemma_descent_point(lb0, leaderboard_entry.score);
            let p = descent_point(lb0, leaderboard_entry.score);
            if p < i {
                assert(lb0[p].score >= leaderboard_entry.score);
            }
            if (i as int) < p {
                assert(lb0[i as int].score >= leaderboard_entry.score);
            }
            assert(i as int == p);
        }
        self.leaderboard.insert(i, leaderboard_entry);
    }
}

} // verus!
