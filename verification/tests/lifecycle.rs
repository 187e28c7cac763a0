//! Lifecycle tests: the game registry, the linear state machine, deadline
//! boundaries, roster uniqueness, idempotent event replay, and publication.

use trivia::create_game;
use trivia::entry_processed;
use trivia::entry_submitted;
use trivia::finish_game;
use trivia::game_started;
use trivia::initialize;
use trivia::submit_answers;
use trivia::vars_opened;
use trivia::ComputationRequest;
use trivia::ContractState;
use trivia::GameInitParams;
use trivia::types::Address;
use trivia::types::GameStatus;
use trivia::types::OpenedVariable;
use trivia::types::SecretVarId;
use trivia::types::TriviaError;
use trivia::types::VariableKind;

const DEADLINE: i64 = 1000;

fn addr(id: u64) -> Address {
    Address { id }
}

fn svar(raw_id: u32) -> SecretVarId {
    SecretVarId { raw_id }
}

fn params(game_id: u32, question_count: u8) -> GameInitParams {
    GameInitParams { game_id, question_count, game_deadline: DEADLINE }
}

/// A registry with one game in the Pending phase.
fn pending_game(game_id: u32) -> ContractState {
    let mut state = initialize();
    let r = create_game(&mut state, 0, addr(100), params(game_id, 3));
    assert!(r.is_ok());
    state
}

/// A registry with one game in the InProgress phase; the answer key is
/// secret variable 1.
fn in_progress_game(game_id: u32) -> ContractState {
    let mut state = pending_game(game_id);
    let meta = VariableKind::GameAnswers { game_id, length: 3 };
    let r = game_started(&mut state, svar(1), meta);
    assert!(r.is_ok());
    state
}

/// One player's full submission: submit-answers, then the entry-committed
/// event for the given handle, then the computation-complete event for the
/// result handle (entry handle + 100).
fn full_submission(state: &mut ContractState, game_id: u32, player: Address, entry: SecretVarId) {
    let r = submit_answers(state, 10, player, game_id);
    assert!(r.is_ok());
    let req = entry_submitted(state, entry, VariableKind::Entry { game_id, player })
        .expect("entry event rejected")
        .expect("no computation started");
    let result_var = svar(entry.raw_id + 100);
    let outputs = vec![(result_var, req.result_metadata)];
    assert_eq!(entry_processed(state, &outputs), Ok(()));
}

fn opened(raw_id: u32, game_id: u32, player: Address, score: i8) -> OpenedVariable {
    OpenedVariable {
        variable_id: svar(raw_id),
        metadata: VariableKind::Result { game_id, player },
        data: vec![score as u8],
    }
}

#[test]
fn create_game_registers_pending_game() {
    let mut state = initialize();
    let r = create_game(&mut state, 0, addr(100), params(7, 3));
    assert_eq!(r, Ok(VariableKind::GameAnswers { game_id: 7, length: 3 }));
    assert!(state.has_game_id(7));
    let g = state.get_game(7).unwrap();
    assert_eq!(g.game_status, GameStatus::Pending);
    assert_eq!(g.creator, addr(100));
    assert_eq!(g.game_deadline, DEADLINE);
    assert_eq!(g.question_count, 3);
    assert!(g.players.is_empty());
    assert!(g.game_data_svar.is_none());
    assert!(g.leaderboard.is_empty());
}

#[test]
fn duplicate_game_id_rejected_iff_registered() {
    let mut state = initialize();
    assert!(create_game(&mut state, 0, addr(100), params(1, 3)).is_ok());
    // The same id again is rejected...
    let r = create_game(&mut state, 0, addr(101), params(1, 3));
    assert_eq!(r, Err(TriviaError::GameIdInUse));
    // ...while an unused id is accepted.
    assert!(create_game(&mut state, 0, addr(101), params(2, 3)).is_ok());
    // And the rejected call registered nothing new.
    assert!(state.has_game_id(1));
    assert!(state.has_game_id(2));
    assert!(!state.has_game_id(3));
}

#[test]
fn create_game_rejects_deadline_not_in_future() {
    let mut state = initialize();
    let r = create_game(&mut state, DEADLINE, addr(100), params(1, 3));
    assert_eq!(r, Err(TriviaError::DeadlineInPast));
    let r = create_game(&mut state, DEADLINE + 5, addr(100), params(1, 3));
    assert_eq!(r, Err(TriviaError::DeadlineInPast));
    assert!(!state.has_game_id(1));
}

#[test]
fn create_game_rejects_oversized_question_count() {
    let mut state = initialize();
    let r = create_game(&mut state, 0, addr(100), params(1, 21));
    assert_eq!(r, Err(TriviaError::TooManyQuestions));
    // Rejected before any state mutation.
    assert!(!state.has_game_id(1));
    // The maximum itself is accepted.
    assert!(create_game(&mut state, 0, addr(100), params(1, 20)).is_ok());
}

#[test]
fn game_started_moves_pending_to_in_progress() {
    let mut state = pending_game(1);
    let meta = VariableKind::GameAnswers { game_id: 1, length: 3 };
    assert_eq!(game_started(&mut state, svar(1), meta), Ok(()));
    let g = state.get_game(1).unwrap();
    assert_eq!(g.game_status, GameStatus::InProgress);
    assert_eq!(g.game_data_svar, Some(svar(1)));
}

#[test]
fn game_started_rejects_wrong_metadata() {
    let mut state = pending_game(1);
    let meta = VariableKind::Entry { game_id: 1, player: addr(5) };
    assert_eq!(game_started(&mut state, svar(1), meta), Err(TriviaError::UnexpectedMetadata));
    assert_eq!(state.get_game(1).unwrap().game_status, GameStatus::Pending);
}

#[test]
fn game_started_rejects_unknown_game() {
    let mut state = pending_game(1);
    let meta = VariableKind::GameAnswers { game_id: 9, length: 3 };
    assert_eq!(game_started(&mut state, svar(1), meta), Err(TriviaError::UnknownGameId));
}

#[test]
fn answer_key_is_set_exactly_once() {
    let mut state = in_progress_game(1);
    // Replaying the key-committed event must not overwrite the handle.
    let meta = VariableKind::GameAnswers { game_id: 1, length: 3 };
    assert_eq!(game_started(&mut state, svar(42), meta), Err(TriviaError::StatusConflict));
    assert_eq!(state.get_game(1).unwrap().game_data_svar, Some(svar(1)));
}

#[test]
fn submit_answers_adds_player_and_requests_entry() {
    let mut state = in_progress_game(1);
    let r = submit_answers(&mut state, 10, addr(5), 1);
    assert_eq!(r, Ok(VariableKind::Entry { game_id: 1, player: addr(5) }));
    let g = state.get_game(1).unwrap();
    assert!(g.has_player_submitted(&addr(5)));
    assert!(!g.has_player_submitted(&addr(6)));
}

#[test]
fn submit_answers_rejects_duplicate_player() {
    let mut state = in_progress_game(1);
    assert!(submit_answers(&mut state, 10, addr(5), 1).is_ok());
    let r = submit_answers(&mut state, 11, addr(5), 1);
    assert_eq!(r, Err(TriviaError::PlayerAlreadySubmitted));
    assert_eq!(state.get_game(1).unwrap().players.len(), 1);
}

#[test]
fn submit_answers_deadline_boundaries() {
    // Just before the deadline: accepted.
    let mut state = in_progress_game(1);
    assert!(submit_answers(&mut state, DEADLINE - 1, addr(5), 1).is_ok());
    // Exactly at the deadline: rejected.
    let r = submit_answers(&mut state, DEADLINE, addr(6), 1);
    assert_eq!(r, Err(TriviaError::DeadlinePassed));
    // After the deadline: rejected.
    let r = submit_answers(&mut state, DEADLINE + 1, addr(6), 1);
    assert_eq!(r, Err(TriviaError::DeadlinePassed));
    assert_eq!(state.get_game(1).unwrap().players.len(), 1);
}

#[test]
fn submit_answers_rejects_wrong_phase_and_unknown_game() {
    let mut state = pending_game(1);
    assert_eq!(submit_answers(&mut state, 10, addr(5), 1), Err(TriviaError::StatusConflict));
    assert_eq!(submit_answers(&mut state, 10, addr(5), 9), Err(TriviaError::UnknownGameId));
}

#[test]
fn entry_submitted_records_handle_and_starts_computation() {
    let mut state = in_progress_game(1);
    assert!(submit_answers(&mut state, 10, addr(5), 1).is_ok());
    let meta = VariableKind::Entry { game_id: 1, player: addr(5) };
    let r = entry_submitted(&mut state, svar(2), meta);
    assert_eq!(
        r,
        Ok(Some(ComputationRequest {
            answers_var_id: svar(1),
            entry_var_id: svar(2),
            result_metadata: VariableKind::Result { game_id: 1, player: addr(5) },
        }))
    );
    assert_eq!(state.get_game(1).unwrap().entries_svars, vec![svar(2)]);
}

#[test]
fn entry_submitted_replay_is_idempotent() {
    let mut state = in_progress_game(1);
    assert!(submit_answers(&mut state, 10, addr(5), 1).is_ok());
    let meta = VariableKind::Entry { game_id: 1, player: addr(5) };
    assert!(entry_submitted(&mut state, svar(2), meta).is_ok());
    // Replaying the same committed-variable event duplicates nothing and
    // starts no second computation.
    assert_eq!(entry_submitted(&mut state, svar(2), meta), Ok(None));
    assert_eq!(state.get_game(1).unwrap().entries_svars, vec![svar(2)]);
}

#[test]
fn entry_submitted_rejects_wrong_metadata_and_unknown_game() {
    let mut state = in_progress_game(1);
    let r = entry_submitted(&mut state, svar(2), VariableKind::GameAnswers { game_id: 1, length: 3 });
    assert_eq!(r, Err(TriviaError::UnexpectedMetadata));
    let r = entry_submitted(&mut state, svar(2), VariableKind::Entry { game_id: 9, player: addr(5) });
    assert_eq!(r, Err(TriviaError::UnknownGameId));
}

#[test]
fn entry_processed_records_result_handles() {
    let mut state = in_progress_game(1);
    full_submission(&mut state, 1, addr(5), svar(2));
    let g = state.get_game(1).unwrap();
    assert_eq!(g.results_svars, vec![svar(102)]);
    assert_eq!(g.game_status, GameStatus::InProgress);
}

#[test]
fn entry_processed_rejects_bad_batch_without_state_change() {
    let mut state = in_progress_game(1);
    full_submission(&mut state, 1, addr(5), svar(2));
    let outputs = vec![
        (svar(103), VariableKind::Result { game_id: 1, player: addr(6) }),
        (svar(104), VariableKind::Entry { game_id: 1, player: addr(6) }),
    ];
    assert_eq!(entry_processed(&mut state, &outputs), Err(TriviaError::UnexpectedMetadata));
    // The whole batch was rejected: not even the valid first element landed.
    assert_eq!(state.get_game(1).unwrap().results_svars, vec![svar(102)]);
}

#[test]
fn finish_game_deadline_and_phase_rules() {
    let mut state = in_progress_game(1);
    // Before the deadline: rejected.
    assert_eq!(finish_game(&mut state, DEADLINE - 1, 1), Err(TriviaError::DeadlineNotReached));
    // Pending game: rejected.
    let mut other = pending_game(2);
    assert_eq!(finish_game(&mut other, DEADLINE, 2), Err(TriviaError::StatusConflict));
    // Unknown game: rejected.
    assert_eq!(finish_game(&mut state, DEADLINE, 9), Err(TriviaError::UnknownGameId));
    // Exactly at the deadline: accepted, game Complete.
    full_submission(&mut state, 1, addr(5), svar(2));
    let vars = finish_game(&mut state, DEADLINE, 1).expect("finish rejected");
    assert_eq!(vars, vec![svar(102)]);
    assert_eq!(state.get_game(1).unwrap().game_status, GameStatus::Complete);
    // Finishing again: rejected.
    assert_eq!(finish_game(&mut state, DEADLINE + 1, 1), Err(TriviaError::StatusConflict));
}

#[test]
fn full_game_publishes_sorted_leaderboard() {
    // The whole pipeline of one game with two players scoring 3 and 1.
    let mut state = in_progress_game(1);
    full_submission(&mut state, 1, addr(5), svar(2));
    full_submission(&mut state, 1, addr(6), svar(3));
    let to_open = finish_game(&mut state, DEADLINE, 1).unwrap();
    assert_eq!(to_open, vec![svar(102), svar(103)]);
    let batch = vec![opened(103, 1, addr(6), 1), opened(102, 1, addr(5), 3)];
    assert_eq!(vars_opened(&mut state, &batch), Ok(()));
    let g = state.get_game(1).unwrap();
    assert_eq!(g.game_status, GameStatus::Published);
    assert_eq!(g.leaderboard.len(), 2);
    assert_eq!(g.leaderboard[0].player, addr(5));
    assert_eq!(g.leaderboard[0].score, 3);
    assert_eq!(g.leaderboard[1].player, addr(6));
    assert_eq!(g.leaderboard[1].score, 1);
    assert_eq!(g.leaderboard[0].game_id, 1);
}

#[test]
fn leaderboard_ties_keep_insertion_order() {
    let mut state = in_progress_game(1);
    full_submission(&mut state, 1, addr(5), svar(2));
    full_submission(&mut state, 1, addr(6), svar(3));
    full_submission(&mut state, 1, addr(7), svar(4));
    finish_game(&mut state, DEADLINE, 1).unwrap();
    let batch = vec![
        opened(102, 1, addr(5), 1),
        opened(103, 1, addr(6), 3),
        opened(104, 1, addr(7), 3),
    ];
    assert_eq!(vars_opened(&mut state, &batch), Ok(()));
    let g = state.get_game(1).unwrap();
    // Descending by score; the two 3-scorers keep their delivery order.
    assert_eq!(g.leaderboard[0].player, addr(6));
    assert_eq!(g.leaderboard[1].player, addr(7));
    assert_eq!(g.leaderboard[2].player, addr(5));
}

#[test]
fn vars_opened_batch_may_mix_games() {
    // A single opened batch spanning two games finalizes each exactly once.
    let mut state = initialize();
    for game_id in [1u32, 2u32] {
        assert!(create_game(&mut state, 0, addr(100), params(game_id, 3)).is_ok());
        let meta = VariableKind::GameAnswers { game_id, length: 3 };
        assert!(game_started(&mut state, svar(10 + game_id), meta).is_ok());
        full_submission(&mut state, game_id, addr(5), svar(20 + game_id));
        assert!(finish_game(&mut state, DEADLINE, game_id).is_ok());
    }
    let batch = vec![opened(121, 1, addr(5), 2), opened(122, 2, addr(5), 3)];
    assert_eq!(vars_opened(&mut state, &batch), Ok(()));
    for (game_id, score) in [(1u32, 2i8), (2u32, 3i8)] {
        let g = state.get_game(game_id).unwrap();
        assert_eq!(g.game_status, GameStatus::Published);
        assert_eq!(g.leaderboard.len(), 1);
        assert_eq!(g.leaderboard[0].score, score);
        assert_eq!(g.leaderboard[0].game_id, game_id);
    }
}

#[test]
fn vars_opened_rejects_malformed_and_mistimed_batches() {
    let mut state = in_progress_game(1);
    full_submission(&mut state, 1, addr(5), svar(2));
    // Opening while still InProgress: rejected.
    let batch = vec![opened(102, 1, addr(5), 3)];
    assert_eq!(vars_opened(&mut state, &batch), Err(TriviaError::StatusConflict));
    finish_game(&mut state, DEADLINE, 1).unwrap();
    // A cleartext that is not exactly one byte: rejected, nothing applied.
    let bad = OpenedVariable {
        variable_id: svar(102),
        metadata: VariableKind::Result { game_id: 1, player: addr(5) },
        data: vec![3, 0],
    };
    assert_eq!(vars_opened(&mut state, &vec![bad]), Err(TriviaError::MalformedScoreData));
    let g = state.get_game(1).unwrap();
    assert_eq!(g.game_status, GameStatus::Complete);
    assert!(g.leaderboard.is_empty());
    // A non-Result tag in the batch: rejected.
    let wrong = OpenedVariable {
        variable_id: svar(102),
        metadata: VariableKind::Entry { game_id: 1, player: addr(5) },
        data: vec![3],
    };
    assert_eq!(vars_opened(&mut state, &vec![wrong]), Err(TriviaError::UnexpectedMetadata));
}

#[test]
fn published_game_rejects_every_action() {
    let mut state = in_progress_game(1);
    full_submission(&mut state, 1, addr(5), svar(2));
    finish_game(&mut state, DEADLINE, 1).unwrap();
    let batch = vec![opened(102, 1, addr(5), 3)];
    assert_eq!(vars_opened(&mut state, &batch), Ok(()));
    assert_eq!(state.get_game(1).unwrap().game_status, GameStatus::Published);

    // Terminal-state closure: nothing succeeds against the game any more.
    let t = DEADLINE + 10;
    assert_eq!(create_game(&mut state, 0, addr(9), params(1, 3)), Err(TriviaError::GameIdInUse));
    let key_meta = VariableKind::GameAnswers { game_id: 1, length: 3 };
    assert_eq!(game_started(&mut state, svar(50), key_meta), Err(TriviaError::StatusConflict));
    assert_eq!(submit_answers(&mut state, 10, addr(9), 1), Err(TriviaError::StatusConflict));
    let entry_meta = VariableKind::Entry { game_id: 1, player: addr(9) };
    assert_eq!(entry_submitted(&mut state, svar(51), entry_meta), Err(TriviaError::StatusConflict));
    let outputs = vec![(svar(52), VariableKind::Result { game_id: 1, player: addr(9) })];
    assert_eq!(entry_processed(&mut state, &outputs), Err(TriviaError::StatusConflict));
    assert_eq!(finish_game(&mut state, t, 1), Err(TriviaError::StatusConflict));
    assert_eq!(vars_opened(&mut state, &vec![opened(102, 1, addr(5), 3)]), Err(TriviaError::StatusConflict));
    // And the record did not change.
    let g = state.get_game(1).unwrap();
    assert_eq!(g.game_status, GameStatus::Published);
    assert_eq!(g.leaderboard.len(), 1);
    assert_eq!(g.players.len(), 1);
}
