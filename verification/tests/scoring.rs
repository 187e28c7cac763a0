//! Scoring tests: exact-match counting with blank-sentinel skipping over the
//! fixed-capacity answer arrays, and the end-to-end scenario of one game.

use trivia::create_game;
use trivia::entry_submitted;
use trivia::finish_game;
use trivia::game_started;
use trivia::initialize;
use trivia::read_variable_i8_le;
use trivia::submit_answers;
use trivia::vars_opened;
use trivia::GameInitParams;
use trivia::types::Address;
use trivia::types::GameStatus;
use trivia::types::OpenedVariable;
use trivia::types::SecretVarId;
use trivia::types::VariableKind;
use trivia::zk_compute::calculate_results;
use trivia::zk_compute::compute_score;

/// Build a fixed-capacity answer array from its meaningful prefix, padding
/// the rest with the blank sentinel.
fn answers(prefix: &[i8]) -> [i8; 20] {
    let mut arr = [0i8; 20];
    for (i, &v) in prefix.iter().enumerate() {
        arr[i] = v;
    }
    arr
}

#[test]
fn compute_score_counts_exact_matches() {
    let key = answers(&[1, 2, 3]);
    assert_eq!(compute_score(&answers(&[1, 2, 3]), &key), 3);
    assert_eq!(compute_score(&answers(&[1, 0, 0]), &key), 1);
    assert_eq!(compute_score(&answers(&[4, 5, 6]), &key), 0);
    assert_eq!(compute_score(&answers(&[1, 5, 3]), &key), 2);
}

#[test]
fn compute_score_skips_blank_key_positions() {
    // Only key positions greater than zero are scored: an entry matching a
    // blank (zero) or negative key slot earns nothing.
    let key = answers(&[1, 0, -7]);
    assert_eq!(compute_score(&answers(&[1, 0, -7]), &key), 1);
    // An all-blank key scores everything zero.
    let blank_key = answers(&[]);
    assert_eq!(compute_score(&answers(&[0, 0, 0]), &blank_key), 0);
    assert_eq!(compute_score(&blank_key, &blank_key), 0);
}

#[test]
fn compute_score_full_capacity() {
    // The scoring pass runs over the whole fixed capacity, not just the
    // declared question count.
    let key = [7i8; 20];
    assert_eq!(compute_score(&[7i8; 20], &key), 20);
    let mut one_off = [7i8; 20];
    one_off[19] = 6;
    assert_eq!(compute_score(&one_off, &key), 19);
}

#[test]
fn calculate_results_is_the_key_entry_comparison() {
    let key = answers(&[1, 2, 3]);
    assert_eq!(calculate_results(&key, &answers(&[1, 2, 3])), 3);
    assert_eq!(calculate_results(&key, &answers(&[1, 0, 0])), 1);
}

#[test]
fn read_variable_reads_one_signed_byte() {
    let v = OpenedVariable {
        variable_id: SecretVarId { raw_id: 1 },
        metadata: VariableKind::Result { game_id: 1, player: Address { id: 5 } },
        data: vec![3],
    };
    assert_eq!(read_variable_i8_le(&v), 3);
    let v = OpenedVariable { data: vec![255], ..v };
    assert_eq!(read_variable_i8_le(&v), -1);
}

#[test]
fn two_player_game_end_to_end() {
    // create-game(game_id 1, three questions, deadline T); commit the key
    // [1,2,3,blank,...]; two players submit [1,2,3,...] and [1,0,0,...];
    // finish at T; open both results: leaderboard [(a, 3), (b, 1)].
    let deadline: i64 = 1000;
    let a = Address { id: 5 };
    let b = Address { id: 6 };
    let key = answers(&[1, 2, 3]);

    let mut state = initialize();
    let init = GameInitParams { game_id: 1, question_count: 3, game_deadline: deadline };
    assert!(create_game(&mut state, 0, a, init).is_ok());
    let key_var = SecretVarId { raw_id: 1 };
    assert!(game_started(&mut state, key_var, VariableKind::GameAnswers { game_id: 1, length: 3 }).is_ok());

    let mut results = Vec::new();
    for (player, entry_raw, entry_vals) in
        [(a, 2u32, [1i8, 2, 3]), (b, 3u32, [1i8, 0, 0])]
    {
        assert!(submit_answers(&mut state, 10, player, 1).is_ok());
        let req = entry_submitted(
            &mut state,
            SecretVarId { raw_id: entry_raw },
            VariableKind::Entry { game_id: 1, player },
        )
        .unwrap()
        .unwrap();
        // The collaborator runs the requested computation on the secret
        // values; here it runs on the cleartexts.
        let score = calculate_results(&key, &answers(&entry_vals));
        results.push((player, req.result_metadata, score));
    }

    assert!(finish_game(&mut state, deadline, 1).is_ok());
    let batch: Vec<OpenedVariable> = results
        .iter()
        .enumerate()
        .map(|(i, (_, meta, score))| OpenedVariable {
            variable_id: SecretVarId { raw_id: 100 + i as u32 },
            metadata: *meta,
            data: vec![*score as u8],
        })
        .collect();
    assert_eq!(vars_opened(&mut state, &batch), Ok(()));

    let g = state.get_game(1).unwrap();
    assert_eq!(g.game_status, GameStatus::Published);
    assert_eq!(g.leaderboard.len(), 2);
    assert_eq!((g.leaderboard[0].player, g.leaderboard[0].score), (a, 3));
    assert_eq!((g.leaderboard[1].player, g.leaderboard[1].score), (b, 1));
}
