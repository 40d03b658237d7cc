use analyzer::coord::MAX_RESULTS;
use analyzer::coord::RunState;
use analyzer::coord::adjust_score;
use analyzer::coord::aggregate_result;
use analyzer::coord::handle_annealing_result;
use analyzer::coord::keep_running;
use analyzer::coord::on_stop_signal;
use analyzer::score::Coverage;
use analyzer::simann::SimulatedAnnResult;

fn res(score: i64, tag: u8) -> SimulatedAnnResult {
    SimulatedAnnResult {
        key: vec![tag],
        decrypt: vec![tag],
        score,
        word_coverage: Coverage { num: 0, den: 1 },
    }
}

#[test]
fn board_stays_bounded_and_sorted() {
    let mut board: Vec<SimulatedAnnResult> = Vec::new();
    for s in 0..40i64 {
        handle_annealing_result(&mut board, res(-s, s as u8));
        assert!(board.len() <= MAX_RESULTS);
        for w in board.windows(2) {
            assert!(w[0].score > w[1].score);
        }
    }
    // the sixteen best of 0, -1, ..., -39 survive
    assert_eq!(board.len(), MAX_RESULTS);
    assert_eq!(board[0].score, 0);
    assert_eq!(board[15].score, -15);
}

#[test]
fn board_replaces_on_equal_score() {
    let mut board: Vec<SimulatedAnnResult> = Vec::new();
    handle_annealing_result(&mut board, res(-5, 1));
    handle_annealing_result(&mut board, res(-3, 2));
    handle_annealing_result(&mut board, res(-8, 3));
    assert_eq!(board.len(), 3);
    // same adjusted score: the entry is replaced, not joined
    handle_annealing_result(&mut board, res(-5, 9));
    assert_eq!(board.len(), 3);
    assert_eq!(board[1].score, -5);
    assert_eq!(board[1].key, vec![9]);
}

#[test]
fn board_inserts_in_order() {
    let mut board: Vec<SimulatedAnnResult> = Vec::new();
    for (s, t) in [(-7i64, 1u8), (-2, 2), (-9, 3), (-4, 4)] {
        handle_annealing_result(&mut board, res(s, t));
    }
    let scores: Vec<i64> = board.iter().map(|r| r.score).collect();
    assert_eq!(scores, vec![-2, -4, -7, -9]);
}

#[test]
fn adjusted_score_blends_and_rounds() {
    // raw -4.0, coverage 1/2: -4 * (3*2+1)/(4*2) = -3.5, rounded away from zero
    assert_eq!(adjust_score(-4000000, Coverage { num: 1, den: 2 }), -4);
    // raw -3.0, coverage 0: -3 * 3/4 = -2.25, rounded to -2
    assert_eq!(adjust_score(-3000000, Coverage { num: 0, den: 1 }), -2);
    // full coverage leaves the raw score whole
    assert_eq!(adjust_score(-3000000, Coverage { num: 4, den: 4 }), -3);
    assert_eq!(adjust_score(0, Coverage { num: 0, den: 1 }), 0);
}

#[test]
fn aggregate_flags_high_coverage() {
    let mut board: Vec<SimulatedAnnResult> = Vec::new();
    let mut r = res(-4000000, 1);
    r.word_coverage = Coverage { num: 9, den: 10 };
    assert!(aggregate_result(&mut board, r, 85));
    let mut r = res(-4000000, 2);
    r.word_coverage = Coverage { num: 8, den: 10 };
    assert!(!aggregate_result(&mut board, r, 85));
    // the lower threshold of the grid pipeline accepts it
    let mut r = res(-4000000, 3);
    r.word_coverage = Coverage { num: 8, den: 10 };
    assert!(aggregate_result(&mut board, r, 75));
}

#[test]
fn aggregate_ranks_by_adjusted_score() {
    let mut board: Vec<SimulatedAnnResult> = Vec::new();
    let mut r = res(-4000000, 1);
    r.word_coverage = Coverage { num: 1, den: 2 };
    aggregate_result(&mut board, r, 85);
    assert_eq!(board[0].score, -4);
}

#[test]
fn stop_signal_goes_through_stopping_to_abort() {
    let s = RunState::Running;
    assert!(keep_running(&s));
    let (s, hard) = on_stop_signal(s);
    assert_eq!(s, RunState::Stopping);
    assert!(!hard);
    assert!(!keep_running(&s));
    let (s, hard) = on_stop_signal(s);
    assert_eq!(s, RunState::Aborted);
    assert!(hard);
}

#[test]
fn stub_scored_results_collapse_and_shut_down() {
    // a stub scorer hands every worker result the same constant score:
    // however many results arrive, the tie rule keeps one entry, and one
    // stop request suffices for a graceful wind-down
    let mut board: Vec<SimulatedAnnResult> = Vec::new();
    let mut state = RunState::Running;
    let mut delivered = 0;
    for round in 0..50 {
        for worker in 0..4u8 {
            if !keep_running(&state) {
                break;
            }
            let mut r = res(-7000000, worker);
            r.word_coverage = Coverage { num: 0, den: 1 };
            aggregate_result(&mut board, r, 85);
            delivered += 1;
        }
        if round == 39 {
            let (next, hard) = on_stop_signal(state);
            assert!(!hard);
            state = next;
        }
    }
    assert!(delivered <= 160);
    assert_eq!(board.len(), 1);
    assert!(board.len() <= MAX_RESULTS);
    assert_eq!(state, RunState::Stopping);
}

#[test]
fn results_compare_by_score() {
    assert!(res(-1, 0) == res(-1, 9));
    assert!(res(-1, 0) > res(-2, 0));
    assert!(res(-5, 0) < res(-2, 0));
}
