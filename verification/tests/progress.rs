use fsrs::progress::{CombinedProgressState, ProgressState};

#[test]
fn progress_counts_finished_epochs() {
    let state = ProgressState { epoch: 3, epoch_total: 8, items_processed: 4, items_total: 10 };
    assert_eq!(state.current(), 24);
    assert_eq!(state.total(), 80);
}

#[test]
fn shared_progress_starts_empty() {
    let shared = CombinedProgressState::new_shared();
    let state = shared.lock().unwrap();
    assert!(!state.want_abort);
    assert!(state.splits.is_empty());
    assert!(!state.finished());
    assert_eq!(state.current(), 0);
    assert_eq!(state.total(), 0);
}

#[test]
fn progress_is_done_in_the_last_step_and_not_before() {
    for epoch in 1..=3 {
        for items_processed in 0..=4 {
            let state = ProgressState { epoch, epoch_total: 3, items_processed, items_total: 4 };
            assert!(state.current() <= state.total());
            assert_eq!(state.current() == state.total(), (epoch, items_processed) == (3, 4));
        }
    }
}
