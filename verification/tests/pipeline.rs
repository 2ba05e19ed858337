use sum_btc::pipeline::{reports_progress, sync_range, Sequencer, DEFAULT_WINDOW};

#[test]
fn out_of_order_completions_leave_in_height_order() {
    let mut seq: Sequencer<&str, ()> = Sequencer::new(3, 5, DEFAULT_WINDOW);
    assert_eq!(seq.issue(), Some(3));
    assert_eq!(seq.issue(), Some(4));
    assert_eq!(seq.issue(), Some(5));
    assert_eq!(seq.issue(), None);
    let mut released = Vec::new();
    for (height, item) in [(5u64, "five"), (3, "three"), (4, "four")] {
        assert_eq!(seq.complete(height, Ok(item)), None);
        while let Some(next) = seq.release() {
            released.push(next);
        }
    }
    assert_eq!(released, vec![(3, Ok("three")), (4, Ok("four")), (5, Ok("five"))]);
    assert!(seq.is_done());
    assert_eq!(seq.release(), None);
}

#[test]
fn nothing_leaves_before_the_lowest_height() {
    let mut seq: Sequencer<u8, ()> = Sequencer::new(3, 5, 32);
    seq.issue();
    seq.issue();
    seq.issue();
    assert_eq!(seq.complete(5, Ok(50)), None);
    assert_eq!(seq.release(), None);
    assert_eq!(seq.complete(4, Ok(40)), None);
    assert_eq!(seq.release(), None);
    assert!(!seq.is_done());
    assert_eq!(seq.complete(3, Ok(30)), None);
    assert_eq!(seq.release(), Some((3, Ok(30))));
    assert_eq!(seq.release(), Some((4, Ok(40))));
    assert_eq!(seq.release(), Some((5, Ok(50))));
    assert_eq!(seq.release(), None);
}

#[test]
fn the_window_bounds_what_is_in_flight() {
    let mut seq: Sequencer<u64, String> = Sequencer::new(1, 100, 2);
    assert!(seq.has_room());
    assert_eq!(seq.issue(), Some(1));
    assert_eq!(seq.issue(), Some(2));
    assert!(!seq.has_room());
    assert_eq!(seq.issue(), None);
    assert_eq!(seq.in_flight(), 2);
    // a completion alone frees no room: it still waits for its turn
    assert_eq!(seq.complete(2, Ok(22)), None);
    assert_eq!(seq.issue(), None);
    assert_eq!(seq.complete(1, Ok(11)), None);
    assert_eq!(seq.release(), Some((1, Ok(11))));
    assert_eq!(seq.issue(), Some(3));
    assert_eq!(seq.issue(), None);
    assert_eq!(seq.release(), Some((2, Ok(22))));
    assert_eq!(seq.in_flight(), 1);
}

#[test]
fn unexpected_completions_are_handed_back() {
    let mut seq: Sequencer<u64, String> = Sequencer::new(10, 12, 32);
    assert_eq!(seq.complete(10, Ok(1)), Some(Ok(1)));
    assert_eq!(seq.issue(), Some(10));
    assert_eq!(seq.complete(11, Ok(2)), Some(Ok(2)));
    assert_eq!(seq.complete(9, Ok(3)), Some(Ok(3)));
    assert_eq!(seq.complete(10, Ok(4)), None);
    assert_eq!(seq.complete(10, Ok(5)), Some(Ok(5)));
    assert_eq!(seq.release(), Some((10, Ok(4))));
    assert_eq!(seq.complete(10, Ok(6)), Some(Ok(6)));
}

#[test]
fn a_failure_ends_the_run_at_its_height() {
    let mut seq: Sequencer<u64, String> = Sequencer::new(1, 10, 4);
    assert_eq!(seq.issue(), Some(1));
    assert_eq!(seq.issue(), Some(2));
    assert_eq!(seq.issue(), Some(3));
    assert_eq!(seq.complete(2, Err("no such block".to_string())), None);
    assert_eq!(seq.complete(3, Ok(33)), None);
    // the failure waits for its turn like any completion
    assert_eq!(seq.release(), None);
    assert!(!seq.has_failed());
    assert_eq!(seq.complete(1, Ok(11)), None);
    assert_eq!(seq.release(), Some((1, Ok(11))));
    assert_eq!(seq.release(), Some((2, Err("no such block".to_string()))));
    assert!(seq.has_failed());
    assert!(seq.is_done());
    // the height above the failure is not handed on
    assert_eq!(seq.release(), None);
    assert_eq!(seq.issue(), None);
    assert!(!seq.has_room());
    assert_eq!(seq.complete(4, Ok(44)), Some(Ok(44)));
}

#[test]
fn an_empty_range_is_done_at_once() {
    let mut seq: Sequencer<u64, String> = Sequencer::new(6, 5, 32);
    assert_eq!(seq.issue(), None);
    assert!(seq.is_done());
    assert_eq!(seq.release(), None);
}

#[test]
fn sync_starts_above_the_checkpoint() {
    assert_eq!(sync_range(0, 844566), Some((1, 844566)));
    assert_eq!(sync_range(2, 3), Some((3, 3)));
    assert_eq!(sync_range(3, 3), None);
    assert_eq!(sync_range(4, 3), None);
    assert_eq!(sync_range(u64::MAX, u64::MAX), None);
    assert_eq!(sync_range(u64::MAX - 1, u64::MAX), Some((u64::MAX, u64::MAX)));
}

#[test]
fn progress_every_thousandth_block() {
    assert!(reports_progress(0));
    assert!(reports_progress(1000));
    assert!(reports_progress(844000));
    assert!(!reports_progress(1));
    assert!(!reports_progress(999));
    assert!(!reports_progress(844566));
    assert_eq!(DEFAULT_WINDOW, 32);
}
