use wav2pwl::watch::{Action, Event, Note, Phase, Watcher, GRACE_MS, SIZE_POLL_MS};

fn detected() -> Watcher {
    let (mut w, first) = Watcher::new();
    assert_eq!(first, Action::CheckExists { delay_ms: 0 });
    let (a, n) = w.step(Event::Exists(true));
    assert_eq!(a, Action::ReadSize { delay_ms: SIZE_POLL_MS });
    assert_eq!(n, Note::Detected);
    w
}

#[test]
fn changing_size_is_taken_only_after_all_readings() {
    let mut w = detected();
    for k in 1..=20u64 {
        let (a, n) = w.step(Event::Size(Some(k * 10)));
        assert_ne!(n, Note::Stable);
        if k < 20 {
            assert_eq!(a, Action::ReadSize { delay_ms: SIZE_POLL_MS });
        } else {
            assert_eq!(a, Action::CheckExists { delay_ms: GRACE_MS });
            assert_eq!(n, Note::Unsettled);
        }
    }
    assert_eq!(w.phase, Phase::Grace);
}

#[test]
fn steady_size_settles_after_three_unchanged_readings() {
    let mut w = detected();
    for _ in 0..3 {
        let (a, n) = w.step(Event::Size(Some(42)));
        assert_eq!(a, Action::ReadSize { delay_ms: SIZE_POLL_MS });
        assert_eq!(n, Note::Quiet);
    }
    let (a, n) = w.step(Event::Size(Some(42)));
    assert_eq!(a, Action::CheckExists { delay_ms: GRACE_MS });
    assert_eq!(n, Note::Stable);
}

#[test]
fn empty_file_never_counts_as_stable() {
    let mut w = detected();
    for _ in 0..19 {
        let (_, n) = w.step(Event::Size(Some(0)));
        assert_eq!(n, Note::Quiet);
    }
    let (_, n) = w.step(Event::Size(Some(0)));
    assert_eq!(n, Note::Unsettled);
}

#[test]
fn vanishing_file_goes_back_to_waiting() {
    let mut w = detected();
    let (a, n) = w.step(Event::Size(None));
    assert_eq!(a, Action::CheckExists { delay_ms: 100 });
    assert_eq!(n, Note::Vanished);
    assert_eq!(w.phase, Phase::Waiting);
}

fn converting() -> Watcher {
    let mut w = detected();
    for _ in 0..4 {
        w.step(Event::Size(Some(7)));
    }
    let (a, _) = w.step(Event::Exists(true));
    assert_eq!(a, Action::Convert);
    w
}

#[test]
fn delete_failure_keeps_conversion_successful() {
    let mut w = converting();
    let (a, n) = w.step(Event::Converted(true));
    assert_eq!(a, Action::Delete);
    assert_eq!(n, Note::Converted);
    let (a, n) = w.step(Event::Deleted(false));
    assert_eq!(n, Note::DeleteFailed);
    assert_eq!(a, Action::CheckExists { delay_ms: 100 });
    assert_eq!(w.phase, Phase::Waiting);
}

#[test]
fn failed_conversion_leaves_file_for_retry() {
    let mut w = converting();
    let (a, n) = w.step(Event::Converted(false));
    assert_eq!(n, Note::ConversionFailed);
    assert_eq!(a, Action::CheckExists { delay_ms: 100 });
    let (a, _) = w.step(Event::Exists(true));
    assert_eq!(a, Action::ReadSize { delay_ms: SIZE_POLL_MS });
}

#[test]
fn unexpected_event_repeats_pending_action() {
    let mut w = converting();
    let (a, n) = w.step(Event::Exists(true));
    assert_eq!(a, Action::Convert);
    assert_eq!(n, Note::Quiet);
    assert_eq!(w.phase, Phase::Converting);
}

#[test]
fn grace_check_catches_late_deletion() {
    let mut w = detected();
    for _ in 0..4 {
        w.step(Event::Size(Some(7)));
    }
    let (a, n) = w.step(Event::Exists(false));
    assert_eq!(n, Note::Vanished);
    assert_eq!(a, Action::CheckExists { delay_ms: 100 });
}
