//! The watch controller: a state machine that waits for a file written by
//! another process, decides when the write is complete, has it converted and
//! then deleted. The caller performs each action and reports what happened.
use vstd::prelude::*;

verus! {

/// Pause between two existence checks while waiting for the file.
pub const EXISTENCE_POLL_MS: u64 = 100;

/// Pause between two size readings while the file settles.
pub const SIZE_POLL_MS: u64 = 200;

/// Pause after the file has settled, before it is checked once more.
pub const GRACE_MS: u64 = 500;

/// Size readings after which the file is taken as settled in any case.
pub const MAX_SIZE_POLLS: u32 = 20;

/// Consecutive unchanged, non-zero sizes that show the write is complete.
pub const STABLE_POLLS: u32 = 3;

/// Where the controller stands.
#[derive(PartialEq, Eq, Structural, Clone, Copy, Debug)]
pub enum Phase {
    /// Waiting for the file to appear.
    Waiting,
    /// Reading the file's size until it stops changing.
    Settling { last_size: u64, stable: u32, polls: u32 },
    /// Waiting a last time before checking that the file is still there.
    Grace,
    /// The file is being converted.
    Converting,
    /// The converted file is being deleted.
    Deleting,
}

/// What the caller does next.
#[derive(PartialEq, Eq, Structural, Clone, Copy, Debug)]
pub enum Action {
    /// Sleep `delay_ms`, then report whether the file exists.
    CheckExists { delay_ms: u64 },
    /// Sleep `delay_ms`, then report the file's size, or that it is gone.
    ReadSize { delay_ms: u64 },
    /// Convert the file and report whether that succeeded.
    Convert,
    /// Delete the file and report whether that succeeded.
    Delete,
}

/// What the caller observed while performing an action.
#[derive(PartialEq, Eq, Structural, Clone, Copy, Debug)]
pub enum Event {
    Exists(bool),
    Size(Option<u64>),
    Converted(bool),
    Deleted(bool),
}

/// What a step tells the user.
#[derive(PartialEq, Eq, Structural, Clone, Copy, Debug)]
pub enum Note {
    /// Nothing worth telling.
    Quiet,
    /// The file appeared; its size is being watched.
    Detected,
    /// The size stayed the same long enough.
    Stable,
    /// The size never settled; the file is taken anyway.
    Unsettled,
    /// The file disappeared before it could be converted.
    Vanished,
    /// The conversion succeeded.
    Converted,
    /// The conversion failed; the file stays for another attempt.
    ConversionFailed,
    /// The converted file was deleted.
    Deleted,
    /// The converted file could not be deleted; the conversion still counts.
    DeleteFailed,
}

/// The phase in which the size readings start.
pub open spec fn fresh_settling() -> Phase {
    Phase::Settling { last_size: 0, stable: 0, polls: 0 }
}

/// The action that a phase waits on.
pub open spec fn pending(p: Phase) -> Action {
    match p {
        Phase::Waiting => Action::CheckExists { delay_ms: EXISTENCE_POLL_MS },
        Phase::Settling { .. } => Action::ReadSize { delay_ms: SIZE_POLL_MS },
        Phase::Grace => Action::CheckExists { delay_ms: GRACE_MS },
        Phase::Converting => Action::Convert,
        Phase::Deleting => Action::Delete,
    }
}

/// Back to waiting for the file.
pub open spec fn rewait(note: Note) -> (Phase, Action, Note) {
    (Phase::Waiting, pending(Phase::Waiting), note)
}

/// One size reading while settling: an unchanged non-zero size extends the
/// run of stable readings, any other resets it and becomes the last size.
pub open spec fn settle(last_size: u64, stable: u32, polls: u32, size: u64) -> (
    Phase,
    Action,
    Note,
) {
    let polls2 = polls + 1;
    let stable2 = if size == last_size && size > 0 {
        stable + 1
    } else {
        0
    };
    if stable2 >= STABLE_POLLS {
        (Phase::Grace, pending(Phase::Grace), Note::Stable)
    } else if polls2 >= MAX_SIZE_POLLS {
        (Phase::Grace, pending(Phase::Grace), Note::Unsettled)
    } else {
        let p = Phase::Settling { last_size: size, stable: stable2 as u32, polls: polls2 as u32 };
        (p, pending(p), Note::Quiet)
    }
}

/// The next phase, the action to perform and the note, after event `e` in
/// phase `p`. An event that the phase does not wait on changes nothing.
pub open spec fn next(p: Phase, e: Event) -> (Phase, Action, Note) {
    match (p, e) {
        (Phase::Waiting, Event::Exists(true)) => (
            fresh_settling(),
            pending(fresh_settling()),
            Note::Detected,
        ),
        (Phase::Waiting, Event::Exists(false)) => rewait(Note::Quiet),
        (Phase::Settling { .. }, Event::Size(None)) => rewait(Note::Vanished),
        (Phase::Settling { last_size, stable, polls }, Event::Size(Some(size))) => settle(
            last_size,
            stable,
            polls,
            size,
        ),
        (Phase::Grace, Event::Exists(true)) => (
            Phase::Converting,
            pending(Phase::Converting),
            Note::Quiet,
        ),
        (Phase::Grace, Event::Exists(false)) => rewait(Note::Vanished),
        (Phase::Converting, Event::Converted(true)) => (
            Phase::Deleting,
            pending(Phase::Deleting),
            Note::Converted,
        ),
        (Phase::Converting, Event::Converted(false)) => rewait(Note::ConversionFailed),
        (Phase::Deleting, Event::Deleted(true)) => rewait(Note::Deleted),
        (Phase::Deleting, Event::Deleted(false)) => rewait(Note::DeleteFailed),
        _ => (p, pending(p), Note::Quiet),
    }
}

/// Whether a phase is well formed: a settling run never reaches its limits.
pub open spec fn phase_ok(p: Phase) -> bool {
    match p {
        Phase::Settling { stable, polls, .. } => stable < STABLE_POLLS && polls < MAX_SIZE_POLLS,
        _ => true,
    }
}

/// The phase, action and note after the size readings `sizes`, starting
/// from phase `p`.
pub open spec fn after_sizes(p: Phase, sizes: Seq<u64>) -> (Phase, Action, Note)
    decreases sizes.len(),
{
    if sizes.len() == 0 {
        (p, pending(p), Note::Quiet)
    } else {
        next(after_sizes(p, sizes.drop_last()).0, Event::Size(Some(sizes.last())))
    }
}

/// A size that changes at every reading never counts as stable: the first
/// readings keep the file settling, and the last of the allowed readings
/// accepts it only as unsettled.
pub proof fn lemma_changing_size_never_stable(sizes: Seq<u64>)
    requires
        sizes.len() == MAX_SIZE_POLLS,
        forall|k: int| 1 <= k < sizes.len() ==> #[trigger] sizes[k] != sizes[k - 1],
    ensures
        forall|k: int|
            1 <= k < sizes.len() ==> after_sizes(fresh_settling(), #[trigger] sizes.take(k)).0
                == (Phase::Settling { last_size: sizes[k - 1], stable: 0, polls: k as u32 }),
        forall|k: int|
            1 <= k <= sizes.len() ==> after_sizes(fresh_settling(), #[trigger] sizes.take(k)).2
                != Note::Stable,
        after_sizes(fresh_settling(), sizes) == (
            Phase::Grace,
            Action::CheckExists { delay_ms: GRACE_MS },
            Note::Unsettled,
        ),
{
    assert forall|k: int| 1 <= k <= sizes.len() implies {
        let r = after_sizes(fresh_settling(), #[trigger] sizes.take(k));
        &&& r.2 != Note::Stable
        &&& k < sizes.len() ==> r.0 == (Phase::Settling {
            last_size: sizes[k - 1],
            stable: 0,
            polls: k as u32,
        })
        &&& k == sizes.len() ==> r == (
            Phase::Grace,
            Action::CheckExists { delay_ms: GRACE_MS },
            Note::Unsettled,
        )
    } by {
        lemma_changing_prefix(sizes, k);
    }
    assert(sizes.take(sizes.len() as int) =~= sizes);
}

proof fn lemma_changing_prefix(sizes: Seq<u64>, k: int)
    requires
        sizes.len() == MAX_SIZE_POLLS,
        forall|j: int| 1 <= j < sizes.len() ==> #[trigger] sizes[j] != sizes[j - 1],
        1 <= k <= sizes.len(),
    ensures
        k < sizes.len() ==> after_sizes(fresh_settling(), sizes.take(k)) == (
            Phase::Settling { last_size: sizes[k - 1], stable: 0, polls: k as u32 },
            Action::ReadSize { delay_ms: SIZE_POLL_MS },
            Note::Quiet,
        ),
        k == sizes.len() ==> after_sizes(fresh_settling(), sizes.take(k)) == (
            Phase::Grace,
            Action::CheckExists { delay_ms: GRACE_MS },
            Note::Unsettled,
        ),
    decreases k,
{
    assert(sizes.take(k).drop_last() =~= sizes.take(k - 1));
    if k > 1 {
        lemma_changing_prefix(sizes, k - 1);
    } else {
        assert(sizes.take(0).len() == 0);
    }
}

/// A size that stays the same and non-zero settles at the fourth reading:
/// the first reading records it, the next three find it unchanged.
pub proof fn lemma_steady_size_settles(size: u64)
    requires
        size > 0,
    ensures
        after_sizes(fresh_settling(), seq![size]).0 == (Phase::Settling {
            last_size: size,
            stable: 0,
            polls: 1,
        }),
        after_sizes(fresh_settling(), seq![size, size]).0 == (Phase::Settling {
            last_size: size,
            stable: 1,
            polls: 2,
        }),
        after_sizes(fresh_settling(), seq![size, size, size]).0 == (Phase::Settling {
            last_size: size,
            stable: 2,
            polls: 3,
        }),
        after_sizes(fresh_settling(), seq![size, size, size, size]) == (
            Phase::Grace,
            Action::CheckExists { delay_ms: GRACE_MS },
            Note::Stable,
        ),
{
    let f = fresh_settling();
    assert(seq![size].drop_last() =~= Seq::<u64>::empty());
    assert(after_sizes(f, Seq::<u64>::empty()).0 == f);
    assert(seq![size].last() == size);
    assert(next(f, Event::Size(Some(size))) == settle(0, 0, 0, size));
    assert(settle(0, 0, 0, size).0 == (Phase::Settling { last_size: size, stable: 0, polls: 1 }));
    assert(after_sizes(f, seq![size]).0 == (Phase::Settling {
        last_size: size,
        stable: 0,
        polls: 1,
    }));
    assert(seq![size, size].drop_last() =~= seq![size]);
    assert(after_sizes(f, seq![size, size]).0 == (Phase::Settling {
        last_size: size,
        stable: 1,
        polls: 2,
    }));
    assert(seq![size, size, size].drop_last() =~= seq![size, size]);
    assert(after_sizes(f, seq![size, size, size]).0 == (Phase::Settling {
        last_size: size,
        stable: 2,
        polls: 3,
    }));
    assert(seq![size, size, size, size].drop_last() =~= seq![size, size, size]);
}

/// A failed deletion after a successful conversion is only a warning: the
/// conversion is announced when it succeeds, and no event while deleting
/// announces it as failed.
pub proof fn lemma_delete_failure_is_warning(e: Event)
    ensures
        next(Phase::Converting, Event::Converted(true)).2 == Note::Converted,
        next(Phase::Converting, Event::Converted(true)).0 == Phase::Deleting,
        next(Phase::Deleting, Event::Deleted(false)) == rewait(Note::DeleteFailed),
        next(Phase::Deleting, e).2 != Note::ConversionFailed,
{
}

/// The controller of one watch session.
pub struct Watcher {
    pub phase: Phase,
}

impl Watcher {
    pub open spec fn wf(&self) -> bool {
        phase_ok(self.phase)
    }

    /// A controller at launch and its first action: an immediate existence
    /// check, so that a file already present is watched before it is used.
    pub fn new() -> (r: (Watcher, Action))
        ensures
            r.0.phase == Phase::Waiting,
            r.0.wf(),
            r.1 == (Action::CheckExists { delay_ms: 0 }),
    {
        (Watcher { phase: Phase::Waiting }, Action::CheckExists { delay_ms: 0 })
    }

    /// Takes the outcome of the last action and returns the next action,
    /// with what to tell the user.
    pub fn step(&mut self, e: Event) -> (r: (Action, Note))
        requires
            old(self).wf(),
        ensures
            final(self).wf(),
            (final(self).phase, r.0, r.1) == next(old(self).phase, e),
    {
        let (p, a, n) = match (self.phase, e) {
            (Phase::Waiting, Event::Exists(true)) => {
                let p = Phase::Settling { last_size: 0, stable: 0, polls: 0 };
                (p, Action::ReadSize { delay_ms: SIZE_POLL_MS }, Note::Detected)
            },
            (Phase::Waiting, Event::Exists(false)) => (
                Phase::Waiting,
                Action::CheckExists { delay_ms: EXISTENCE_POLL_MS },
                Note::Quiet,
            ),
            (Phase::Settling { .. }, Event::Size(None)) => (
                Phase::Waiting,
                Action::CheckExists { delay_ms: EXISTENCE_POLL_MS },
                Note::Vanished,
            ),
            (Phase::Settling { last_size, stable, polls }, Event::Size(Some(size))) => {
                let polls2 = polls + 1;
                let stable2 = if size == last_size && size > 0 {
                    stable + 1
                } else {
                    0
                };
                if stable2 >= STABLE_POLLS {
                    (Phase::Grace, Action::CheckExists { delay_ms: GRACE_MS }, Note::Stable)
                } else if polls2 >= MAX_SIZE_POLLS {
                    (Phase::Grace, Action::CheckExists { delay_ms: GRACE_MS }, Note::Unsettled)
                } else {
                    (
                        Phase::Settling { last_size: size, stable: stable2, polls: polls2 },
                        Action::ReadSize { delay_ms: SIZE_POLL_MS },
                        Note::Quiet,
                    )
                }
            },
            (Phase::Grace, Event::Exists(true)) => (Phase::Converting, Action::Convert, Note::Quiet),
            (Phase::Grace, Event::Exists(false)) => (
                Phase::Waiting,
                Action::CheckExists { delay_ms: EXISTENCE_POLL_MS },
                Note::Vanished,
            ),
            (Phase::Converting, Event::Converted(true)) => (
                Phase::Deleting,
                Action::Delete,
                Note::Converted,
            ),
            (Phase::Converting, Event::Converted(false)) => (
                Phase::Waiting,
                Action::CheckExists { delay_ms: EXISTENCE_POLL_MS },
                Note::ConversionFailed,
            ),
            (Phase::Deleting, Event::Deleted(ok)) => (
                Phase::Waiting,
                Action::CheckExists { delay_ms: EXISTENCE_POLL_MS },
                if ok {
                    Note::Deleted
                } else {
                    Note::DeleteFailed
                },
            ),
            (p, _) => (p, Self::waits_on(p), Note::Quiet),
        };
        self.phase = p;
        (a, n)
    }

    fn waits_on(p: Phase) -> (r: Action)
        ensures
            r == pending(p),
    {
        match p {
            Phase::Waiting => Action::CheckExists { delay_ms: EXISTENCE_POLL_MS },
            Phase::Settling { .. } => Action::ReadSize { delay_ms: SIZE_POLL_MS },
            Phase::Grace => Action::CheckExists { delay_ms: GRACE_MS },
            Phase::Converting => Action::Convert,
            Phase::Deleting => Action::Delete,
        }
    }
}

} // verus!
