//! How committed WAL envelopes enter reconstruction: each record kind goes
//! to the assembler, to the evidence kept beside it, or to the issues.
use vstd::prelude::*;
use crate::assembler::{copy_loss_window, event_pushed, ReconstructionAssembler, ReconstructionInput, AssemblerView};
use crate::etl::{issue_view, issues_view, record_issue, EtlError, EtlIssue, EtlIssueKind, SequencedEvidence};
use crate::ordering::EventView;
use crate::session::{LossWindowObserved, ReconstructionInputError, TerminalPersistenceLoss};
use crate::text::{decimal_chars, decimal_string, str_copy};
use crate::streams::{payload_pushed, evidence_cached, CaptureEvent, CaptureEventKind, SessionAssembler, SessionAssemblerView, CAPTURE_EVENT_SCHEMA_VERSION};
use crate::session::SessionError;

verus! {

/// An envelope's payload, decoded by its record kind.
pub enum DecodedEnvelope {
    /// A capture event: its monotonic sequence, when it has one, and the
    /// reconstruction input it becomes, or why it cannot; or why it could
    /// not be decoded.
    CaptureEvent(Result<(Option<u64>, Result<ReconstructionInput, ReconstructionInputError>), String>),
    /// A loss-window record: the window, `None` when the payload decoded to
    /// another kind of event; or why it could not be decoded.
    LossWindow(Result<Option<LossWindowObserved>, String>),
    /// A terminal WAL loss record, or why it could not be decoded.
    TerminalWalLoss(Result<TerminalPersistenceLoss, String>),
    /// A commit marker: whether its schema and payload are valid.
    CommitMarker(bool),
}

/// A committed WAL envelope: its sequence, the first sequence of the
/// segment it was placed in (when known), and its decoded payload.
pub struct WalEnvelope {
    pub sequence: u64,
    pub segment_first_sequence: Option<u64>,
    pub decoded: DecodedEnvelope,
}

/// Evidence kept beside reconstruction: loss windows and terminal WAL
/// losses with their WAL sequences, and the sequences of commit markers.
pub struct EtlEvidence {
    pub loss_windows: Vec<SequencedEvidence<LossWindowObserved>>,
    pub terminal_wal_losses: Vec<SequencedEvidence<TerminalPersistenceLoss>>,
    pub commit_marker_sequences: Vec<u64>,
}

/// The message of a capture event whose sequence disagrees with its WAL
/// sequence.
pub open spec fn sequence_mismatch_message(capture: u64, wal: u64) -> Seq<char> {
    "capture sequence "@ + decimal_chars(capture as nat) + " does not match WAL sequence "@ + decimal_chars(wal as nat)
}

/// The message of a reconstruction input error.
pub open spec fn input_error_message(e: ReconstructionInputError) -> Seq<char> {
    match e {
        ReconstructionInputError::UnsupportedCaptureSchema(v) =>
            "capture event schema "@ + decimal_chars(v as nat) + " cannot enter reconstruction input"@,
    }
}

pub open spec fn missing_loss_window_message() -> Seq<char> {
    "LossWindow envelope did not contain a v2 loss window"@
}

pub open spec fn invalid_commit_marker_message() -> Seq<char> {
    "invalid commit-marker schema or payload"@
}

/// What an envelope records as an issue, if it is one.
pub open spec fn envelope_issue(e: WalEnvelope) -> Option<(EtlIssueKind, Seq<char>)> {
    match e.decoded {
        DecodedEnvelope::CaptureEvent(Err(m)) => Some((EtlIssueKind::MalformedCaptureEvent, m@)),
        DecodedEnvelope::CaptureEvent(Ok((Some(c), _))) if c != e.sequence =>
            Some((EtlIssueKind::CaptureSequenceMismatch, sequence_mismatch_message(c, e.sequence))),
        DecodedEnvelope::CaptureEvent(Ok((_, Err(x)))) => Some((EtlIssueKind::MalformedCaptureEvent, input_error_message(x))),
        DecodedEnvelope::CaptureEvent(Ok((_, Ok(_)))) => None,
        DecodedEnvelope::LossWindow(Err(m)) => Some((EtlIssueKind::MalformedLossWindow, m@)),
        DecodedEnvelope::LossWindow(Ok(None)) => Some((EtlIssueKind::MalformedLossWindow, missing_loss_window_message())),
        DecodedEnvelope::LossWindow(Ok(Some(_))) => None,
        DecodedEnvelope::TerminalWalLoss(Err(m)) => Some((EtlIssueKind::MalformedTerminalWalLoss, m@)),
        DecodedEnvelope::TerminalWalLoss(Ok(_)) => None,
        DecodedEnvelope::CommitMarker(valid) => if valid { None } else {
            Some((EtlIssueKind::MalformedCommitMarker, invalid_commit_marker_message()))
        },
    }
}

/// The event a capture input carries, placed at WAL sequence `sequence`.
pub open spec fn placed(e: EventView, sequence: u64) -> EventView {
    EventView { wal_sequence: Some(sequence), ..e }
}

fn input_error_text(e: ReconstructionInputError) -> (s: String)
    ensures
        s@ == input_error_message(e),
{
    match e {
        ReconstructionInputError::UnsupportedCaptureSchema(v) => {
            let mut s = str_copy("capture event schema ");
            s.append(decimal_string(v as u64).as_str());
            s.append(" cannot enter reconstruction input");
            s
        },
    }
}

fn mismatch_text(capture: u64, wal: u64) -> (s: String)
    ensures
        s@ == sequence_mismatch_message(capture, wal),
{
    let mut s = str_copy("capture sequence ");
    s.append(decimal_string(capture).as_str());
    s.append(" does not match WAL sequence ");
    s.append(decimal_string(wal).as_str());
    s
}

/// What routing one envelope does to the assembler's state and the issues
/// (`a0`, `i0` before; `a1`, `i1` after), and what it returns.
pub open spec fn ingest_effect(
    envelope: WalEnvelope,
    a0: AssemblerView,
    i0: Seq<(Option<u64>, EtlIssueKind, Seq<char>)>,
    max_issues: usize,
    a1: AssemblerView,
    i1: Seq<(Option<u64>, EtlIssueKind, Seq<char>)>,
    r: Result<(), EtlError>,
) -> bool {
    match envelope_issue(envelope) {
        Some((kind, message)) => {
            &&& a1 == a0
            &&& if i0.len() >= max_issues {
                r == Err::<(), EtlError>(EtlError::IssueLimit { limit: max_issues }) && i1 == i0
            } else {
                r is Ok && i1 == i0.push((Some(envelope.sequence), kind, message))
            }
        },
        None => {
            &&& i1 == i0
            &&& match envelope.decoded {
                DecodedEnvelope::CaptureEvent(Ok((_, Ok(input)))) => match input {
                    ReconstructionInput::Event(e) => {
                        let (next, pushed) = event_pushed(a0, placed(e@, envelope.sequence));
                        &&& a1 == next
                        &&& pushed is Ok ==> r is Ok
                        &&& pushed matches Err(p) ==> r == Err::<(), EtlError>(EtlError::Reconstruction(p))
                    },
                    ReconstructionInput::LossWindow(w) => r is Ok
                        && a1 == (AssemblerView { loss_windows: a0.loss_windows.push(w), ..a0 }),
                    ReconstructionInput::TerminalWalLoss(l) => r is Ok
                        && a1 == (AssemblerView { terminal_wal_losses: a0.terminal_wal_losses.push(l), ..a0 }),
                },
                DecodedEnvelope::LossWindow(Ok(Some(w))) => {
                    &&& r is Ok
                    &&& a1.limits == a0.limits
                    &&& a1.active == a0.active
                    &&& a1.finalized == a0.finalized
                    &&& a1.terminal_wal_losses == a0.terminal_wal_losses
                    &&& a1.loss_windows.len() == a0.loss_windows.len() + 1
                    &&& a1.loss_windows.drop_last() =~= a0.loss_windows
                    &&& a1.loss_windows.last()@ == w@
                },
                DecodedEnvelope::TerminalWalLoss(Ok(l)) => {
                    &&& r is Ok
                    &&& a1.limits == a0.limits
                    &&& a1.active == a0.active
                    &&& a1.finalized == a0.finalized
                    &&& a1.loss_windows == a0.loss_windows
                    &&& a1.terminal_wal_losses.len() == a0.terminal_wal_losses.len() + 1
                    &&& a1.terminal_wal_losses.drop_last() =~= a0.terminal_wal_losses
                    &&& a1.terminal_wal_losses.last()@ == l@
                },
                _ => r is Ok && a1 == a0,
            }
        },
    }
}

/// Routing `envs` one by one, each succeeding, takes the assembler's state
/// and the issues from `a0`, `i0` to `a1`, `i1`.
pub open spec fn ingested(
    envs: Seq<WalEnvelope>,
    a0: AssemblerView,
    i0: Seq<(Option<u64>, EtlIssueKind, Seq<char>)>,
    max_issues: usize,
    a1: AssemblerView,
    i1: Seq<(Option<u64>, EtlIssueKind, Seq<char>)>,
) -> bool
    decreases envs.len(),
{
    if envs.len() == 0 {
        a1 == a0 && i1 == i0
    } else {
        exists|am: AssemblerView, im: Seq<(Option<u64>, EtlIssueKind, Seq<char>)>|
            ingested(envs.drop_last(), a0, i0, max_issues, am, im)
            && #[trigger] ingest_effect(envs.last(), am, im, max_issues, a1, i1, Ok(()))
    }
}

/// The error routing one envelope returns from state `a0` with issues
/// `i0`, if it fails: the issue bound when the envelope must be recorded as
/// an issue and the bound is reached, or the assembler's refusal of a
/// capture event.
pub open spec fn ingest_error(
    envelope: WalEnvelope,
    a0: AssemblerView,
    i0: Seq<(Option<u64>, EtlIssueKind, Seq<char>)>,
    max_issues: usize,
) -> Option<EtlError> {
    match envelope_issue(envelope) {
        Some(_) => if i0.len() >= max_issues { Some(EtlError::IssueLimit { limit: max_issues }) } else { None },
        None => match envelope.decoded {
            DecodedEnvelope::CaptureEvent(Ok((_, Ok(ReconstructionInput::Event(e))))) =>
                match event_pushed(a0, placed(e@, envelope.sequence)).1 {
                    Err(p) => Some(EtlError::Reconstruction(p)),
                    Ok(_) => None,
                },
            _ => None,
        },
    }
}

/// Routing fails exactly with `ingest_error`.
pub proof fn lemma_ingest_error(
    envelope: WalEnvelope,
    a0: AssemblerView,
    i0: Seq<(Option<u64>, EtlIssueKind, Seq<char>)>,
    max_issues: usize,
    a1: AssemblerView,
    i1: Seq<(Option<u64>, EtlIssueKind, Seq<char>)>,
    r: Result<(), EtlError>,
)
    requires
        ingest_effect(envelope, a0, i0, max_issues, a1, i1, r),
    ensures
        match ingest_error(envelope, a0, i0, max_issues) {
            Some(e) => r == Err::<(), EtlError>(e),
            None => r is Ok,
        },
{
}

/// One more successful step extends a run of routed envelopes.
pub proof fn lemma_ingested_step(
    envs: Seq<WalEnvelope>,
    a0: AssemblerView,
    i0: Seq<(Option<u64>, EtlIssueKind, Seq<char>)>,
    max_issues: usize,
    am: AssemblerView,
    im: Seq<(Option<u64>, EtlIssueKind, Seq<char>)>,
    a1: AssemblerView,
    i1: Seq<(Option<u64>, EtlIssueKind, Seq<char>)>,
)
    requires
        envs.len() > 0,
        ingested(envs.drop_last(), a0, i0, max_issues, am, im),
        ingest_effect(envs.last(), am, im, max_issues, a1, i1, Ok(())),
    ensures
        ingested(envs, a0, i0, max_issues, a1, i1),
{
}

/// Routes one committed envelope: an issue is recorded (see
/// `envelope_issue`), or a capture input enters the assembler at the
/// envelope's WAL sequence, or a loss window or terminal WAL loss enters
/// both the assembler and the evidence, or a commit marker's sequence is
/// kept.
pub fn ingest_reconstructed_envelope(
    envelope: WalEnvelope,
    assembler: &mut ReconstructionAssembler,
    evidence: &mut EtlEvidence,
    issues: &mut Vec<EtlIssue>,
    max_issues: usize,
) -> (r: Result<(), EtlError>)
    requires
        old(assembler).wf(),
    ensures
        final(assembler).wf(),
        ingest_effect(envelope, old(assembler)@, issues_view(old(issues)@), max_issues, final(assembler)@,
            issues_view(final(issues)@), r),
        match envelope_issue(envelope) {
            Some((kind, message)) => {
                &&& final(assembler)@ == old(assembler)@
                &&& final(evidence).loss_windows@ == old(evidence).loss_windows@
                &&& final(evidence).terminal_wal_losses@ == old(evidence).terminal_wal_losses@
                &&& final(evidence).commit_marker_sequences@ == old(evidence).commit_marker_sequences@
                &&& if old(issues)@.len() >= max_issues {
                    r == Err::<(), EtlError>(EtlError::IssueLimit { limit: max_issues }) && final(issues)@ == old(issues)@
                } else {
                    r is Ok && issues_view(final(issues)@) == issues_view(old(issues)@).push((Some(envelope.sequence), kind, message))
                }
            },
            None => {
                &&& final(issues)@ == old(issues)@
                &&& match envelope.decoded {
                    DecodedEnvelope::CaptureEvent(Ok((_, Ok(input)))) => {
                        &&& final(evidence).loss_windows@ == old(evidence).loss_windows@
                        &&& final(evidence).terminal_wal_losses@ == old(evidence).terminal_wal_losses@
                        &&& final(evidence).commit_marker_sequences@ == old(evidence).commit_marker_sequences@
                        &&& match input {
                            ReconstructionInput::Event(e) => {
                                let (next, pushed) = event_pushed(old(assembler)@, placed(e@, envelope.sequence));
                                &&& final(assembler)@ == next
                                &&& pushed is Ok ==> r is Ok
                                &&& pushed matches Err(p) ==> r == Err::<(), EtlError>(EtlError::Reconstruction(p))
                            },
                            ReconstructionInput::LossWindow(w) => r is Ok
                                && final(assembler)@ == (AssemblerView { loss_windows: old(assembler)@.loss_windows.push(w), ..old(assembler)@ }),
                            ReconstructionInput::TerminalWalLoss(l) => r is Ok
                                && final(assembler)@ == (AssemblerView { terminal_wal_losses: old(assembler)@.terminal_wal_losses.push(l), ..old(assembler)@ }),
                        }
                    },
                    DecodedEnvelope::LossWindow(Ok(Some(w))) => {
                        &&& r is Ok
                        &&& final(assembler)@.limits == old(assembler)@.limits
                        &&& final(assembler)@.active == old(assembler)@.active
                        &&& final(assembler)@.finalized == old(assembler)@.finalized
                        &&& final(assembler)@.terminal_wal_losses == old(assembler)@.terminal_wal_losses
                        &&& final(assembler)@.loss_windows.len() == old(assembler)@.loss_windows.len() + 1
                        &&& final(assembler)@.loss_windows.drop_last() == old(assembler)@.loss_windows
                        &&& final(assembler)@.loss_windows.last()@ == w@
                        &&& final(evidence).loss_windows@ == old(evidence).loss_windows@.push(SequencedEvidence { sequence: Some(envelope.sequence), value: w })
                        &&& final(evidence).terminal_wal_losses@ == old(evidence).terminal_wal_losses@
                        &&& final(evidence).commit_marker_sequences@ == old(evidence).commit_marker_sequences@
                    },
                    DecodedEnvelope::TerminalWalLoss(Ok(l)) => {
                        &&& r is Ok
                        &&& final(assembler)@.limits == old(assembler)@.limits
                        &&& final(assembler)@.active == old(assembler)@.active
                        &&& final(assembler)@.finalized == old(assembler)@.finalized
                        &&& final(assembler)@.loss_windows == old(assembler)@.loss_windows
                        &&& final(assembler)@.terminal_wal_losses.len() == old(assembler)@.terminal_wal_losses.len() + 1
                        &&& final(assembler)@.terminal_wal_losses.drop_last() == old(assembler)@.terminal_wal_losses
                        &&& final(assembler)@.terminal_wal_losses.last()@ == l@
                        &&& final(evidence).terminal_wal_losses@ == old(evidence).terminal_wal_losses@.push(SequencedEvidence { sequence: Some(envelope.sequence), value: l })
                        &&& final(evidence).loss_windows@ == old(evidence).loss_windows@
                        &&& final(evidence).commit_marker_sequences@ == old(evidence).commit_marker_sequences@
                    },
                    _ => {
                        &&& r is Ok
                        &&& final(assembler)@ == old(assembler)@
                        &&& final(evidence).loss_windows@ == old(evidence).loss_windows@
                        &&& final(evidence).terminal_wal_losses@ == old(evidence).terminal_wal_losses@
                        &&& final(evidence).commit_marker_sequences@ == old(evidence).commit_marker_sequences@.push(envelope.sequence)
                    },
                }
            },
        },
{
    let sequence = envelope.sequence;
    let (kind, message) = match envelope.decoded {
        DecodedEnvelope::CaptureEvent(Err(m)) => (EtlIssueKind::MalformedCaptureEvent, m),
        DecodedEnvelope::CaptureEvent(Ok((monotonic, input))) => {
            match monotonic {
                Some(c) => if c != sequence {
                    let issue = EtlIssue { sequence: Some(sequence), kind: EtlIssueKind::CaptureSequenceMismatch, message: mismatch_text(c, sequence) };
                    let ghost before = issues@;
                    let r = record_issue(issues, max_issues, issue);
                    proof {
                        if before.len() < max_issues {
                            assert(issues_view(issues@) =~= issues_view(before).push(issue_view(issue)));
                        }
                    }
                    return r;
                },
                None => {},
            }
            match input {
                Err(x) => (EtlIssueKind::MalformedCaptureEvent, input_error_text(x)),
                Ok(ReconstructionInput::Event(mut event)) => {
                    event.wal_sequence = Some(sequence);
                    return match assembler.push(ReconstructionInput::Event(event)) {
                        Ok(()) => Ok(()),
                        Err(p) => Err(EtlError::Reconstruction(p)),
                    };
                },
                Ok(other) => {
                    let _ = assembler.push(other);
                    return Ok(());
                },
            }
        },
        DecodedEnvelope::LossWindow(Err(m)) => (EtlIssueKind::MalformedLossWindow, m),
        DecodedEnvelope::LossWindow(Ok(None)) =>
            (EtlIssueKind::MalformedLossWindow, str_copy("LossWindow envelope did not contain a v2 loss window")),
        DecodedEnvelope::LossWindow(Ok(Some(window))) => {
            let copy = copy_loss_window(&window);
            let _ = assembler.push(ReconstructionInput::LossWindow(copy));
            evidence.loss_windows.push(SequencedEvidence { sequence: Some(sequence), value: window });
            return Ok(());
        },
        DecodedEnvelope::TerminalWalLoss(Err(m)) => (EtlIssueKind::MalformedTerminalWalLoss, m),
        DecodedEnvelope::TerminalWalLoss(Ok(loss)) => {
            let copy = crate::assembler::copy_terminal_loss(&loss);
            let _ = assembler.push(ReconstructionInput::TerminalWalLoss(copy));
            evidence.terminal_wal_losses.push(SequencedEvidence { sequence: Some(sequence), value: loss });
            return Ok(());
        },
        DecodedEnvelope::CommitMarker(valid) => {
            return ingest_commit_marker(sequence, valid, evidence, issues, max_issues);
        },
    };
    let issue = EtlIssue { sequence: Some(sequence), kind, message };
    let ghost before = issues@;
    let r = record_issue(issues, max_issues, issue);
    proof {
        if before.len() < max_issues {
            assert(issues_view(issues@) =~= issues_view(before).push(issue_view(issue)));
        }
    }
    r
}

/// A record of the capture-level WAL, decoded: the event's monotonic
/// sequence and the event, or why it could not be decoded.
pub type DecodedRecord = Result<(Option<u64>, CaptureEvent), String>;

/// The issue a capture record is, if it is one: an undecodable payload, or
/// an event whose sequence is not the WAL sequence.
pub open spec fn record_issue_of(sequence: u64, decoded: DecodedRecord) -> Option<(EtlIssueKind, Seq<char>)> {
    match decoded {
        Err(m) => Some((EtlIssueKind::MalformedCaptureEvent, m@)),
        Ok((monotonic, _)) => if monotonic == Some(sequence) {
            None
        } else {
            Some((EtlIssueKind::CaptureSequenceMismatch,
                sequence_mismatch_message(match monotonic { Some(c) => c, None => 0 }, sequence)))
        },
    }
}

/// What a capture event does to the capture-level assembler.
pub open spec fn event_applied(v: SessionAssemblerView, event: CaptureEvent) -> (SessionAssemblerView, Result<(), SessionError>) {
    if event.schema_version != CAPTURE_EVENT_SCHEMA_VERSION {
        (v, Err(SessionError::UnsupportedCaptureEvent { schema_version: event.schema_version }))
    } else {
        match event.kind {
            CaptureEventKind::SocketConnected(e) => evidence_cached(v, e@),
            CaptureEventKind::SocketClosedObserved(e) => evidence_cached(v, e@),
            CaptureEventKind::SocketResetObserved(e) => evidence_cached(v, e@),
            CaptureEventKind::SocketStateChangedObserved { socket, .. } => evidence_cached(v, socket@),
            CaptureEventKind::PayloadFragment(f) =>
                payload_pushed(v, f.socket@, f.timestamp.nanoseconds, f.direction, f.payload@, f.truncated, f.flags),
            _ => (v, Ok(())),
        }
    }
}

pub open spec fn issue_outcome(
    old_issues: Seq<EtlIssue>,
    new_issues: Seq<EtlIssue>,
    r: Result<(), EtlError>,
    max_issues: usize,
    sequence: u64,
    kind: EtlIssueKind,
    message: Seq<char>,
) -> bool {
    if old_issues.len() >= max_issues {
        r == Err::<(), EtlError>(EtlError::IssueLimit { limit: max_issues }) && new_issues == old_issues
    } else {
        r is Ok && issues_view(new_issues) == issues_view(old_issues).push((Some(sequence), kind, message))
    }
}

fn push_issue(issues: &mut Vec<EtlIssue>, max_issues: usize, sequence: u64, kind: EtlIssueKind, message: String) -> (r: Result<(), EtlError>)
    ensures
        issue_outcome(old(issues)@, final(issues)@, r, max_issues, sequence, kind, message@),
{
    let issue = EtlIssue { sequence: Some(sequence), kind, message };
    let ghost before = issues@;
    let r = record_issue(issues, max_issues, issue);
    proof {
        if before.len() < max_issues {
            assert(issues_view(issues@) =~= issues_view(before).push(issue_view(issue)));
        }
    }
    r
}

/// Feeds one capture record at WAL sequence `sequence` to the capture-level
/// assembler: an event whose sequence is its WAL sequence is pushed (a
/// refusal stops ingest); anything else is an issue.
pub fn ingest_record(
    sequence: u64,
    decoded: DecodedRecord,
    assembler: &mut SessionAssembler,
    issues: &mut Vec<EtlIssue>,
    max_issues: usize,
) -> (r: Result<(), EtlError>)
    requires
        old(assembler).wf(),
    ensures
        final(assembler).wf(),
        match record_issue_of(sequence, decoded) {
            Some((kind, message)) => final(assembler)@ == old(assembler)@
                && issue_outcome(old(issues)@, final(issues)@, r, max_issues, sequence, kind, message),
            None => final(issues)@ == old(issues)@ && match decoded {
                Ok((_, event)) => {
                    let (next, pushed) = event_applied(old(assembler)@, event);
                    &&& final(assembler)@ == next
                    &&& pushed is Ok ==> r is Ok
                    &&& pushed matches Err(e) ==> r == Err::<(), EtlError>(EtlError::Session(e))
                },
                Err(_) => false,
            },
        },
{
    match decoded {
        Err(m) => push_issue(issues, max_issues, sequence, EtlIssueKind::MalformedCaptureEvent, m),
        Ok((monotonic, event)) => {
            if monotonic == Some(sequence) {
                match assembler.push(event) {
                    Ok(()) => Ok(()),
                    Err(e) => Err(EtlError::Session(e)),
                }
            } else {
                let capture = match monotonic { Some(c) => c, None => 0 };
                push_issue(issues, max_issues, sequence, EtlIssueKind::CaptureSequenceMismatch, mismatch_text(capture, sequence))
            }
        },
    }
}

/// An envelope of the capture-level WAL, decoded by its record kind.
pub enum DecodedFixtureEnvelope {
    CaptureEvent(DecodedRecord),
    LossWindow(Result<Option<LossWindowObserved>, String>),
    TerminalWalLoss(Result<TerminalPersistenceLoss, String>),
    CommitMarker(bool),
}

pub struct FixtureEnvelope {
    pub sequence: u64,
    pub decoded: DecodedFixtureEnvelope,
}

/// What a non-capture envelope records as an issue, if it is one.
pub open spec fn evidence_issue(e: FixtureEnvelope) -> Option<(EtlIssueKind, Seq<char>)> {
    match e.decoded {
        DecodedFixtureEnvelope::LossWindow(Err(m)) => Some((EtlIssueKind::MalformedLossWindow, m@)),
        DecodedFixtureEnvelope::LossWindow(Ok(None)) => Some((EtlIssueKind::MalformedLossWindow, missing_loss_window_message())),
        DecodedFixtureEnvelope::TerminalWalLoss(Err(m)) => Some((EtlIssueKind::MalformedTerminalWalLoss, m@)),
        DecodedFixtureEnvelope::CommitMarker(false) => Some((EtlIssueKind::MalformedCommitMarker, invalid_commit_marker_message())),
        _ => None,
    }
}

/// Routes one envelope of the capture-level WAL: capture events go to the
/// assembler (see `ingest_record`); loss windows, terminal WAL losses and
/// commit markers go to the evidence, or are issues when malformed.
pub fn ingest_envelope(
    envelope: FixtureEnvelope,
    assembler: &mut SessionAssembler,
    evidence: &mut EtlEvidence,
    issues: &mut Vec<EtlIssue>,
    max_issues: usize,
) -> (r: Result<(), EtlError>)
    requires
        old(assembler).wf(),
    ensures
        final(assembler).wf(),
        match envelope.decoded {
            DecodedFixtureEnvelope::CaptureEvent(decoded) => match record_issue_of(envelope.sequence, decoded) {
                Some((kind, message)) => final(assembler)@ == old(assembler)@
                    && issue_outcome(old(issues)@, final(issues)@, r, max_issues, envelope.sequence, kind, message),
                None => final(issues)@ == old(issues)@ && match decoded {
                    Ok((_, event)) => {
                        let (next, pushed) = event_applied(old(assembler)@, event);
                        &&& final(assembler)@ == next
                        &&& pushed is Ok ==> r is Ok
                        &&& pushed matches Err(e) ==> r == Err::<(), EtlError>(EtlError::Session(e))
                    },
                    Err(_) => false,
                },
            },
            _ => final(assembler)@ == old(assembler)@,
        },
        (envelope.decoded is CaptureEvent) ==> {
            &&& final(evidence).loss_windows@ == old(evidence).loss_windows@
            &&& final(evidence).terminal_wal_losses@ == old(evidence).terminal_wal_losses@
            &&& final(evidence).commit_marker_sequences@ == old(evidence).commit_marker_sequences@
        },
        !(envelope.decoded is CaptureEvent) ==> match evidence_issue(envelope) {
            Some((kind, message)) => {
                &&& issue_outcome(old(issues)@, final(issues)@, r, max_issues, envelope.sequence, kind, message)
                &&& final(evidence).loss_windows@ == old(evidence).loss_windows@
                &&& final(evidence).terminal_wal_losses@ == old(evidence).terminal_wal_losses@
                &&& final(evidence).commit_marker_sequences@ == old(evidence).commit_marker_sequences@
            },
            None => r is Ok && final(issues)@ == old(issues)@ && match envelope.decoded {
                DecodedFixtureEnvelope::LossWindow(Ok(Some(w))) => {
                    &&& final(evidence).loss_windows@ == old(evidence).loss_windows@.push(SequencedEvidence { sequence: Some(envelope.sequence), value: w })
                    &&& final(evidence).terminal_wal_losses@ == old(evidence).terminal_wal_losses@
                    &&& final(evidence).commit_marker_sequences@ == old(evidence).commit_marker_sequences@
                },
                DecodedFixtureEnvelope::TerminalWalLoss(Ok(l)) => {
                    &&& final(evidence).terminal_wal_losses@ == old(evidence).terminal_wal_losses@.push(SequencedEvidence { sequence: Some(envelope.sequence), value: l })
                    &&& final(evidence).loss_windows@ == old(evidence).loss_windows@
                    &&& final(evidence).commit_marker_sequences@ == old(evidence).commit_marker_sequences@
                },
                _ => {
                    &&& final(evidence).commit_marker_sequences@ == old(evidence).commit_marker_sequences@.push(envelope.sequence)
                    &&& final(evidence).loss_windows@ == old(evidence).loss_windows@
                    &&& final(evidence).terminal_wal_losses@ == old(evidence).terminal_wal_losses@
                },
            },
        },
{
    let sequence = envelope.sequence;
    match envelope.decoded {
        DecodedFixtureEnvelope::CaptureEvent(decoded) => ingest_record(sequence, decoded, assembler, issues, max_issues),
        DecodedFixtureEnvelope::LossWindow(Err(m)) => push_issue(issues, max_issues, sequence, EtlIssueKind::MalformedLossWindow, m),
        DecodedFixtureEnvelope::LossWindow(Ok(None)) => push_issue(issues, max_issues, sequence, EtlIssueKind::MalformedLossWindow,
            str_copy("LossWindow envelope did not contain a v2 loss window")),
        DecodedFixtureEnvelope::LossWindow(Ok(Some(window))) => {
            evidence.loss_windows.push(SequencedEvidence { sequence: Some(sequence), value: window });
            Ok(())
        },
        DecodedFixtureEnvelope::TerminalWalLoss(Err(m)) => push_issue(issues, max_issues, sequence, EtlIssueKind::MalformedTerminalWalLoss, m),
        DecodedFixtureEnvelope::TerminalWalLoss(Ok(loss)) => {
            evidence.terminal_wal_losses.push(SequencedEvidence { sequence: Some(sequence), value: loss });
            Ok(())
        },
        DecodedFixtureEnvelope::CommitMarker(valid) => ingest_commit_marker(sequence, valid, evidence, issues, max_issues),
    }
}

/// Keeps the sequence of a valid commit marker as provenance; an invalid
/// one is an issue.
pub fn ingest_commit_marker(
    sequence: u64,
    valid: bool,
    evidence: &mut EtlEvidence,
    issues: &mut Vec<EtlIssue>,
    max_issues: usize,
) -> (r: Result<(), EtlError>)
    ensures
        final(evidence).loss_windows@ == old(evidence).loss_windows@,
        final(evidence).terminal_wal_losses@ == old(evidence).terminal_wal_losses@,
        valid ==> r is Ok && final(issues)@ == old(issues)@
            && final(evidence).commit_marker_sequences@ == old(evidence).commit_marker_sequences@.push(sequence),
        !valid ==> final(evidence).commit_marker_sequences@ == old(evidence).commit_marker_sequences@
            && issue_outcome(old(issues)@, final(issues)@, r, max_issues, sequence, EtlIssueKind::MalformedCommitMarker,
                invalid_commit_marker_message()),
{
    if valid {
        evidence.commit_marker_sequences.push(sequence);
        Ok(())
    } else {
        push_issue(issues, max_issues, sequence, EtlIssueKind::MalformedCommitMarker, str_copy("invalid commit-marker schema or payload"))
    }
}

} // verus!
