use chronicle::canonical::{
    CanonicalConnection, CanonicalOperation, CanonicalSession, Completeness, Endpoint, OperationEffect,
    OperationKind, PayloadRef, ProtocolData,
};
use chronicle::protocol::{TransportErrorCategory, VerificationResult, VerificationStatus};
use chronicle::replay::{
    origin_authority, IpAddress, LoopbackReplayOptions, LoopbackTarget, OperationEvent, OperationExecutionState,
    ReplayAction, ReplayDecision, ReplayDenial, ReplayOutcome, ReplayPlanner, ReplayPolicy, ReplayRun,
    ReplayTargetError, Replayability, SocketAddress, TargetMap, TargetRule, TimingMode,
};

fn operation(id: u128, sequence: u64, effect: OperationEffect) -> CanonicalOperation {
    CanonicalOperation {
        id,
        sequence,
        started_at_offset: 0,
        completed_at_offset: None,
        kind: OperationKind::Request,
        effect,
        request: PayloadRef::Missing { reason: "test".into() },
        recorded_response: Some(PayloadRef::Inline { content_type: None, bytes: Vec::new() }),
        attributes: Vec::new(),
        protocol_data: ProtocolData { schema_version: 1, media_type: None, bytes: Vec::new() },
        incomplete: false,
        truncated: false,
        redactions: Vec::new(),
        warnings: Vec::new(),
    }
}

fn session(effect: OperationEffect) -> CanonicalSession {
    CanonicalSession {
        id: 1,
        started_at: 0,
        ended_at: None,
        connections: vec![CanonicalConnection {
            id: 10,
            protocol: "fake".into(),
            client: Endpoint { host: "client".into(), port: 1 },
            server: Endpoint { host: "production".into(), port: 2 },
            attributes: Vec::new(),
            operations: vec![operation(100, 1, effect)],
        }],
        connection_completeness: vec![(10, Completeness::Complete)],
        operation_completeness: vec![(100, Completeness::Complete)],
        timeline: Vec::new(),
    }
}

fn rule_for(connection_id: u128, host: &str) -> TargetMap {
    TargetMap {
        rules: vec![TargetRule {
            protocol: None,
            host: None,
            port: None,
            connection_id: Some(connection_id),
            target: Endpoint { host: host.into(), port: 2 },
        }],
    }
}

#[test]
fn target_mapping_is_mandatory() {
    let plan = ReplayPlanner::plan(
        &session(OperationEffect::Read),
        &TargetMap { rules: Vec::new() },
        &ReplayPolicy::default(),
        TimingMode::Asap,
    )
    .unwrap();
    assert!(plan.operations()[0].target().is_none());
    assert_eq!(plan.operations()[0].decision(), ReplayDecision::Denied(ReplayDenial::MissingTarget));
}

#[test]
fn default_policy_denies_operations() {
    let session = session(OperationEffect::Write);
    let targets = rule_for(session.connections[0].id, "test");
    let plan = ReplayPlanner::plan(&session, &targets, &ReplayPolicy::default(), TimingMode::Asap).unwrap();
    assert_eq!(
        plan.operations()[0].decision(),
        ReplayDecision::Denied(ReplayDenial::EffectNotAllowed(OperationEffect::Write))
    );
}

#[test]
fn planner_constructs_read_only_plan_and_dry_run_cannot_execute() {
    let session = session(OperationEffect::Read);
    let targets = rule_for(session.connections[0].id, "test");
    let policy = ReplayPolicy { allow_reads: true, ..ReplayPolicy::default() };
    let plan = ReplayPlanner::plan(&session, &targets, &policy, TimingMode::Asap).unwrap();
    assert!(plan.is_dry_run());
    assert_eq!(plan.timing(), TimingMode::Asap);
    assert!(plan.is_executable());
    assert_eq!(plan.operations().len(), 1);
    assert_eq!(plan.operations()[0].target(), Some(&Endpoint { host: "test".into(), port: 2 }));
    let mut run = ReplayRun::start(&plan);
    assert_eq!(run.advance(&plan).unwrap(), ReplayAction::Finished);
    let results = run.finish();
    assert_eq!(results.outcome, ReplayOutcome::DryRun);
    assert_eq!(results.results.len(), 1);
    assert_eq!(results.results[0].state, OperationExecutionState::NotAttempted);
    assert_eq!(results.results[0].verification.as_ref().unwrap().status, VerificationStatus::Skipped);
}

#[test]
fn replay_contract_enums_have_stable_names() {
    for (value, expected) in [
        (ReplayOutcome::Completed, "completed"),
        (ReplayOutcome::CompletedWithSkips, "completed_with_skips"),
        (ReplayOutcome::DryRun, "dry_run"),
        (ReplayOutcome::StoppedPolicy, "stopped_policy"),
        (ReplayOutcome::StoppedInvalidSession, "stopped_invalid_session"),
        (ReplayOutcome::StoppedTransport, "stopped_transport"),
        (ReplayOutcome::StoppedVerification, "stopped_verification"),
    ] {
        assert_eq!(value.as_str(), expected);
    }
    assert_eq!(OperationExecutionState::NotAttempted.as_str(), "not_attempted");
    assert_eq!(OperationExecutionState::Completed.as_str(), "completed");
    assert_eq!(OperationExecutionState::Failed.as_str(), "failed");
}

fn v4(a: u32, b: u32, c: u32, d: u32) -> IpAddress {
    IpAddress::V4((a << 24) | (b << 16) | (c << 8) | d)
}

#[test]
fn loopback_target_rejects_non_origin_and_non_loopback_inputs() {
    assert_eq!(origin_authority("http://127.0.0.1:8080/").unwrap(), "127.0.0.1:8080");
    assert_eq!(origin_authority("http://[::1]:8080").unwrap(), "[::1]:8080");
    assert_eq!(origin_authority("https://127.0.0.1:8080"), Err(ReplayTargetError::PlainHttpRequired));
    let ipv4 = LoopbackTarget::from_address(&SocketAddress { ip: v4(127, 0, 0, 1), ip_text: "127.0.0.1".into(), port: 8080 })
        .unwrap();
    assert_eq!(ipv4.endpoint(), &Endpoint { host: "127.0.0.1".into(), port: 8080 });
    let ipv6 = LoopbackTarget::from_address(&SocketAddress { ip: IpAddress::V6(1), ip_text: "::1".into(), port: 8080 }).unwrap();
    assert_eq!(ipv6.endpoint(), &Endpoint { host: "::1".into(), port: 8080 });
    for ip in [v4(0, 0, 0, 0), v4(192, 0, 2, 1), v4(224, 0, 0, 1)] {
        assert_eq!(
            LoopbackTarget::from_address(&SocketAddress { ip, ip_text: "x".into(), port: 8080 }),
            Err(ReplayTargetError::LoopbackRequired)
        );
    }
}

#[test]
fn loopback_options_require_matching_allow_host_and_asap_timing() {
    let address = SocketAddress { ip: v4(127, 0, 0, 1), ip_text: "127.0.0.1".into(), port: 8080 };
    let options = LoopbackReplayOptions {
        target: Some("http://127.0.0.1:8080".into()),
        allow_hosts: vec!["127.0.0.2".into()],
        execute: false,
        allow_reads: false,
        allow_writes: false,
        timing: TimingMode::Asap,
    };
    assert!(matches!(
        options.validate_target(Some(&address), Some(&vec![v4(127, 0, 0, 2)])),
        Err(ReplayTargetError::AllowHostMismatch)
    ));
    let preserve = LoopbackReplayOptions { allow_hosts: vec!["127.0.0.1".into()], timing: TimingMode::Preserve, ..options.clone() };
    assert!(matches!(
        preserve.validate_target(Some(&address), Some(&vec![v4(127, 0, 0, 1)])),
        Err(ReplayTargetError::ImmediateTimingRequired)
    ));
    let matching = LoopbackReplayOptions { allow_hosts: vec!["127.0.0.1".into()], ..options.clone() };
    let target = matching.validate_target(Some(&address), Some(&vec![v4(127, 0, 0, 1)])).unwrap();
    assert_eq!(target.endpoint(), &Endpoint { host: "127.0.0.1".into(), port: 8080 });
    assert!(matches!(matching.validate_target(None, Some(&vec![])), Err(ReplayTargetError::InvalidOrigin)));
    assert!(matches!(matching.validate_target(Some(&address), None), Err(ReplayTargetError::InvalidAllowHost)));
    let missing = LoopbackReplayOptions { target: None, ..options.clone() };
    assert!(matches!(missing.validate_target(None, None), Err(ReplayTargetError::TargetRequired)));

    let dry_run = LoopbackReplayOptions {
        target: Some("http://127.0.0.1:8080".into()),
        allow_hosts: vec!["127.0.0.1".into()],
        execute: false,
        allow_reads: false,
        allow_writes: false,
        timing: TimingMode::Asap,
    };
    assert!(dry_run.policy().dry_run);
    assert!(!dry_run.policy().allows(OperationEffect::Read));
    let execute = LoopbackReplayOptions { execute: true, allow_reads: true, ..dry_run };
    assert!(!execute.policy().dry_run);
    assert!(execute.policy().allows(OperationEffect::Read));
    assert!(!execute.policy().allows(OperationEffect::Write));
}

#[test]
fn plan_retains_read_write_and_unknown_decisions() {
    let mut session = session(OperationEffect::Read);
    let connection_id = session.connections[0].id;
    session.connections[0].operations.push(operation(101, 2, OperationEffect::Write));
    session.connections[0].operations.push(operation(102, 3, OperationEffect::Unknown));
    session.operation_completeness.push((101, Completeness::Complete));
    session.operation_completeness.push((102, Completeness::Complete));
    let targets = rule_for(connection_id, "test");
    let policy = ReplayPolicy { dry_run: false, allow_reads: true, ..ReplayPolicy::default() };
    let plan = ReplayPlanner::plan(&session, &targets, &policy, TimingMode::Asap).unwrap();
    assert_eq!(plan.operations().len(), 3);
    assert_eq!(plan.operations()[0].decision(), ReplayDecision::Allowed);
    assert_eq!(
        plan.operations()[1].decision(),
        ReplayDecision::Denied(ReplayDenial::EffectNotAllowed(OperationEffect::Write))
    );
    assert_eq!(
        plan.operations()[2].decision(),
        ReplayDecision::Denied(ReplayDenial::EffectNotAllowed(OperationEffect::Unknown))
    );
    assert!(!plan.is_executable());
    assert_eq!(plan.replayability(), Replayability::PartiallyReplayable);
}

#[test]
fn plan_denies_operations_requiring_runtime_authorization() {
    let mut session = session(OperationEffect::Read);
    session.connections[0]
        .operations[0]
        .attributes
        .push(("chronicle.replay.requires_runtime_authorization".into(), "true".into()));
    let targets = rule_for(session.connections[0].id, "127.0.0.1");
    let policy = ReplayPolicy { dry_run: false, allow_reads: true, execution_authorized: true, ..ReplayPolicy::default() };
    let plan = ReplayPlanner::plan(&session, &targets, &policy, TimingMode::Asap).unwrap();
    assert_eq!(
        plan.operations()[0].decision(),
        ReplayDecision::Denied(ReplayDenial::EffectNotAllowed(OperationEffect::Authentication))
    );
}

#[test]
fn planner_rejects_non_replayable_and_partial_operations() {
    let mut session = session(OperationEffect::Read);
    session.connections[0].operations[0].attributes.push(("chronicle.replayable".into(), "false".into()));
    session.connections[0].operations.push(operation(101, 2, OperationEffect::Read));
    session.operation_completeness.push((101, Completeness::Partial));
    session.connections[0].operations.push(operation(102, 3, OperationEffect::Read));
    session.operation_completeness.push((102, Completeness::Complete));
    let targets = rule_for(session.connections[0].id, "test");
    let policy = ReplayPolicy { dry_run: false, allow_reads: true, ..ReplayPolicy::default() };
    let plan = ReplayPlanner::plan(&session, &targets, &policy, TimingMode::Asap).unwrap();
    assert_eq!(plan.operations()[0].decision(), ReplayDecision::Unsupported);
    assert_eq!(plan.operations()[1].decision(), ReplayDecision::Unsupported);
    assert_eq!(plan.operations()[1].completeness(), Completeness::Partial);
    assert_eq!(plan.operations()[2].decision(), ReplayDecision::Allowed);
    assert!(plan.is_executable());
}

#[test]
fn recorded_destination_is_blocked_and_http_needs_authorization() {
    let mut session = session(OperationEffect::Read);
    let targets = rule_for(session.connections[0].id, "production");
    let policy = ReplayPolicy { dry_run: false, allow_reads: true, ..ReplayPolicy::default() };
    let plan = ReplayPlanner::plan(&session, &targets, &policy, TimingMode::Asap).unwrap();
    assert_eq!(plan.operations()[0].decision(), ReplayDecision::Denied(ReplayDenial::RecordedDestination));
    session.connections[0].protocol = "http/1.1".into();
    let targets = rule_for(session.connections[0].id, "test");
    let plan = ReplayPlanner::plan(&session, &targets, &policy, TimingMode::Asap).unwrap();
    assert_eq!(plan.operations()[0].decision(), ReplayDecision::Denied(ReplayDenial::ExecutionNotAuthorized));
}

#[test]
fn preserve_timing_orders_by_offset_then_sequence() {
    let mut session = session(OperationEffect::Read);
    session.connections[0].operations[0].started_at_offset = 50;
    let mut second = operation(101, 7, OperationEffect::Read);
    second.started_at_offset = 10;
    let mut third = operation(102, 2, OperationEffect::Read);
    third.started_at_offset = 10;
    session.connections[0].operations.push(second);
    session.connections[0].operations.push(third);
    let targets = rule_for(session.connections[0].id, "test");
    let plan = ReplayPlanner::plan(&session, &targets, &ReplayPolicy::default(), TimingMode::Preserve).unwrap();
    let order: Vec<u128> = plan.operations().iter().map(|p| p.operation().id).collect();
    assert_eq!(order, vec![102, 101, 100]);
    assert_eq!(plan.operations()[2].scheduled_offset(), 50);
}

fn passed() -> VerificationResult {
    VerificationResult { status: VerificationStatus::Passed, summary: "ok".into(), details: Vec::new() }
}

#[test]
fn executor_stops_after_transport_failure() {
    let mut session = session(OperationEffect::Read);
    session.connections[0].operations.push(operation(101, 2, OperationEffect::Read));
    session.operation_completeness.push((101, Completeness::Complete));
    session.connections[0].operations.push(operation(102, 3, OperationEffect::Write));
    session.operation_completeness.push((102, Completeness::Complete));
    let targets = rule_for(session.connections[0].id, "test");
    let policy = ReplayPolicy { dry_run: false, allow_reads: true, allow_writes: true, ..ReplayPolicy::default() };
    let plan = ReplayPlanner::plan(&session, &targets, &policy, TimingMode::Asap).unwrap();
    let mut run = ReplayRun::start(&plan);
    assert_eq!(run.advance(&plan).unwrap(), ReplayAction::Execute(0));
    run.record(&plan, OperationEvent::Verified(passed()));
    assert_eq!(run.advance(&plan).unwrap(), ReplayAction::Execute(1));
    run.record(&plan, OperationEvent::Transport(TransportErrorCategory::Refused));
    assert_eq!(run.advance(&plan).unwrap(), ReplayAction::Finished);
    let execution = run.finish();
    assert_eq!(execution.outcome, ReplayOutcome::StoppedTransport);
    assert_eq!(execution.results.len(), 3);
    assert_eq!(execution.results[0].state, OperationExecutionState::Completed);
    assert_eq!(execution.results[1].state, OperationExecutionState::Failed);
    assert_eq!(execution.results[1].transport_error, Some(TransportErrorCategory::Refused));
    assert_eq!(execution.results[2].state, OperationExecutionState::NotAttempted);
    assert_eq!(
        execution.results[2].verification.as_ref().unwrap().details,
        vec![("category".to_string(), "unattempted_after_stop".to_string())]
    );
}

#[test]
fn executor_skips_unsupported_and_reports_policy_preflight() {
    let session = session(OperationEffect::Write);
    let targets = rule_for(session.connections[0].id, "test");
    let policy = ReplayPolicy { dry_run: false, allow_reads: true, ..ReplayPolicy::default() };
    let plan = ReplayPlanner::plan(&session, &targets, &policy, TimingMode::Asap).unwrap();
    let mut run = ReplayRun::start(&plan);
    assert_eq!(run.advance(&plan).unwrap(), ReplayAction::Finished);
    let execution = run.finish();
    assert_eq!(execution.outcome, ReplayOutcome::StoppedPolicy);
    assert_eq!(
        execution.results[0].verification.as_ref().unwrap().details,
        vec![("category".to_string(), "preflight_denied".to_string())]
    );
}

#[test]
fn http_execution_requires_loopback_options_authorization() {
    let mut session = session(OperationEffect::Read);
    session.connections[0].protocol = "http/1.1".into();
    let targets = TargetMap {
        rules: vec![TargetRule {
            protocol: None,
            host: None,
            port: None,
            connection_id: Some(session.connections[0].id),
            target: Endpoint { host: "127.0.0.1".into(), port: 8080 },
        }],
    };
    let policy = ReplayPolicy { dry_run: false, allow_reads: true, ..ReplayPolicy::default() };
    let plan = ReplayPlanner::plan(&session, &targets, &policy, TimingMode::Asap).unwrap();
    assert_eq!(plan.operations()[0].decision(), ReplayDecision::Denied(ReplayDenial::ExecutionNotAuthorized));
}

#[test]
fn planner_rejects_non_replayable_operations_before_execution() {
    let mut session = session(OperationEffect::Read);
    session.connections[0].operations[0].attributes.push(("chronicle.replayable".into(), "false".into()));
    let targets = rule_for(session.connections[0].id, "test");
    let policy = ReplayPolicy { dry_run: false, allow_reads: true, ..ReplayPolicy::default() };
    let plan = ReplayPlanner::plan(&session, &targets, &policy, TimingMode::Asap).unwrap();
    assert_eq!(plan.operations()[0].decision(), ReplayDecision::Unsupported);
}

#[test]
fn verification_status_models_basic_outcomes() {
    let statuses = [
        VerificationStatus::Passed,
        VerificationStatus::Failed,
        VerificationStatus::Skipped,
        VerificationStatus::Inconclusive,
        VerificationStatus::Unsupported,
    ];
    assert_eq!(statuses.len(), 5);
}
