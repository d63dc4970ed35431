//! Telemetry and the running of batch tasks.
use hummock_version::batch_task::{
    advance, local_output_id, BatchServiceImpl, MissingField, TaskAction, TaskId, TaskOutputId,
    TaskRequest, TaskState, LOCAL_EXECUTE_BUFFER_SIZE,
};
use hummock_version::telemetry::{
    ClusterId, MetaBackend, MetaReportCreator, MetaTelemetryInfoFetcher, NodeCount,
    TelemetryNodeType, WorkerCounts, WorkerType,
};
use std::collections::HashMap;
use std::sync::Arc;

fn task_id() -> TaskId {
    TaskId {
        query_id: "q".to_owned(),
        stage_id: 1,
        task_id: 2,
    }
}

type Request = TaskRequest<&'static str, u64, char, bool>;

fn request() -> Request {
    TaskRequest {
        task_id: Some(task_id()),
        plan: Some("scan"),
        epoch: Some(7),
        tracing_context: 't',
        expr_context: Some(true),
    }
}

#[test]
fn cluster_reports_under_its_id() {
    let fetcher = MetaTelemetryInfoFetcher::new(ClusterId("cluster-1".to_owned()));
    assert_eq!(
        fetcher.fetch_telemetry_info(),
        Ok(Some("cluster-1".to_owned()))
    );
}

#[test]
fn report_counts_nodes_by_kind() {
    let creator = MetaReportCreator::new((), MetaBackend::Etcd);
    let counts = HashMap::from([
        (WorkerType::Meta.code(), 1),
        (WorkerType::ComputeNode.code(), 2),
        (WorkerType::Frontend.code(), 3),
        (WorkerType::Compactor.code(), 4),
        (WorkerType::RiseCtl.code(), 5),
    ]);
    let report = creator
        .create_report(
            "cluster".to_owned(),
            "session".to_owned(),
            100,
            200,
            WorkerCounts::Counted(counts),
        )
        .unwrap();
    assert_eq!(
        report.node_count,
        NodeCount {
            meta_count: 1,
            compute_count: 2,
            frontend_count: 3,
            compactor_count: 4,
        }
    );
    assert_eq!(report.base.tracking_id, "cluster");
    assert_eq!(report.base.session_id, "session");
    assert_eq!(report.base.up_time, 100);
    assert_eq!(report.base.time_stamp, 200);
    assert_eq!(report.base.node_type, TelemetryNodeType::Meta);
    assert_eq!(report.meta_backend, MetaBackend::Etcd);
    assert_eq!(creator.report_type(), "meta");
    assert_eq!(creator.clone().meta_backend, MetaBackend::Etcd);
}

#[test]
fn absent_kinds_count_as_none() {
    let report = MetaReportCreator::new((), MetaBackend::Mem)
        .create_report(
            String::new(),
            String::new(),
            0,
            0,
            WorkerCounts::Counted(HashMap::new()),
        )
        .unwrap();
    assert_eq!(
        report.node_count,
        NodeCount {
            meta_count: 0,
            compute_count: 0,
            frontend_count: 0,
            compactor_count: 0,
        }
    );
    assert_eq!(report.meta_backend, MetaBackend::Mem);
}

#[test]
fn queried_counts_lose_their_sign() {
    let counts = HashMap::from([(2, 9i64), (5, -1i64)]);
    let report = MetaReportCreator::new((), MetaBackend::Sql)
        .create_report(
            String::new(),
            String::new(),
            0,
            0,
            WorkerCounts::Queried(Ok(counts)),
        )
        .unwrap();
    assert_eq!(report.node_count.compute_count, 9);
    assert_eq!(report.node_count.meta_count, u64::MAX);
    assert_eq!(report.node_count.frontend_count, 0);
}

#[test]
fn failed_query_gives_its_text() {
    let report = MetaReportCreator::new((), MetaBackend::Sql).create_report(
        String::new(),
        String::new(),
        0,
        0,
        WorkerCounts::Queried(Err("no connection".to_owned())),
    );
    assert_eq!(report.err(), Some("no connection".to_owned()));
}

#[test]
fn complete_request_comes_apart() {
    assert_eq!(request().first_missing(), None);
    let parts = request().into_parts();
    assert_eq!(parts.task_id, task_id());
    assert_eq!(parts.plan, "scan");
    assert_eq!(parts.epoch, 7);
    assert_eq!(parts.tracing_context, 't');
    assert!(parts.expr_context);
}

#[test]
fn first_missing_field_is_named() {
    let mut r = request();
    r.expr_context = None;
    assert_eq!(r.first_missing(), Some(MissingField::ExprContext));
    r.epoch = None;
    assert_eq!(r.first_missing(), Some(MissingField::Epoch));
    r.plan = None;
    assert_eq!(r.first_missing(), Some(MissingField::Plan));
    r.task_id = None;
    assert_eq!(r.first_missing(), Some(MissingField::TaskId));
}

#[test]
fn missing_fields_have_messages() {
    assert_eq!(MissingField::TaskId.message(), "no task id found");
    assert_eq!(MissingField::Plan.message(), "no plan found");
    assert_eq!(MissingField::Epoch.message(), "no epoch found");
    assert_eq!(
        MissingField::ExprContext.message(),
        "no expression context found"
    );
}

#[test]
fn local_execution_has_one_output() {
    assert_eq!(
        local_output_id(&task_id()),
        TaskOutputId {
            task_id: Some(task_id()),
            output_id: 0,
        }
    );
    assert_eq!(LOCAL_EXECUTE_BUFFER_SIZE, 64);
}

#[test]
fn local_execution_runs_to_its_stream() {
    let ok: Result<(), u8> = Ok(());
    assert_eq!(
        advance(TaskState::Building, ok),
        (TaskState::Executing, TaskAction::Execute)
    );
    assert_eq!(
        advance(TaskState::Executing, ok),
        (TaskState::Opening, TaskAction::TakeOutput)
    );
    assert_eq!(
        advance(TaskState::Opening, ok),
        (TaskState::Streaming, TaskAction::StreamData)
    );
    assert_eq!(
        advance(TaskState::Streaming, ok),
        (TaskState::Finished, TaskAction::Rest)
    );
    assert_eq!(
        advance(TaskState::Finished, ok),
        (TaskState::Finished, TaskAction::Rest)
    );
}

#[test]
fn fired_task_answers_with_its_states() {
    assert_eq!(
        advance(TaskState::Firing, Ok::<(), u8>(())),
        (TaskState::Finished, TaskAction::StreamStates)
    );
}

#[test]
fn failures_end_requests() {
    for state in [
        TaskState::Firing,
        TaskState::Building,
        TaskState::Executing,
        TaskState::Opening,
    ] {
        assert_eq!(
            advance(state, Err(3)),
            (TaskState::Finished, TaskAction::Fail(3))
        );
    }
    assert_eq!(
        advance(TaskState::Streaming, Err(3)),
        (TaskState::Finished, TaskAction::SendFailure(3))
    );
    assert_eq!(
        advance(TaskState::Finished, Err(3)),
        (TaskState::Finished, TaskAction::Rest)
    );
}

#[test]
fn service_holds_its_parts() {
    let service = BatchServiceImpl::new(Arc::new(5), "env");
    assert_eq!(*service.mgr, 5);
    let copy = service.clone();
    assert_eq!(copy.env, "env");
    assert!(Arc::ptr_eq(&copy.mgr, &service.mgr));
}
