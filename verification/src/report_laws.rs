//! What is reported of a cluster, and what a request to run a task is answered.
use vstd::prelude::*;

#[allow(unused_imports)]
use crate::batch_task::{
    action_after, state_after, MissingField, TaskAction, TaskRequest, TaskState,
};
#[allow(unused_imports)]
use crate::telemetry::{node_count, unsigned};

verus! {

/// Whether a number is what is counted under a kind; nothing is counted under a kind that is not there.
pub open spec fn counted_as(counts: Map<i32, u64>, kind: i32, n: u64) -> bool {
    &&& counts.dom().contains(kind) ==> n == counts[kind]
    &&& !counts.dom().contains(kind) ==> n == 0
}

/// A report counts the nodes of each kind under the number of the kind.
pub proof fn report_counts_nodes_by_kind(counts: Map<i32, u64>)
    ensures
        counted_as(counts, 1, node_count(counts).frontend_count),
        counted_as(counts, 2, node_count(counts).compute_count),
        counted_as(counts, 4, node_count(counts).compactor_count),
        counted_as(counts, 5, node_count(counts).meta_count),
{
}

/// Counts keep their kinds, and their values where these are not negative.
pub proof fn counts_keep_their_values(counts: Map<i32, i64>, kind: i32)
    ensures
        unsigned(counts).dom().contains(kind) <==> counts.dom().contains(kind),
        counts.dom().contains(kind) && counts[kind] >= 0 ==> unsigned(counts)[kind]
            == counts[kind],
{
}

/// A request lacks the first of its task id, plan, epoch and expression context that is not there, and
/// nothing where all are.
pub proof fn request_lacks_its_first_missing_field<P, E, T, X>(request: TaskRequest<P, E, T, X>)
    ensures
        request.lacks() == Some(MissingField::TaskId) <==> request.task_id is None,
        request.lacks() == Some(MissingField::Plan) <==> request.task_id is Some
            && request.plan is None,
        request.lacks() == Some(MissingField::Epoch) <==> request.task_id is Some
            && request.plan is Some && request.epoch is None,
        request.lacks() == Some(MissingField::ExprContext) <==> request.task_id is Some
            && request.plan is Some && request.epoch is Some && request.expr_context is None,
        request.lacks() is None <==> request.task_id is Some && request.plan is Some
            && request.epoch is Some && request.expr_context is Some,
{
}

/// Whether all outcomes but the last one are good.
pub open spec fn good_so_far<S>(outcomes: Seq<Result<(), S>>) -> bool {
    outcomes.len() > 0 && forall|i: int|
        0 <= i < outcomes.len() - 1 ==> #[trigger] outcomes[i] is Ok
}

/// A caller that follows the state of a task is answered with the stream of its states where the task
/// was fired, and with the failure otherwise; then nothing follows.
pub proof fn firing_is_answered_once<S>(outcomes: Seq<Result<(), S>>)
    requires
        outcomes.len() > 0,
    ensures
        outcomes.len() == 1 && outcomes[0] is Ok ==> action_after(TaskState::Firing, outcomes)
            == TaskAction::<S>::StreamStates,
        outcomes.len() == 1 && outcomes[0] is Err ==> action_after(TaskState::Firing, outcomes)
            == TaskAction::Fail(outcomes[0]->Err_0),
        outcomes.len() > 1 ==> action_after(TaskState::Firing, outcomes) == TaskAction::<S>::Rest,
{
    if outcomes.len() == 1 {
        assert(outcomes.drop_last() =~= Seq::empty());
        assert(state_after(TaskState::Firing, outcomes.drop_last()) == TaskState::Firing);
        assert(outcomes.last() == outcomes[0]);
    } else {
        lemma_fired(outcomes.drop_last());
    }
}

proof fn lemma_fired<S>(outcomes: Seq<Result<(), S>>)
    requires
        outcomes.len() > 0,
    ensures
        state_after(TaskState::Firing, outcomes) == TaskState::Finished,
    decreases outcomes.len(),
{
    if outcomes.len() == 1 {
        assert(outcomes.drop_last() =~= Seq::empty());
        assert(state_after(TaskState::Firing, outcomes.drop_last()) == TaskState::Firing);
    } else {
        lemma_fired(outcomes.drop_last());
    }
}

proof fn lemma_run_states<S>(outcomes: Seq<Result<(), S>>)
    requires
        forall|i: int| 0 <= i < outcomes.len() ==> #[trigger] outcomes[i] is Ok,
    ensures
        state_after(TaskState::Building, outcomes) == (if outcomes.len() == 0 {
            TaskState::Building
        } else if outcomes.len() == 1 {
            TaskState::Executing
        } else if outcomes.len() == 2 {
            TaskState::Opening
        } else if outcomes.len() == 3 {
            TaskState::Streaming
        } else {
            TaskState::Finished
        }),
    decreases outcomes.len(),
{
    if outcomes.len() > 0 {
        let t = outcomes.drop_last();
        assert forall|i: int| 0 <= i < t.len() implies #[trigger] t[i] is Ok by {
            assert(outcomes[i] is Ok);
        }
        lemma_run_states(t);
        assert(outcomes[outcomes.len() - 1] is Ok);
    }
}

/// A caller that takes the data of a task has it built, then executed, then its output taken, and then
/// gets the stream of the data. A failure before that is the answer, and one after it is sent behind
/// the data.
pub proof fn run_goes_step_by_step<S>(outcomes: Seq<Result<(), S>>)
    requires
        good_so_far(outcomes),
    ensures
        ({
            let (n, last) = (outcomes.len(), outcomes.last());
            let action = action_after(TaskState::Building, outcomes);
            &&& n == 1 && last is Ok ==> action == TaskAction::<S>::Execute
            &&& n == 2 && last is Ok ==> action == TaskAction::<S>::TakeOutput
            &&& n == 3 && last is Ok ==> action == TaskAction::<S>::StreamData
            &&& n <= 3 && last is Err ==> action == TaskAction::Fail(last->Err_0)
            &&& n == 4 && last is Err ==> action == TaskAction::SendFailure(last->Err_0)
            &&& n == 4 && last is Ok ==> action == TaskAction::<S>::Rest
            &&& n > 4 ==> action == TaskAction::<S>::Rest
        }),
{
    let t = outcomes.drop_last();
    assert forall|i: int| 0 <= i < t.len() implies #[trigger] t[i] is Ok by {
        assert(outcomes[i] is Ok);
    }
    lemma_run_states(t);
}

} // verus!
