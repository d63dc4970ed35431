//! The steps in which batch tasks are run for a caller.
use std::sync::Arc;
use vstd::prelude::*;

verus! {

/// How many chunks of data a local execution holds back for its caller.
pub const LOCAL_EXECUTE_BUFFER_SIZE: usize = 64;

/// Identifies a task.
#[derive(Debug, PartialEq, Eq)]
pub struct TaskId {
    pub query_id: String,
    pub stage_id: u32,
    pub task_id: u64,
}

/// Identifies an output of a task.
#[derive(Debug, PartialEq, Eq)]
pub struct TaskOutputId {
    pub task_id: Option<TaskId>,
    pub output_id: u64,
}

impl Clone for TaskId {
    fn clone(&self) -> (r: TaskId)
        ensures
            r == *self,
    {
        TaskId {
            query_id: self.query_id.clone(),
            stage_id: self.stage_id,
            task_id: self.task_id,
        }
    }
}

/// A request to run a task, with its plan `P`, its epoch `E`, the context `T` of its trace and the
/// context `X` of its expressions.
pub struct TaskRequest<P, E, T, X> {
    pub task_id: Option<TaskId>,
    pub plan: Option<P>,
    pub epoch: Option<E>,
    pub tracing_context: T,
    pub expr_context: Option<X>,
}

/// What a request to run a task holds.
pub struct TaskParts<P, E, T, X> {
    pub task_id: TaskId,
    pub plan: P,
    pub epoch: E,
    pub tracing_context: T,
    pub expr_context: X,
}

/// What a request cannot do without.
#[derive(Debug, Clone, Copy, PartialEq, Eq, Structural)]
pub enum MissingField {
    TaskId,
    Plan,
    Epoch,
    ExprContext,
}

impl MissingField {
    /// What is said of a request that lacks the field.
    pub open spec fn text(self) -> Seq<char> {
        match self {
            MissingField::TaskId => "no task id found"@,
            MissingField::Plan => "no plan found"@,
            MissingField::Epoch => "no epoch found"@,
            MissingField::ExprContext => "no expression context found"@,
        }
    }

    /// What is said of a request that lacks the field.
    pub fn message(self) -> (r: &'static str)
        ensures
            r@ == self.text(),
    {
        match self {
            MissingField::TaskId => "no task id found",
            MissingField::Plan => "no plan found",
            MissingField::Epoch => "no epoch found",
            MissingField::ExprContext => "no expression context found",
        }
    }
}

impl<P, E, T, X> TaskRequest<P, E, T, X> {
    /// The first field that is not there.
    pub open spec fn lacks(self) -> Option<MissingField> {
        if self.task_id is None {
            Some(MissingField::TaskId)
        } else if self.plan is None {
            Some(MissingField::Plan)
        } else if self.epoch is None {
            Some(MissingField::Epoch)
        } else if self.expr_context is None {
            Some(MissingField::ExprContext)
        } else {
            None
        }
    }

    /// The first field that is not there.
    pub fn first_missing(&self) -> (r: Option<MissingField>)
        ensures
            r == self.lacks(),
    {
        if self.task_id.is_none() {
            Some(MissingField::TaskId)
        } else if self.plan.is_none() {
            Some(MissingField::Plan)
        } else if self.epoch.is_none() {
            Some(MissingField::Epoch)
        } else if self.expr_context.is_none() {
            Some(MissingField::ExprContext)
        } else {
            None
        }
    }

    /// What the request holds.
    pub fn into_parts(self) -> (r: TaskParts<P, E, T, X>)
        requires
            self.lacks() is None,
        ensures
            self.task_id == Some(r.task_id),
            self.plan == Some(r.plan),
            self.epoch == Some(r.epoch),
            self.tracing_context == r.tracing_context,
            self.expr_context == Some(r.expr_context),
    {
        TaskParts {
            task_id: self.task_id.unwrap(),
            plan: self.plan.unwrap(),
            epoch: self.epoch.unwrap(),
            tracing_context: self.tracing_context,
            expr_context: self.expr_context.unwrap(),
        }
    }
}

/// The output from which a local execution is read. Such an execution has no other.
pub fn local_output_id(task_id: &TaskId) -> (r: TaskOutputId)
    ensures
        r == (TaskOutputId { task_id: Some(*task_id), output_id: 0 }),
{
    TaskOutputId { task_id: Some(task_id.clone()), output_id: 0 }
}

/// How far a request to run a task has come.
#[derive(Debug, Clone, Copy, PartialEq, Eq, Structural)]
pub enum TaskState {
    /// The task waits to be fired, for a caller that follows its state.
    Firing,
    /// The task waits to be built, for a caller that takes its data.
    Building,
    /// The built task waits to be executed.
    Executing,
    /// The output of the running task waits to be taken.
    Opening,
    /// The data of the running task goes to the caller.
    Streaming,
    /// The caller has its answer.
    Finished,
}

/// What is to be done next for a request.
#[derive(Debug, PartialEq, Eq)]
pub enum TaskAction<S> {
    /// Execute the task.
    Execute,
    /// Take the output that the task has for a local execution.
    TakeOutput,
    /// Send the data of the output to the caller in the background, and answer with its stream.
    StreamData,
    /// Answer with the stream of the task's states.
    StreamStates,
    /// Answer with the failure.
    Fail(S),
    /// Send the failure to the caller behind the data.
    SendFailure(S),
    /// Nothing.
    Rest,
}

/// What follows for a request in a state, once what was to be done is done or has failed. A failure
/// ends the request with that failure; before the answer it is the answer, and after it it follows
/// the data.
pub open spec fn step<S>(state: TaskState, outcome: Result<(), S>) -> (TaskState, TaskAction<S>) {
    match (state, outcome) {
        (TaskState::Finished, _) => (TaskState::Finished, TaskAction::Rest),
        (TaskState::Streaming, Ok(_)) => (TaskState::Finished, TaskAction::Rest),
        (TaskState::Streaming, Err(e)) => (TaskState::Finished, TaskAction::SendFailure(e)),
        (_, Err(e)) => (TaskState::Finished, TaskAction::Fail(e)),
        (TaskState::Firing, Ok(_)) => (TaskState::Finished, TaskAction::StreamStates),
        (TaskState::Building, Ok(_)) => (TaskState::Executing, TaskAction::Execute),
        (TaskState::Executing, Ok(_)) => (TaskState::Opening, TaskAction::TakeOutput),
        (TaskState::Opening, Ok(_)) => (TaskState::Streaming, TaskAction::StreamData),
    }
}

/// What follows for a request in a state, once what was to be done is done or has failed.
pub fn advance<S>(state: TaskState, outcome: Result<(), S>) -> (r: (TaskState, TaskAction<S>))
    ensures
        r == step(state, outcome),
{
    match outcome {
        Ok(_) => match state {
            TaskState::Firing => (TaskState::Finished, TaskAction::StreamStates),
            TaskState::Building => (TaskState::Executing, TaskAction::Execute),
            TaskState::Executing => (TaskState::Opening, TaskAction::TakeOutput),
            TaskState::Opening => (TaskState::Streaming, TaskAction::StreamData),
            TaskState::Streaming => (TaskState::Finished, TaskAction::Rest),
            TaskState::Finished => (TaskState::Finished, TaskAction::Rest),
        },
        Err(e) => match state {
            TaskState::Finished => (TaskState::Finished, TaskAction::Rest),
            TaskState::Streaming => (TaskState::Finished, TaskAction::SendFailure(e)),
            _ => (TaskState::Finished, TaskAction::Fail(e)),
        },
    }
}

/// The state of a request after the outcomes of what was done, one after the other.
pub open spec fn state_after<S>(start: TaskState, outcomes: Seq<Result<(), S>>) -> TaskState
    decreases outcomes.len(),
{
    if outcomes.len() == 0 {
        start
    } else {
        step(state_after(start, outcomes.drop_last()), outcomes.last()).0
    }
}

/// The action that follows the last of some outcomes.
pub open spec fn action_after<S>(start: TaskState, outcomes: Seq<Result<(), S>>) -> TaskAction<S>
    recommends
        outcomes.len() > 0,
{
    step(state_after(start, outcomes.drop_last()), outcomes.last()).1
}

/// A caller of a local execution gets the stream of its data if and only if the task was built,
/// executed and its output taken, each without a failure.
pub proof fn data_streams_after_three_successes<S>(outcomes: Seq<Result<(), S>>)
    requires
        outcomes.len() > 0,
    ensures
        action_after(TaskState::Building, outcomes) is StreamData <==> outcomes.len() == 3
            && forall|i: int| 0 <= i < 3 ==> #[trigger] outcomes[i] is Ok,
{
    lemma_local_states(outcomes.drop_last());
    let t = outcomes.drop_last();
    if outcomes.len() == 3 {
        assert(t[0] == outcomes[0] && t[1] == outcomes[1]);
        assert(outcomes[2] == outcomes.last());
    }
}

proof fn lemma_local_states<S>(outcomes: Seq<Result<(), S>>)
    ensures
        state_after(TaskState::Building, outcomes) is Opening <==> outcomes.len() == 2
            && outcomes[0] is Ok && outcomes[1] is Ok,
        state_after(TaskState::Building, outcomes) is Executing <==> outcomes.len() == 1
            && outcomes[0] is Ok,
        state_after(TaskState::Building, outcomes) is Building <==> outcomes.len() == 0,
        !(state_after(TaskState::Building, outcomes) is Firing),
    decreases outcomes.len(),
{
    if outcomes.len() > 0 {
        let t = outcomes.drop_last();
        lemma_local_states(t);
        if outcomes.len() == 2 {
            assert(t[0] == outcomes[0]);
            assert(outcomes[1] == outcomes.last());
        }
    }
}

/// A failure ends a request, and what comes after it changes nothing.
pub proof fn failure_ends_request<S>(
    start: TaskState,
    outcomes: Seq<Result<(), S>>,
    more: Seq<Result<(), S>>,
)
    requires
        outcomes.len() > 0,
        outcomes.last() is Err,
    ensures
        state_after(start, outcomes + more) is Finished,
        more.len() > 0 ==> action_after(start, outcomes + more) is Rest,
    decreases more.len(),
{
    let all = outcomes + more;
    if more.len() == 0 {
        assert(all =~= outcomes);
    } else {
        failure_ends_request(start, outcomes, more.drop_last());
        assert(all.drop_last() =~= outcomes + more.drop_last());
        assert(all.last() == more.last());
    }
}

/// The service that runs batch tasks: the manager `M` of the tasks and the environment `E` in which
/// they run.
pub struct BatchServiceImpl<M, E> {
    pub mgr: Arc<M>,
    pub env: E,
}

impl<M, E> BatchServiceImpl<M, E> {
    /// A service made of its parts.
    pub fn new(mgr: Arc<M>, env: E) -> (r: BatchServiceImpl<M, E>)
        ensures
            r.mgr == mgr,
            r.env == env,
    {
        BatchServiceImpl { mgr, env }
    }
}

impl<M, E: Clone> Clone for BatchServiceImpl<M, E> {
    fn clone(&self) -> (r: BatchServiceImpl<M, E>)
        ensures
            r.mgr == self.mgr,
            cloned(self.env, r.env),
    {
        BatchServiceImpl { mgr: Arc::clone(&self.mgr), env: self.env.clone() }
    }
}

} // verus!
