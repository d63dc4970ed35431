//! What a meta node reports of its cluster.
use std::collections::HashMap;
use vstd::prelude::*;

#[allow(unused_imports)]
use crate::maps::is_walk;

verus! {

/// The result of asking for telemetry; an error is a text.
pub type TelemetryResult<T> = Result<T, String>;

/// Where a meta node keeps its metadata.
#[derive(Debug, Clone, Copy, PartialEq, Eq, Structural)]
pub enum MetaBackend {
    Mem,
    Etcd,
    Sql,
}

/// The kinds of worker nodes.
#[derive(Debug, Clone, Copy, PartialEq, Eq, Structural)]
pub enum WorkerType {
    Unspecified,
    Frontend,
    ComputeNode,
    RiseCtl,
    Compactor,
    Meta,
}

impl WorkerType {
    /// The number that stands for the kind.
    pub open spec fn number(self) -> i32 {
        match self {
            WorkerType::Unspecified => 0,
            WorkerType::Frontend => 1,
            WorkerType::ComputeNode => 2,
            WorkerType::RiseCtl => 3,
            WorkerType::Compactor => 4,
            WorkerType::Meta => 5,
        }
    }

    /// The number that stands for the kind.
    pub fn code(self) -> (r: i32)
        ensures
            r == self.number(),
    {
        match self {
            WorkerType::Unspecified => 0,
            WorkerType::Frontend => 1,
            WorkerType::ComputeNode => 2,
            WorkerType::RiseCtl => 3,
            WorkerType::Compactor => 4,
            WorkerType::Meta => 5,
        }
    }
}

/// The kinds of nodes that report.
#[derive(Debug, Clone, Copy, PartialEq, Eq, Structural)]
pub enum TelemetryNodeType {
    Meta,
    Compute,
    Frontend,
    Compactor,
}

/// How many nodes of each kind a cluster has.
#[derive(Debug, Clone, Copy, PartialEq, Eq, Structural)]
pub struct NodeCount {
    pub meta_count: u64,
    pub compute_count: u64,
    pub frontend_count: u64,
    pub compactor_count: u64,
}

/// What every report says. The description of the machine is added where the report is sent.
#[derive(Debug, PartialEq, Eq)]
pub struct TelemetryReportBase {
    pub tracking_id: String,
    pub session_id: String,
    pub up_time: u64,
    pub time_stamp: u64,
    pub node_type: TelemetryNodeType,
}

/// The report of a meta node.
#[derive(Debug, PartialEq, Eq)]
pub struct MetaTelemetryReport {
    pub base: TelemetryReportBase,
    pub node_count: NodeCount,
    pub meta_backend: MetaBackend,
}

/// Identifies a cluster.
#[derive(Debug, PartialEq, Eq)]
pub struct ClusterId(pub String);

impl View for ClusterId {
    type V = Seq<char>;

    open spec fn view(&self) -> Seq<char> {
        self.0@
    }
}

/// Knows under which id a cluster reports.
pub struct MetaTelemetryInfoFetcher {
    pub tracking_id: ClusterId,
}

impl MetaTelemetryInfoFetcher {
    /// A fetcher for the cluster.
    pub fn new(tracking_id: ClusterId) -> (r: MetaTelemetryInfoFetcher)
        ensures
            r.tracking_id == tracking_id,
    {
        MetaTelemetryInfoFetcher { tracking_id }
    }

    /// The id under which the cluster reports: that of the cluster.
    pub fn fetch_telemetry_info(&self) -> (r: TelemetryResult<Option<String>>)
        ensures
            r is Ok,
            r->Ok_0 is Some,
            (r->Ok_0->0)@ == self.tracking_id@,
    {
        Ok(Some(self.tracking_id.0.clone()))
    }
}

/// What a cluster says of its worker nodes, by the number of their kind.
pub enum WorkerCounts {
    /// Counted where the nodes are kept.
    Counted(HashMap<i32, u64>),
    /// Counted in a database, which may have failed with the text of an error.
    Queried(Result<HashMap<i32, i64>, String>),
}

/// The number of nodes of a kind; none where the kind is not there.
pub open spec fn count_in(counts: Map<i32, u64>, kind: WorkerType) -> u64 {
    if counts.dom().contains(kind.number()) {
        counts[kind.number()]
    } else {
        0
    }
}

/// Counts from a database, as numbers without a sign.
pub open spec fn unsigned(counts: Map<i32, i64>) -> Map<i32, u64> {
    Map::new(|k: i32| counts.dom().contains(k), |k: i32| counts[k] as u64)
}

impl WorkerCounts {
    /// The counts, where there are some.
    pub open spec fn known(self) -> Option<Map<i32, u64>> {
        match self {
            WorkerCounts::Counted(counts) => Some(counts@),
            WorkerCounts::Queried(Ok(counts)) => Some(unsigned(counts@)),
            WorkerCounts::Queried(Err(_)) => None,
        }
    }
}

/// The nodes of each kind that a report counts.
pub open spec fn node_count(counts: Map<i32, u64>) -> NodeCount {
    NodeCount {
        meta_count: count_in(counts, WorkerType::Meta),
        compute_count: count_in(counts, WorkerType::ComputeNode),
        frontend_count: count_in(counts, WorkerType::Frontend),
        compactor_count: count_in(counts, WorkerType::Compactor),
    }
}

/// The number of nodes of a kind.
fn count_of(counts: &HashMap<i32, u64>, kind: WorkerType) -> (r: u64)
    ensures
        r == count_in(counts@, kind),
{
    match counts.get(&kind.code()) {
        Some(count) => *count,
        None => 0,
    }
}

/// Counts from a database, as numbers without a sign.
fn to_unsigned(counts: &HashMap<i32, i64>) -> (r: HashMap<i32, u64>)
    ensures
        r@ == unsigned(counts@),
{
    let keys = crate::maps::keys_of(counts);
    let ghost target = unsigned(counts@);
    let mut r: HashMap<i32, u64> = HashMap::new();
    let mut i: usize = 0;
    assert(r@ =~= target.restrict(keys@.take(0).to_set()));
    while i < keys.len()
        invariant
            i <= keys.len(),
            is_walk(keys@, counts@.dom()),
            target == unsigned(counts@),
            r@ == target.restrict(keys@.take(i as int).to_set()),
        decreases keys.len() - i,
    {
        assert(keys@.to_set().contains(keys@[i as int]));
        if let Some(count) = counts.get(&keys[i]) {
            let count: i64 = *count;
            r.insert(keys[i], count as u64);
        }
        proof {
            crate::group_deltas::lemma_take_to_set(keys@, i as int);
            assert(r@ =~= target.restrict(keys@.take(i + 1).to_set()));
        }
        i = i + 1;
    }
    assert(keys@.take(i as int) =~= keys@);
    assert(target.restrict(keys@.to_set()) =~= target);
    r
}

/// Makes the reports of a meta node. `metadata_manager` is what its workers are counted with.
pub struct MetaReportCreator<M> {
    pub metadata_manager: M,
    pub meta_backend: MetaBackend,
}

impl<M: Clone> Clone for MetaReportCreator<M> {
    fn clone(&self) -> (r: MetaReportCreator<M>)
        ensures
            cloned(self.metadata_manager, r.metadata_manager),
            r.meta_backend == self.meta_backend,
    {
        MetaReportCreator {
            metadata_manager: self.metadata_manager.clone(),
            meta_backend: self.meta_backend,
        }
    }
}

impl<M> MetaReportCreator<M> {
    /// A creator for the node.
    pub fn new(metadata_manager: M, meta_backend: MetaBackend) -> (r: MetaReportCreator<M>)
        ensures
            r.metadata_manager == metadata_manager,
            r.meta_backend == meta_backend,
    {
        MetaReportCreator { metadata_manager, meta_backend }
    }

    /// Makes a report at a time, from what the cluster says of its workers. Where it could not say
    /// anything, there is no report but the text of the error.
    pub fn create_report(
        &self,
        tracking_id: String,
        session_id: String,
        up_time: u64,
        time_stamp: u64,
        counts: WorkerCounts,
    ) -> (r: TelemetryResult<MetaTelemetryReport>)
        ensures
            r is Ok <==> counts.known() is Some,
            r is Ok ==> {
                let report = r->Ok_0;
                &&& report.base.tracking_id@ == tracking_id@
                &&& report.base.session_id@ == session_id@
                &&& report.base.up_time == up_time
                &&& report.base.time_stamp == time_stamp
                &&& report.base.node_type == TelemetryNodeType::Meta
                &&& report.node_count == node_count(counts.known()->0)
                &&& report.meta_backend == self.meta_backend
            },
            r is Err ==> counts is Queried && counts->Queried_0 is Err && r->Err_0
                == counts->Queried_0->Err_0,
    {
        let node_map = match counts {
            WorkerCounts::Counted(counts) => counts,
            WorkerCounts::Queried(Ok(counts)) => to_unsigned(&counts),
            WorkerCounts::Queried(Err(text)) => {
                return Err(text);
            },
        };
        Ok(
            MetaTelemetryReport {
                base: TelemetryReportBase {
                    tracking_id,
                    session_id,
                    up_time,
                    time_stamp,
                    node_type: TelemetryNodeType::Meta,
                },
                node_count: NodeCount {
                    meta_count: count_of(&node_map, WorkerType::Meta),
                    compute_count: count_of(&node_map, WorkerType::ComputeNode),
                    frontend_count: count_of(&node_map, WorkerType::Frontend),
                    compactor_count: count_of(&node_map, WorkerType::Compactor),
                },
                meta_backend: self.meta_backend,
            },
        )
    }

    /// The kind of the reports.
    pub fn report_type(&self) -> (r: &str)
        ensures
            r@ == "meta"@,
    {
        "meta"
    }
}

} // verus!
