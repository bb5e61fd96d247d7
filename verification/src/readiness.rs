//! When a service may start, when it never will, and what a scheduling pass
//! may change: the rules of the dependency graph, stated over the graph as a
//! map from service name to descriptor and status.

use vstd::prelude::*;
use vstd::set_lib::lemma_len_subset;
use crate::error::OsError;
use crate::service::ServiceView;

verus! {

/// How far a service has come. A service is `Pending` until it is launched,
/// `Starting` while its process runs, and then `Started` or `Failed` for good.
#[derive(Clone, Copy, Debug, PartialEq, Eq, Structural)]
pub enum ServiceStatus {
    Pending,
    Starting,
    Started,
    Failed,
}

/// One service of the graph: its descriptor and how far it has come.
pub struct EntryView {
    pub service: ServiceView,
    pub status: ServiceStatus,
}

/// The graph: the services that are known, by name.
pub type GraphView = Map<Seq<char>, EntryView>;

/// The status that a launched service takes when its launch or the wait for
/// its process ends with `outcome`: `Started` for the exit status zero,
/// `Failed` for any other status and for any error.
pub open spec fn status_after(outcome: Result<usize, OsError>) -> ServiceStatus {
    if outcome == Ok::<usize, OsError>(0) {
        ServiceStatus::Started
    } else {
        ServiceStatus::Failed
    }
}

impl ServiceStatus {
    /// The status that a launched service takes when its launch or the wait
    /// for its process ends with `outcome`.
    pub fn after(outcome: &Result<usize, OsError>) -> (status: ServiceStatus)
        ensures
            status == status_after(*outcome),
    {
        match outcome {
            Ok(code) => {
                if *code == 0 {
                    ServiceStatus::Started
                } else {
                    ServiceStatus::Failed
                }
            },
            Err(_) => ServiceStatus::Failed,
        }
    }
}

/// The graph after the descriptor `service` has been added: a new name comes
/// in as `Pending`; a known name takes the new descriptor and keeps its status.
pub open spec fn pushed(graph: GraphView, service: ServiceView) -> GraphView {
    let status = if graph.contains_key(service.name) {
        graph[service.name].status
    } else {
        ServiceStatus::Pending
    };
    graph.insert(service.name, EntryView { service, status })
}

/// The graph after the descriptors have been added one after the other.
pub open spec fn pushed_all(graph: GraphView, services: Seq<ServiceView>) -> GraphView {
    services.fold_left(graph, |graph: GraphView, service: ServiceView| pushed(graph, service))
}

/// The dependency `dep` does not hold anything back: no service of that name
/// is known, or the service has started.
pub open spec fn satisfied(graph: GraphView, dep: Seq<char>) -> bool {
    graph.contains_key(dep) ==> graph[dep].status == ServiceStatus::Started
}

/// The service `name` may be launched: it is pending and each of its
/// dependencies is satisfied.
pub open spec fn eligible(graph: GraphView, name: Seq<char>) -> bool {
    &&& graph.contains_key(name)
    &&& graph[name].status == ServiceStatus::Pending
    &&& forall|dep: Seq<char>| #[trigger] graph[name].service.depends_on(dep) ==> satisfied(graph, dep)
}

/// The service `name` is pending and waits for a service that has failed or
/// that belongs to `waiting`.
pub open spec fn blocked(graph: GraphView, waiting: Set<Seq<char>>, name: Seq<char>) -> bool {
    &&& graph.contains_key(name)
    &&& graph[name].status == ServiceStatus::Pending
    &&& exists|dep: Seq<char>|
        #[trigger] graph[name].service.depends_on(dep) && graph.contains_key(dep) && (waiting.contains(dep)
            || graph[dep].status == ServiceStatus::Failed)
}

/// Every service of `waiting` waits for a failed service or for another
/// service of `waiting`: none of them can be the first to start.
pub open spec fn deadlocked(graph: GraphView, waiting: Set<Seq<char>>) -> bool {
    forall|name: Seq<char>| #[trigger] waiting.contains(name) ==> blocked(graph, waiting, name)
}

/// The service `name` will never start: it belongs to a set of services that
/// wait for each other or for failed ones.
pub open spec fn stuck(graph: GraphView, name: Seq<char>) -> bool {
    exists|waiting: Set<Seq<char>>| #[trigger] waiting.contains(name) && deadlocked(graph, waiting)
}

/// Nothing is left to do: no service is starting and none may be launched.
pub open spec fn settled(graph: GraphView) -> bool {
    forall|name: Seq<char>| #[trigger]
        graph.contains_key(name) ==> graph[name].status != ServiceStatus::Starting && !eligible(
            graph,
            name,
        )
}

/// What scheduling may turn the graph `before` into. The services and their
/// descriptors stay. A service that has started or failed stays so. A
/// service that has left `Pending` has all its dependencies satisfied. A set of
/// services that wait for each other or for failed ones goes on doing so.
pub open spec fn advanced(before: GraphView, after: GraphView) -> bool {
    &&& after.dom() == before.dom()
    &&& forall|name: Seq<char>| #[trigger]
        before.contains_key(name) ==> after[name].service == before[name].service
    &&& forall|name: Seq<char>| #[trigger]
        before.contains_key(name) && (before[name].status == ServiceStatus::Started || before[name].status
            == ServiceStatus::Failed) ==> after[name].status == before[name].status
    &&& forall|name: Seq<char>, dep: Seq<char>|
        before.contains_key(name) && before[name].status == ServiceStatus::Pending && after[name].status
            != ServiceStatus::Pending && #[trigger] after[name].service.depends_on(dep) ==> satisfied(
            after,
            dep,
        )
    &&& forall|waiting: Set<Seq<char>>| #[trigger]
        deadlocked(before, waiting) ==> deadlocked(after, waiting)
}

/// The graph with the status of the service `name` changed.
pub open spec fn with_status(graph: GraphView, name: Seq<char>, status: ServiceStatus) -> GraphView {
    graph.insert(name, EntryView { service: graph[name].service, status })
}

/// Each service of `path` names the next among its dependencies, and all of
/// them are known.
pub open spec fn is_path(graph: GraphView, path: Seq<Seq<char>>) -> bool {
    &&& path.len() >= 1
    &&& forall|i: int| 0 <= i < path.len() ==> graph.contains_key(#[trigger] path[i])
    &&& forall|i: int| 0 <= i < path.len() - 1 ==> graph[#[trigger] path[i]].service.depends_on(path[i + 1])
}

/// `path` leads from a service through its dependencies back to itself.
pub open spec fn is_cycle(graph: GraphView, path: Seq<Seq<char>>) -> bool {
    &&& is_path(graph, path)
    &&& path.len() >= 2
    &&& path.first() == path.last()
}

/// No service depends on itself, directly or through others.
pub open spec fn acyclic(graph: GraphView) -> bool {
    forall|path: Seq<Seq<char>>| !is_cycle(graph, path)
}

/// Every service has started or failed.
pub open spec fn all_resolved(graph: GraphView) -> bool {
    forall|name: Seq<char>| #[trigger]
        graph.contains_key(name) ==> graph[name].status == ServiceStatus::Started || graph[name].status
            == ServiceStatus::Failed
}

/// A graph may be turned into itself.
pub proof fn advanced_from_itself(graph: GraphView)
    ensures
        advanced(graph, graph),
{
}

/// Launching a service that may be launched is a change that scheduling may
/// make.
pub proof fn advanced_by_launch(before: GraphView, graph: GraphView, name: Seq<char>)
    requires
        advanced(before, graph),
        eligible(graph, name),
    ensures
        advanced(before, with_status(graph, name, ServiceStatus::Starting)),
{
    let after = with_status(graph, name, ServiceStatus::Starting);
    assert(after.dom() =~= before.dom());
    assert(graph[name].service.depends_on(name) ==> satisfied(graph, name));
    assert forall|other: Seq<char>, dep: Seq<char>|
        before.contains_key(other) && before[other].status == ServiceStatus::Pending && after[other].status
            != ServiceStatus::Pending && #[trigger] after[other].service.depends_on(dep) implies satisfied(
        after,
        dep,
    ) by {
        if other == name {
            assert(graph[name].service.depends_on(dep));
        } else {
            assert(graph[other].service.depends_on(dep));
        }
        assert(satisfied(graph, dep));
    }
    assert forall|waiting: Set<Seq<char>>| #[trigger] deadlocked(before, waiting) implies deadlocked(
        after,
        waiting,
    ) by {
        assert(deadlocked(graph, waiting));
        lemma_deadlocked_not_eligible(graph, waiting, name);
        assert forall|other: Seq<char>| #[trigger] waiting.contains(other) implies blocked(
            after,
            waiting,
            other,
        ) by {
            assert(blocked(graph, waiting, other));
            let dep = choose|dep: Seq<char>|
                #[trigger] graph[other].service.depends_on(dep) && graph.contains_key(dep) && (
                waiting.contains(dep) || graph[dep].status == ServiceStatus::Failed);
            assert(after[other].service.depends_on(dep));
        }
    }
}

/// Taking note of how a starting service ended is a change that scheduling
/// may make.
pub proof fn advanced_by_outcome(before: GraphView, graph: GraphView, name: Seq<char>, status: ServiceStatus)
    requires
        advanced(before, graph),
        graph.contains_key(name),
        graph[name].status == ServiceStatus::Starting,
        status == ServiceStatus::Started || status == ServiceStatus::Failed,
    ensures
        advanced(before, with_status(graph, name, status)),
{
    let after = with_status(graph, name, status);
    assert(after.dom() =~= before.dom());
    assert forall|other: Seq<char>, dep: Seq<char>|
        before.contains_key(other) && before[other].status == ServiceStatus::Pending && after[other].status
            != ServiceStatus::Pending && #[trigger] after[other].service.depends_on(dep) implies satisfied(
        after,
        dep,
    ) by {
        assert(graph[other].service.depends_on(dep));
        assert(satisfied(graph, dep));
    }
    assert forall|waiting: Set<Seq<char>>| #[trigger] deadlocked(before, waiting) implies deadlocked(
        after,
        waiting,
    ) by {
        assert(deadlocked(graph, waiting));
        assert forall|other: Seq<char>| #[trigger] waiting.contains(other) implies blocked(
            after,
            waiting,
            other,
        ) by {
            assert(blocked(graph, waiting, other));
            let dep = choose|dep: Seq<char>|
                #[trigger] graph[other].service.depends_on(dep) && graph.contains_key(dep) && (
                waiting.contains(dep) || graph[dep].status == ServiceStatus::Failed);
            assert(after[other].service.depends_on(dep));
            if waiting.contains(name) {
                assert(blocked(graph, waiting, name));
            }
        }
    }
}

/// A service that may be launched still may after the status of another
/// service, which had not started, has changed.
pub proof fn eligible_kept(graph: GraphView, name: Seq<char>, status: ServiceStatus, other: Seq<char>)
    requires
        graph.contains_key(name),
        graph[name].status != ServiceStatus::Started,
        eligible(graph, other),
        other != name,
    ensures
        eligible(with_status(graph, name, status), other),
{
    let after = with_status(graph, name, status);
    assert forall|dep: Seq<char>| #[trigger] after[other].service.depends_on(dep) implies satisfied(
        after,
        dep,
    ) by {
        assert(graph[other].service.depends_on(dep));
        assert(satisfied(graph, dep));
    }
}

/// A service that waits in a deadlocked set may not be launched.
pub proof fn lemma_deadlocked_not_eligible(graph: GraphView, waiting: Set<Seq<char>>, name: Seq<char>)
    requires
        deadlocked(graph, waiting),
        eligible(graph, name),
    ensures
        !waiting.contains(name),
{
    if waiting.contains(name) {
        assert(blocked(graph, waiting, name));
        let dep = choose|dep: Seq<char>|
            #[trigger] graph[name].service.depends_on(dep) && graph.contains_key(dep) && (waiting.contains(
                dep,
            ) || graph[dep].status == ServiceStatus::Failed);
        assert(satisfied(graph, dep));
        if waiting.contains(dep) {
            assert(blocked(graph, waiting, dep));
        }
    }
}

/// A service that is stuck stays pending through whatever scheduling does.
pub proof fn stuck_stays_pending(before: GraphView, after: GraphView, name: Seq<char>)
    requires
        advanced(before, after),
        stuck(before, name),
    ensures
        after.contains_key(name),
        after[name].status == ServiceStatus::Pending,
        stuck(after, name),
{
    let waiting = choose|waiting: Set<Seq<char>>| #[trigger]
        waiting.contains(name) && deadlocked(before, waiting);
    assert(deadlocked(after, waiting));
    assert(blocked(after, waiting, name));
}

/// A service is launched only after each of its dependencies has started:
/// where scheduling has taken a service out of `Pending`, every service that
/// it depends on and that is known has started.
pub proof fn launched_after_dependencies(before: GraphView, after: GraphView, name: Seq<char>, dep: Seq<char>)
    requires
        advanced(before, after),
        before.contains_key(name),
        before[name].status == ServiceStatus::Pending,
        after[name].status != ServiceStatus::Pending,
        after[name].service.depends_on(dep),
        after.contains_key(dep),
    ensures
        after[dep].status == ServiceStatus::Started,
{
    assert(satisfied(after, dep));
}

/// Where a service has failed, every pending service from which a path of
/// pending services leads to it is stuck: it stays pending for good.
pub proof fn failure_blocks_dependents(graph: GraphView, path: Seq<Seq<char>>)
    requires
        is_path(graph, path),
        graph[path.last()].status == ServiceStatus::Failed,
        forall|i: int| 0 <= i < path.len() - 1 ==> graph[#[trigger] path[i]].status == ServiceStatus::Pending,
    ensures
        forall|i: int| 0 <= i < path.len() - 1 ==> stuck(graph, #[trigger] path[i]),
{
    let waiting = Set::new(|name: Seq<char>| exists|i: int| 0 <= i < path.len() - 1 && path[i] == name);
    assert forall|name: Seq<char>| #[trigger] waiting.contains(name) implies blocked(
        graph,
        waiting,
        name,
    ) by {
        let i = choose|i: int| 0 <= i < path.len() - 1 && path[i] == name;
        assert(graph[path[i]].service.depends_on(path[i + 1]));
        if i + 1 < path.len() - 1 {
            assert(waiting.contains(path[i + 1]));
        }
    }
    assert forall|i: int| 0 <= i < path.len() - 1 implies stuck(graph, #[trigger] path[i]) by {
        assert(waiting.contains(path[i]));
    }
}

/// The pending services of a dependency cycle are stuck: where every service
/// of a cycle is pending, each of them stays pending for good.
pub proof fn cycle_is_stuck(graph: GraphView, path: Seq<Seq<char>>)
    requires
        is_cycle(graph, path),
        forall|i: int| 0 <= i < path.len() ==> graph[#[trigger] path[i]].status == ServiceStatus::Pending,
    ensures
        forall|i: int| 0 <= i < path.len() ==> stuck(graph, #[trigger] path[i]),
{
    let waiting = Set::new(|name: Seq<char>| exists|i: int| 0 <= i < path.len() && path[i] == name);
    assert forall|name: Seq<char>| #[trigger] waiting.contains(name) implies blocked(
        graph,
        waiting,
        name,
    ) by {
        let i = choose|i: int| 0 <= i < path.len() && path[i] == name;
        if i < path.len() - 1 {
            assert(graph[path[i]].service.depends_on(path[i + 1]));
            assert(waiting.contains(path[i + 1]));
        } else {
            assert(name == path[0]);
            assert(graph[path[0]].service.depends_on(path[1]));
            assert(waiting.contains(path[1]));
        }
    }
    assert forall|i: int| 0 <= i < path.len() implies stuck(graph, #[trigger] path[i]) by {
        assert(waiting.contains(path[i]));
    }
}

/// In a settled graph a pending service waits for a service that is known
/// and has not started.
proof fn lemma_pending_waits(graph: GraphView, name: Seq<char>) -> (dep: Seq<char>)
    requires
        settled(graph),
        graph.contains_key(name),
        graph[name].status == ServiceStatus::Pending,
    ensures
        graph[name].service.depends_on(dep),
        graph.contains_key(dep),
        graph[dep].status != ServiceStatus::Started,
        graph[dep].status != ServiceStatus::Starting,
{
    assert(!eligible(graph, name));
    let dep = choose|dep: Seq<char>| #[trigger]
        graph[name].service.depends_on(dep) && !satisfied(graph, dep);
    dep
}

/// In a settled graph in which no pending service waits for a failed one, a
/// path of pending services of any length starts at each pending service.
proof fn lemma_pending_path(graph: GraphView, name: Seq<char>, more: nat) -> (path: Seq<Seq<char>>)
    requires
        settled(graph),
        no_wait_for_failed(graph),
        graph.contains_key(name),
        graph[name].status == ServiceStatus::Pending,
    ensures
        is_path(graph, path),
        path.len() == more + 1,
        path[0] == name,
    decreases more,
{
    if more == 0 {
        seq![name]
    } else {
        let dep = lemma_pending_waits(graph, name);
        let rest = lemma_pending_path(graph, dep, (more - 1) as nat);
        let path = seq![name] + rest;
        assert forall|i: int| 0 <= i < path.len() - 1 implies graph[#[trigger] path[i]].service.depends_on(
            path[i + 1],
        ) by {
            if i > 0 {
                assert(path[i] == rest[i - 1]);
                assert(path[i + 1] == rest[i]);
            }
        }
        path
    }
}

/// A path with more services than the graph knows passes through some
/// service twice, and so holds a cycle.
proof fn lemma_long_path_has_cycle(graph: GraphView, path: Seq<Seq<char>>) -> (cycle: Seq<Seq<char>>)
    requires
        graph.dom().finite(),
        is_path(graph, path),
        path.len() > graph.dom().len(),
    ensures
        is_cycle(graph, cycle),
{
    if path.no_duplicates() {
        path.unique_seq_to_set();
        assert(path.to_set().subset_of(graph.dom())) by {
            assert forall|name: Seq<char>| path.to_set().contains(name) implies graph.dom().contains(
                name,
            ) by {
                let i = choose|i: int| 0 <= i < path.len() && path[i] == name;
                assert(graph.contains_key(path[i]));
            }
        }
        lemma_len_subset(path.to_set(), graph.dom());
    }
    let (i, j) = choose|i: int, j: int| 0 <= i < path.len() && 0 <= j < path.len() && i != j && path[i] == path[j];
    let (from, to) = if i < j {
        (i, j)
    } else {
        (j, i)
    };
    let cycle = path.subrange(from, to + 1);
    assert forall|k: int| 0 <= k < cycle.len() - 1 implies graph[#[trigger] cycle[k]].service.depends_on(
        cycle[k + 1],
    ) by {
        assert(cycle[k] == path[from + k]);
        assert(cycle[k + 1] == path[from + k + 1]);
    }
    assert forall|k: int| 0 <= k < cycle.len() implies graph.contains_key(#[trigger] cycle[k]) by {
        assert(cycle[k] == path[from + k]);
    }
    cycle
}

/// No pending service names a failed service among its dependencies.
pub open spec fn no_wait_for_failed(graph: GraphView) -> bool {
    forall|name: Seq<char>, dep: Seq<char>|
        graph.contains_key(name) && graph[name].status == ServiceStatus::Pending && #[trigger] graph[name].service.depends_on(
            dep,
        ) && graph.contains_key(dep) ==> graph[dep].status != ServiceStatus::Failed
}

/// Where the dependencies hold no cycle, scheduling resolves every service
/// but those that wait for a failed one: in a settled graph without cycles in
/// which no pending service waits for a failed service, every service has
/// started or failed.
pub proof fn settled_without_cycles_is_resolved(graph: GraphView)
    requires
        graph.dom().finite(),
        settled(graph),
        acyclic(graph),
        no_wait_for_failed(graph),
    ensures
        all_resolved(graph),
{
    assert forall|name: Seq<char>| #[trigger] graph.contains_key(name) implies graph[name].status
        == ServiceStatus::Started || graph[name].status == ServiceStatus::Failed by {
        if graph[name].status == ServiceStatus::Pending {
            let path = lemma_pending_path(graph, name, graph.dom().len());
            let cycle = lemma_long_path_has_cycle(graph, path);
            assert(!is_cycle(graph, cycle));
        }
    }
}

/// Adding a descriptor twice under one name leaves one service of that name,
/// defined by the second descriptor, with the status that the name had
/// before, or `Pending` where it was new; other services are not touched.
pub proof fn redefinition_keeps_status(graph: GraphView, first: ServiceView, second: ServiceView)
    requires
        first.name == second.name,
    ensures
        pushed(pushed(graph, first), second) == pushed(graph, second),
        pushed(graph, second).dom() == graph.dom().insert(second.name),
        pushed(graph, second)[second.name].service == second,
        pushed(graph, second)[second.name].status == if graph.contains_key(second.name) {
            graph[second.name].status
        } else {
            ServiceStatus::Pending
        },
        forall|name: Seq<char>|
            name != second.name && graph.contains_key(name) ==> #[trigger] pushed(graph, second)[name]
                == graph[name],
{
    assert(pushed(pushed(graph, first), second) =~= pushed(graph, second));
    assert(pushed(graph, second).dom() =~= graph.dom().insert(second.name));
}

/// One thing that happens to a service in a scheduling pass.
pub enum Event {
    /// The service is launched and goes from `Pending` to `Starting`.
    Launched(Seq<char>),
    /// The launch of the service, or the wait for its process, ends with this
    /// outcome, and the service goes from `Starting` to the status that the
    /// outcome gives.
    Ended(Seq<char>, Result<usize, OsError>),
}

/// The event may happen in the graph: a service is launched only when it may
/// be launched, each of its known dependencies having started; an outcome
/// comes in only for a service that is starting.
pub open spec fn may_happen(graph: GraphView, event: Event) -> bool {
    match event {
        Event::Launched(name) => eligible(graph, name),
        Event::Ended(name, _) => graph.contains_key(name) && graph[name].status == ServiceStatus::Starting,
    }
}

/// The graph after the event.
pub open spec fn happened(graph: GraphView, event: Event) -> GraphView {
    match event {
        Event::Launched(name) => with_status(graph, name, ServiceStatus::Starting),
        Event::Ended(name, outcome) => with_status(graph, name, status_after(outcome)),
    }
}

/// The graph after the events, one after the other.
pub open spec fn after_events(graph: GraphView, events: Seq<Event>) -> GraphView
    decreases events.len(),
{
    if events.len() == 0 {
        graph
    } else {
        happened(after_events(graph, events.drop_last()), events.last())
    }
}

/// Each of the events may happen when its turn comes.
pub open spec fn is_run(graph: GraphView, events: Seq<Event>) -> bool
    decreases events.len(),
{
    events.len() == 0 || (is_run(graph, events.drop_last()) && may_happen(
        after_events(graph, events.drop_last()),
        events.last(),
    ))
}

/// The outcomes that came in, in their order, each with the name of its
/// service.
pub open spec fn outcomes(events: Seq<Event>) -> Seq<(Seq<char>, Result<usize, OsError>)>
    decreases events.len(),
{
    if events.len() == 0 {
        seq![]
    } else {
        match events.last() {
            Event::Launched(_) => outcomes(events.drop_last()),
            Event::Ended(name, outcome) => outcomes(events.drop_last()).push((name, outcome)),
        }
    }
}

/// The beginning of a run is a run, and the graph after it is the graph in
/// which the next event happens.
pub proof fn run_begins_with_run(graph: GraphView, events: Seq<Event>, upto: int)
    requires
        is_run(graph, events),
        0 <= upto <= events.len(),
    ensures
        is_run(graph, events.take(upto)),
        upto < events.len() ==> may_happen(after_events(graph, events.take(upto)), events[upto]),
    decreases events.len(),
{
    if upto == events.len() {
        assert(events.take(upto) =~= events);
    } else {
        assert(events.drop_last().take(upto) =~= events.take(upto));
        if upto == events.len() - 1 {
            assert(events.take(upto) =~= events.drop_last());
        } else {
            run_begins_with_run(graph, events.drop_last(), upto);
        }
    }
}

/// A run keeps the services and their descriptors.
pub proof fn run_keeps_services(graph: GraphView, events: Seq<Event>)
    requires
        is_run(graph, events),
    ensures
        after_events(graph, events).dom() == graph.dom(),
        forall|name: Seq<char>| #[trigger]
            graph.contains_key(name) ==> after_events(graph, events)[name].service == graph[name].service,
    decreases events.len(),
{
    if events.len() > 0 {
        run_keeps_services(graph, events.drop_last());
        let before = after_events(graph, events.drop_last());
        assert(after_events(graph, events).dom() =~= before.dom());
    }
}

/// A service that has started after some events had started before them, or
/// one of them is the outcome zero of that service.
pub proof fn started_by_outcome(graph: GraphView, events: Seq<Event>, name: Seq<char>)
    requires
        after_events(graph, events).contains_key(name),
        after_events(graph, events)[name].status == ServiceStatus::Started,
    ensures
        (graph.contains_key(name) && graph[name].status == ServiceStatus::Started) || exists|i: int|
            0 <= i < events.len() && #[trigger] events[i] == Event::Ended(name, Ok::<usize, OsError>(0)),
    decreases events.len(),
{
    if events.len() > 0 {
        let front = events.drop_last();
        let before = after_events(graph, front);
        let touched = match events.last() {
            Event::Launched(other) => other,
            Event::Ended(other, _) => other,
        };
        if touched == name {
            assert(events[events.len() - 1] == events.last());
        } else {
            assert(before.contains_key(name) && before[name].status == ServiceStatus::Started);
            started_by_outcome(graph, front, name);
            if !(graph.contains_key(name) && graph[name].status == ServiceStatus::Started) {
                let i = choose|i: int|
                    0 <= i < front.len() && #[trigger] front[i] == Event::Ended(name, Ok::<usize, OsError>(0));
                assert(events[i] == front[i]);
            }
        }
    }
}

/// A service is launched only after each of its dependencies has started:
/// where a run launches a service, every known service that it depends on had
/// started before the run, or its outcome zero came in earlier in the run.
pub proof fn launched_after_started(
    graph: GraphView,
    events: Seq<Event>,
    at: int,
    name: Seq<char>,
    dep: Seq<char>,
)
    requires
        is_run(graph, events),
        0 <= at < events.len(),
        events[at] == Event::Launched(name),
        graph[name].service.depends_on(dep),
        graph.contains_key(dep),
    ensures
        graph[dep].status == ServiceStatus::Started || exists|i: int|
            0 <= i < at && #[trigger] events[i] == Event::Ended(dep, Ok::<usize, OsError>(0)),
{
    let earlier = events.take(at);
    run_begins_with_run(graph, events, at);
    run_keeps_services(graph, earlier);
    let then = after_events(graph, earlier);
    assert(eligible(then, name));
    assert(graph.contains_key(name));
    assert(then[name].service.depends_on(dep));
    assert(satisfied(then, dep));
    assert(then.contains_key(dep));
    started_by_outcome(graph, earlier, dep);
    if graph[dep].status != ServiceStatus::Started {
        let i = choose|i: int|
            0 <= i < earlier.len() && #[trigger] earlier[i] == Event::Ended(dep, Ok::<usize, OsError>(0));
        assert(events[i] == earlier[i]);
    }
}

} // verus!
