//! The dependency graph of the services and the scheduler that drives it.

use vstd::prelude::*;
use crate::command::{Command, CommandView};
use crate::error::OsError;
use crate::process::{asked, Process};
use crate::readiness::{
    advanced, advanced_by_launch, advanced_by_outcome, advanced_from_itself, after_events, eligible,
    eligible_kept, is_run, outcomes, pushed, pushed_all, satisfied, settled, status_after, with_status,
    EntryView, Event, GraphView, ServiceStatus,
};
use crate::service::{Service, ServiceView};
use crate::text::same;

verus! {

/// The services that are known, each with its descriptor and its status. No
/// two services have the same name, and between two calls no service is
/// `Starting`.
pub struct ServiceGraph {
    services: Vec<Service>,
    statuses: Vec<ServiceStatus>,
}

/// The services in the order in which they are kept, each with its status.
spec fn nodes(services: Seq<ServiceView>, statuses: Seq<ServiceStatus>) -> Seq<EntryView> {
    Seq::new(services.len(), |i: int| EntryView { service: services[i], status: statuses[i] })
}

/// No two of the services have the same name.
spec fn names_distinct(services: Seq<ServiceView>) -> bool {
    forall|i: int, j: int| 0 <= i < j < services.len() ==> (#[trigger] services[i]).name != (
    #[trigger] services[j]).name
}

/// Some service of the list is named `name`.
spec fn known(services: Seq<ServiceView>, name: Seq<char>) -> bool {
    exists|i: int| 0 <= i < services.len() && (#[trigger] services[i]).name == name
}

/// The place of a service named `name`.
spec fn place(services: Seq<ServiceView>, name: Seq<char>) -> int {
    choose|i: int| 0 <= i < services.len() && (#[trigger] services[i]).name == name
}

/// The services by name.
spec fn as_map(services: Seq<ServiceView>, statuses: Seq<ServiceStatus>) -> GraphView {
    Map::new(
        |name: Seq<char>| known(services, name),
        |name: Seq<char>| nodes(services, statuses)[place(services, name)],
    )
}

/// The number of services that are pending.
spec fn pending(statuses: Seq<ServiceStatus>) -> nat
    decreases statuses.len(),
{
    if statuses.len() == 0 {
        0
    } else {
        pending(statuses.drop_last()) + if statuses.last() == ServiceStatus::Pending {
            1nat
        } else {
            0nat
        }
    }
}

/// No service is starting.
spec fn none_starting(statuses: Seq<ServiceStatus>) -> bool {
    forall|i: int| 0 <= i < statuses.len() ==> #[trigger] statuses[i] != ServiceStatus::Starting
}

/// The service at a place is found under its name.
proof fn lemma_at(services: Seq<ServiceView>, statuses: Seq<ServiceStatus>, i: int)
    requires
        names_distinct(services),
        0 <= i < services.len(),
    ensures
        as_map(services, statuses).contains_key(services[i].name),
        as_map(services, statuses)[services[i].name] == (EntryView {
            service: services[i],
            status: statuses[i],
        }),
        place(services, services[i].name) == i,
{
    let at = place(services, services[i].name);
    if at < i {
        assert(services[at].name != services[i].name);
    } else if i < at {
        assert(services[i].name != services[at].name);
    }
}

/// A change of one status changes the entry of that service and no other.
proof fn lemma_status_set(
    services: Seq<ServiceView>,
    statuses: Seq<ServiceStatus>,
    i: int,
    status: ServiceStatus,
)
    requires
        names_distinct(services),
        0 <= i < services.len(),
        statuses.len() == services.len(),
    ensures
        as_map(services, statuses.update(i, status)) == with_status(
            as_map(services, statuses),
            services[i].name,
            status,
        ),
{
    let before = as_map(services, statuses);
    let after = as_map(services, statuses.update(i, status));
    lemma_at(services, statuses, i);
    assert forall|name: Seq<char>| #[trigger] after.contains_key(name) implies after[name] == with_status(
        before,
        services[i].name,
        status,
    )[name] by {
        let at = place(services, name);
        lemma_at(services, statuses, at);
    }
    assert(after =~= with_status(before, services[i].name, status));
}

/// A change of status from pending to another lowers the number of pending
/// services by one; a change between other statuses keeps it.
proof fn lemma_pending_set(statuses: Seq<ServiceStatus>, i: int, status: ServiceStatus)
    requires
        0 <= i < statuses.len(),
        status != ServiceStatus::Pending,
    ensures
        pending(statuses.update(i, status)) + (if statuses[i] == ServiceStatus::Pending {
            1nat
        } else {
            0nat
        }) == pending(statuses),
    decreases statuses.len(),
{
    let after = statuses.update(i, status);
    if i == statuses.len() - 1 {
        assert(after.drop_last() =~= statuses.drop_last());
    } else {
        assert(after.drop_last() =~= statuses.drop_last().update(i, status));
        lemma_pending_set(statuses.drop_last(), i, status);
    }
}

/// The graph knows as many names as it keeps services, and no more.
proof fn lemma_finite(services: Seq<ServiceView>, statuses: Seq<ServiceStatus>)
    requires
        names_distinct(services),
    ensures
        as_map(services, statuses).dom().finite(),
        as_map(services, statuses).dom().len() == services.len(),
    decreases services.len(),
{
    let dom = as_map(services, statuses).dom();
    if services.len() == 0 {
        assert(dom =~= Set::empty());
    } else {
        let front = services.drop_last();
        lemma_finite(front, statuses);
        let front_dom = as_map(front, statuses).dom();
        let last = services.last().name;
        assert(!front_dom.contains(last)) by {
            if known(front, last) {
                let i = place(front, last);
                assert(services[i].name != services[services.len() - 1].name);
            }
        }
        assert(dom =~= front_dom.insert(last)) by {
            assert forall|name: Seq<char>| dom.contains(name) <==> front_dom.insert(last).contains(
                name,
            ) by {
                if known(services, name) {
                    let i = place(services, name);
                    if i < front.len() {
                        assert(front[i].name == name);
                    }
                }
                if known(front, name) {
                    let i = place(front, name);
                    assert(services[i].name == name);
                }
                if name == last {
                    assert(services[services.len() - 1].name == name);
                }
            }
        }
    }
}

/// A descriptor that takes the place of one of the same name redefines that
/// service and keeps its status.
proof fn lemma_redefine(services: Seq<ServiceView>, statuses: Seq<ServiceStatus>, i: int, service: ServiceView)
    requires
        names_distinct(services),
        0 <= i < services.len(),
        statuses.len() == services.len(),
        service.name == services[i].name,
    ensures
        names_distinct(services.update(i, service)),
        as_map(services.update(i, service), statuses) == pushed(as_map(services, statuses), service),
{
    let next = services.update(i, service);
    assert forall|a: int, b: int| 0 <= a < b < next.len() implies (#[trigger] next[a]).name != (
    #[trigger] next[b]).name by {
        assert(services[a].name != services[b].name);
    }
    let before = as_map(services, statuses);
    let after = as_map(next, statuses);
    lemma_at(services, statuses, i);
    lemma_at(next, statuses, i);
    assert forall|name: Seq<char>| after.contains_key(name) <==> pushed(before, service).contains_key(
        name,
    ) by {
        if known(next, name) {
            let at = place(next, name);
            assert(services[at].name == name);
        }
        if known(services, name) {
            let at = place(services, name);
            assert(next[at].name == name);
        }
    }
    assert forall|name: Seq<char>| #[trigger] after.contains_key(name) implies after[name] == pushed(
        before,
        service,
    )[name] by {
        let at = place(next, name);
        lemma_at(next, statuses, at);
        if at != i {
            assert(services[at].name == name);
            lemma_at(services, statuses, at);
        }
    }
    assert(after =~= pushed(before, service));
}

/// A descriptor of a new name adds a pending service.
proof fn lemma_add(services: Seq<ServiceView>, statuses: Seq<ServiceStatus>, service: ServiceView)
    requires
        names_distinct(services),
        statuses.len() == services.len(),
        !known(services, service.name),
    ensures
        names_distinct(services.push(service)),
        as_map(services.push(service), statuses.push(ServiceStatus::Pending)) == pushed(
            as_map(services, statuses),
            service,
        ),
{
    let next = services.push(service);
    let next_statuses = statuses.push(ServiceStatus::Pending);
    assert forall|a: int, b: int| 0 <= a < b < next.len() implies (#[trigger] next[a]).name != (
    #[trigger] next[b]).name by {
        if b < services.len() {
            assert(services[a].name != services[b].name);
        } else {
            assert(services[a].name != service.name);
        }
    }
    let before = as_map(services, statuses);
    let after = as_map(next, next_statuses);
    assert forall|name: Seq<char>| after.contains_key(name) <==> pushed(before, service).contains_key(
        name,
    ) by {
        if known(next, name) {
            let at = place(next, name);
            if at < services.len() {
                assert(services[at].name == name);
            }
        }
        if known(services, name) {
            let at = place(services, name);
            assert(next[at].name == name);
        }
        if name == service.name {
            assert(next[services.len() as int].name == name);
        }
    }
    assert forall|name: Seq<char>| #[trigger] after.contains_key(name) implies after[name] == pushed(
        before,
        service,
    )[name] by {
        let at = place(next, name);
        lemma_at(next, next_statuses, at);
        if at < services.len() {
            assert(services[at].name == name);
            lemma_at(services, statuses, at);
        }
    }
    assert(after =~= pushed(before, service));
}

impl View for ServiceGraph {
    type V = GraphView;

    closed spec fn view(&self) -> GraphView {
        as_map(self.services.deep_view(), self.statuses@)
    }
}

/// The place of the service named `name`, if there is one.
fn find(services: &Vec<Service>, name: &str) -> (found: Option<usize>)
    ensures
        match found {
            Some(i) => i < services.len() && services.deep_view()[i as int].name == name@,
            None => !known(services.deep_view(), name@),
        },
{
    let mut i: usize = 0;
    while i < services.len()
        invariant
            i <= services.len(),
            forall|k: int| 0 <= k < i ==> (#[trigger] services.deep_view()[k]).name != name@,
        decreases services.len() - i,
    {
        if same(services[i].name(), name) {
            return Some(i);
        }
        i += 1;
    }
    None
}

/// Tells whether the service at place `i` may be launched.
fn may_launch(services: &Vec<Service>, statuses: &Vec<ServiceStatus>, i: usize) -> (yes: bool)
    requires
        i < services.len(),
        statuses.len() == services.len(),
        names_distinct(services.deep_view()),
    ensures
        yes == eligible(as_map(services.deep_view(), statuses@), services.deep_view()[i as int].name),
{
    let ghost list = services.deep_view();
    let ghost graph = as_map(list, statuses@);
    let ghost name = list[i as int].name;
    proof {
        lemma_at(list, statuses@, i as int);
    }
    match statuses[i] {
        ServiceStatus::Pending => {},
        _ => {
            return false;
        },
    }
    let deps = services[i].dependencies();
    let mut k: usize = 0;
    while k < deps.len()
        invariant
            k <= deps.len(),
            i < services.len(),
            statuses.len() == services.len(),
            list == services.deep_view(),
            graph == as_map(list, statuses@),
            names_distinct(list),
            name == list[i as int].name,
            graph.contains_key(name),
            graph[name].status == ServiceStatus::Pending,
            deps.deep_view() == graph[name].service.dependencies,
            forall|d: int| 0 <= d < k ==> satisfied(graph, #[trigger] deps.deep_view()[d]),
        decreases deps.len() - k,
    {
        let ghost dep = deps.deep_view()[k as int];
        match find(services, deps[k].as_str()) {
            Some(j) => {
                proof {
                    lemma_at(list, statuses@, j as int);
                }
                match statuses[j] {
                    ServiceStatus::Started => {},
                    _ => {
                        assert(graph[name].service.depends_on(dep));
                        assert(!satisfied(graph, dep));
                        return false;
                    },
                }
            },
            None => {},
        }
        k += 1;
    }
    proof {
        assert forall|dep: Seq<char>| #[trigger] graph[name].service.depends_on(dep) implies satisfied(
            graph,
            dep,
        ) by {
            let d = choose|d: int| 0 <= d < deps.deep_view().len() && deps.deep_view()[d] == dep;
            assert(satisfied(graph, deps.deep_view()[d]));
        }
    }
    true
}

/// The places of the services that may be launched, in rising order.
fn launchable(services: &Vec<Service>, statuses: &Vec<ServiceStatus>) -> (batch: Vec<usize>)
    requires
        statuses.len() == services.len(),
        names_distinct(services.deep_view()),
    ensures
        forall|k: int| 0 <= k < batch.len() ==> #[trigger] batch[k] < services.len(),
        forall|k: int, l: int| 0 <= k < l < batch.len() ==> batch[k] < batch[l],
        forall|k: int|
            0 <= k < batch.len() ==> eligible(
                as_map(services.deep_view(), statuses@),
                services.deep_view()[#[trigger] batch[k] as int].name,
            ),
        batch.len() == 0 ==> forall|i: int|
            0 <= i < services.len() ==> !eligible(
                as_map(services.deep_view(), statuses@),
                (#[trigger] services.deep_view()[i]).name,
            ),
{
    let mut batch: Vec<usize> = Vec::new();
    let mut i: usize = 0;
    while i < services.len()
        invariant
            i <= services.len(),
            statuses.len() == services.len(),
            names_distinct(services.deep_view()),
            forall|k: int| 0 <= k < batch.len() ==> #[trigger] batch[k] < i,
            forall|k: int, l: int| 0 <= k < l < batch.len() ==> batch[k] < batch[l],
            forall|k: int|
                0 <= k < batch.len() ==> eligible(
                    as_map(services.deep_view(), statuses@),
                    services.deep_view()[#[trigger] batch[k] as int].name,
                ),
            batch.len() == 0 ==> forall|j: int|
                0 <= j < i ==> !eligible(
                    as_map(services.deep_view(), statuses@),
                    (#[trigger] services.deep_view()[j]).name,
                ),
        decreases services.len() - i,
    {
        if may_launch(services, statuses, i) {
            batch.push(i);
        }
        i += 1;
    }
    batch
}

/// What a scheduling pass reports of one service that it launched: the name,
/// and the exit status of the process or the error that kept it from running.
pub type Outcome = (String, Result<usize, OsError>);

/// The report names the service `name`.
pub open spec fn reported(report: Seq<Outcome>, name: Seq<char>) -> bool {
    exists|k: int| 0 <= k < report.len() && (#[trigger] report[k]).0@ == name
}

/// `launch` may answer `command` with the handle `process`.
pub open spec fn launched<F: Fn(Command) -> Result<Process, OsError>>(
    launch: F,
    command: CommandView,
    process: Process,
) -> bool {
    exists|given: Command| given@ == command && call_ensures(launch, (given,), Ok::<Process, OsError>(process))
}

/// The outcome is one that launching `command` may end with: the error with
/// which `launch` may answer, or what a wait for the process that it may
/// launch reports, which is the status that the handle holds or, where it
/// holds none, the kernel's answer to a wait for that process.
pub open spec fn came_of<F: Fn(Command) -> Result<Process, OsError>>(
    launch: F,
    command: CommandView,
    outcome: Result<usize, OsError>,
) -> bool {
    ||| exists|given: Command, err: OsError|
        given@ == command && call_ensures(launch, (given,), Err::<Process, OsError>(err)) && outcome == Err::<
            usize,
            OsError,
        >(err)
    ||| exists|process: Process| #[trigger]
        launched(launch, command, process) && outcome == process@.reports(outcome) && (process@.status
            is None ==> asked(process@.pid, outcome))
}

/// The report of a scheduling pass is true and complete. Each item names a
/// service that was pending before the pass; its outcome came of launching
/// the command of that service, and the service now has the status that the
/// outcome gives. No service is named twice, and every service that has left
/// `Pending` is named.
pub open spec fn accounts_for<F: Fn(Command) -> Result<Process, OsError>>(
    launch: F,
    before: GraphView,
    after: GraphView,
    report: Seq<Outcome>,
) -> bool {
    &&& forall|k: int|
        0 <= k < report.len() ==> before.contains_key((#[trigger] report[k]).0@)
            && before[report[k].0@].status == ServiceStatus::Pending && after[report[k].0@].status
            == status_after(report[k].1) && came_of(launch, before[report[k].0@].service.command, report[k].1)
    &&& forall|k: int, l: int| 0 <= k < l < report.len() ==> (#[trigger] report[k]).0@ != (#[trigger] report[l]).0@
    &&& forall|name: Seq<char>|
        before.contains_key(name) && before[name].status == ServiceStatus::Pending && #[trigger] after[name].status
            != ServiceStatus::Pending ==> reported(report, name)
}

/// The items of the report as name and outcome.
pub open spec fn named(report: Seq<Outcome>) -> Seq<(Seq<char>, Result<usize, OsError>)> {
    Seq::new(report.len(), |k: int| (report[k].0@, report[k].1))
}

/// The events are what the pass did, in order: each could happen when its
/// turn came, they lead from the graph before the pass to the graph after
/// it, and the outcomes among them are the report.
pub open spec fn follows(before: GraphView, after: GraphView, report: Seq<Outcome>, events: Seq<Event>) -> bool {
    &&& is_run(before, events)
    &&& after_events(before, events) == after
    &&& outcomes(events) == named(report)
}

/// What the loops of a scheduling pass keep true of the events so far.
spec fn in_run(
    services: Seq<ServiceView>,
    before: Seq<ServiceStatus>,
    statuses: Seq<ServiceStatus>,
    report: Seq<Outcome>,
    events: Seq<Event>,
) -> bool {
    &&& names_distinct(services)
    &&& statuses.len() == services.len()
    &&& follows(as_map(services, before), as_map(services, statuses), report, events)
}

/// The launch of a service that may be launched goes on the run.
proof fn lemma_run_launch(
    services: Seq<ServiceView>,
    before: Seq<ServiceStatus>,
    statuses: Seq<ServiceStatus>,
    report: Seq<Outcome>,
    events: Seq<Event>,
    i: int,
)
    requires
        in_run(services, before, statuses, report, events),
        0 <= i < services.len(),
        eligible(as_map(services, statuses), services[i].name),
    ensures
        in_run(
            services,
            before,
            statuses.update(i, ServiceStatus::Starting),
            report,
            events.push(Event::Launched(services[i].name)),
        ),
{
    let more = events.push(Event::Launched(services[i].name));
    assert(more.drop_last() =~= events);
    lemma_status_set(services, statuses, i, ServiceStatus::Starting);
}

/// The outcome of a starting service goes on the run and into the report.
proof fn lemma_run_outcome(
    services: Seq<ServiceView>,
    before: Seq<ServiceStatus>,
    statuses: Seq<ServiceStatus>,
    report: Seq<Outcome>,
    events: Seq<Event>,
    i: int,
    item: Outcome,
)
    requires
        in_run(services, before, statuses, report, events),
        0 <= i < services.len(),
        statuses[i] == ServiceStatus::Starting,
        item.0@ == services[i].name,
    ensures
        in_run(
            services,
            before,
            statuses.update(i, status_after(item.1)),
            report.push(item),
            events.push(Event::Ended(services[i].name, item.1)),
        ),
{
    let more = events.push(Event::Ended(services[i].name, item.1));
    assert(more.drop_last() =~= events);
    lemma_at(services, statuses, i);
    lemma_status_set(services, statuses, i, status_after(item.1));
    assert(named(report.push(item)) =~= named(report).push((item.0@, item.1)));
}

/// The report item is true of a service: the service was pending when the
/// pass began, and its status is the one that the reported outcome gives.
spec fn accounted<F: Fn(Command) -> Result<Process, OsError>>(
    launch: F,
    services: Seq<ServiceView>,
    before: Seq<ServiceStatus>,
    statuses: Seq<ServiceStatus>,
    item: Outcome,
) -> bool {
    exists|i: int|
        0 <= i < services.len() && (#[trigger] services[i]).name == item.0@ && before[i]
            == ServiceStatus::Pending && statuses[i] == status_after(item.1) && came_of(
            launch,
            services[i].command,
            item.1,
        )
}

/// The place of the service of which the report item is true.
spec fn witness<F: Fn(Command) -> Result<Process, OsError>>(
    launch: F,
    services: Seq<ServiceView>,
    before: Seq<ServiceStatus>,
    statuses: Seq<ServiceStatus>,
    item: Outcome,
) -> int {
    choose|i: int|
        0 <= i < services.len() && (#[trigger] services[i]).name == item.0@ && before[i]
            == ServiceStatus::Pending && statuses[i] == status_after(item.1) && came_of(
            launch,
            services[i].command,
            item.1,
        )
}

/// What the loops of a scheduling pass keep true of the services, their
/// statuses before the pass and now, and the report so far.
spec fn in_pass<F: Fn(Command) -> Result<Process, OsError>>(
    launch: F,
    services: Seq<ServiceView>,
    before: Seq<ServiceStatus>,
    statuses: Seq<ServiceStatus>,
    report: Seq<Outcome>,
) -> bool {
    &&& names_distinct(services)
    &&& before.len() == services.len()
    &&& statuses.len() == services.len()
    &&& none_starting(before)
    &&& advanced(as_map(services, before), as_map(services, statuses))
    &&& forall|k: int|
        0 <= k < report.len() ==> accounted(launch, services, before, statuses, #[trigger] report[k])
    &&& forall|k: int, l: int| 0 <= k < l < report.len() ==> (#[trigger] report[k]).0@ != (#[trigger] report[l]).0@
    &&& forall|i: int|
        0 <= i < services.len() && before[i] == ServiceStatus::Pending && (#[trigger] statuses[i]
            == ServiceStatus::Started || statuses[i] == ServiceStatus::Failed) ==> reported(
            report,
            services[i].name,
        )
}

/// The process was launched for a service that is starting now and was
/// pending when the pass began.
spec fn is_running<F: Fn(Command) -> Result<Process, OsError>>(
    launch: F,
    services: Seq<ServiceView>,
    before: Seq<ServiceStatus>,
    statuses: Seq<ServiceStatus>,
    entry: (usize, Process),
) -> bool {
    &&& entry.0 < services.len()
    &&& statuses[entry.0 as int] == ServiceStatus::Starting
    &&& before[entry.0 as int] == ServiceStatus::Pending
    &&& launched(launch, services[entry.0 as int].command, entry.1)
}

/// The processes that have been launched and not yet waited for belong to
/// the services that are starting, one to each.
spec fn all_running<F: Fn(Command) -> Result<Process, OsError>>(
    launch: F,
    services: Seq<ServiceView>,
    before: Seq<ServiceStatus>,
    statuses: Seq<ServiceStatus>,
    running: Seq<(usize, Process)>,
) -> bool {
    &&& forall|r: int| 0 <= r < running.len() ==> is_running(launch, services, before, statuses, #[trigger] running[r])
    &&& forall|r: int, s: int| 0 <= r < s < running.len() ==> (#[trigger] running[r]).0 != (#[trigger] running[s]).0
    &&& forall|i: int|
        0 <= i < statuses.len() && #[trigger] statuses[i] == ServiceStatus::Starting ==> exists|r: int|
            0 <= r < running.len() && (#[trigger] running[r]).0 == i
}

/// A process that was launched for the one starting service that has none
/// joins the running ones.
proof fn lemma_joins<F: Fn(Command) -> Result<Process, OsError>>(
    launch: F,
    services: Seq<ServiceView>,
    before: Seq<ServiceStatus>,
    statuses: Seq<ServiceStatus>,
    running: Seq<(usize, Process)>,
    entry: (usize, Process),
)
    requires
        statuses.len() == services.len(),
        is_running(launch, services, before, statuses, entry),
        forall|r: int| 0 <= r < running.len() ==> is_running(launch, services, before, statuses, #[trigger] running[r]),
        forall|r: int, s: int| 0 <= r < s < running.len() ==> (#[trigger] running[r]).0 != (#[trigger] running[s]).0,
        forall|r: int| 0 <= r < running.len() ==> (#[trigger] running[r]).0 != entry.0,
        forall|i: int|
            0 <= i < statuses.len() && i != entry.0 && #[trigger] statuses[i] == ServiceStatus::Starting
                ==> exists|r: int| 0 <= r < running.len() && (#[trigger] running[r]).0 == i,
    ensures
        all_running(launch, services, before, statuses, running.push(entry)),
{
    let more = running.push(entry);
    assert forall|r: int| 0 <= r < more.len() implies is_running(
        launch,
        services,
        before,
        statuses,
        #[trigger] more[r],
    ) by {
        if r < running.len() {
            assert(more[r] == running[r]);
        }
    }
    assert forall|r: int, s: int| 0 <= r < s < more.len() implies (#[trigger] more[r]).0 != (
    #[trigger] more[s]).0 by {
        assert(more[r] == running[r]);
        if s < running.len() {
            assert(more[s] == running[s]);
        }
    }
    assert forall|i: int|
        0 <= i < statuses.len() && #[trigger] statuses[i] == ServiceStatus::Starting implies exists|r: int|
        0 <= r < more.len() && (#[trigger] more[r]).0 == i by {
        if i == entry.0 {
            assert(more[running.len() as int].0 == i);
        } else {
            let r = choose|r: int| 0 <= r < running.len() && (#[trigger] running[r]).0 == i;
            assert(more[r] == running[r]);
        }
    }
}

/// When a starting service whose process is not among the running ones takes
/// its final status, the running ones stay what they are.
proof fn lemma_leaves<F: Fn(Command) -> Result<Process, OsError>>(
    launch: F,
    services: Seq<ServiceView>,
    before: Seq<ServiceStatus>,
    statuses: Seq<ServiceStatus>,
    running: Seq<(usize, Process)>,
    i: int,
    status: ServiceStatus,
)
    requires
        0 <= i < statuses.len(),
        statuses.len() == services.len(),
        status != ServiceStatus::Starting,
        forall|r: int| 0 <= r < running.len() ==> is_running(launch, services, before, statuses, #[trigger] running[r]),
        forall|r: int, s: int| 0 <= r < s < running.len() ==> (#[trigger] running[r]).0 != (#[trigger] running[s]).0,
        forall|r: int| 0 <= r < running.len() ==> (#[trigger] running[r]).0 != i,
        forall|j: int|
            0 <= j < statuses.len() && j != i && #[trigger] statuses[j] == ServiceStatus::Starting
                ==> exists|r: int| 0 <= r < running.len() && (#[trigger] running[r]).0 == j,
    ensures
        all_running(launch, services, before, statuses.update(i, status), running),
{
    let next = statuses.update(i, status);
    assert forall|r: int| 0 <= r < running.len() implies is_running(
        launch,
        services,
        before,
        next,
        #[trigger] running[r],
    ) by {
        assert(is_running(launch, services, before, statuses, running[r]));
        assert(next[running[r].0 as int] == statuses[running[r].0 as int]);
    }
    assert forall|j: int|
        0 <= j < next.len() && #[trigger] next[j] == ServiceStatus::Starting implies exists|r: int|
        0 <= r < running.len() && (#[trigger] running[r]).0 == j by {
        assert(statuses[j] == ServiceStatus::Starting);
    }
}

/// A service that may be launched goes to `Starting`.
proof fn lemma_launch<F: Fn(Command) -> Result<Process, OsError>>(
    launch: F,
    services: Seq<ServiceView>,
    before: Seq<ServiceStatus>,
    statuses: Seq<ServiceStatus>,
    report: Seq<Outcome>,
    i: int,
)
    requires
        in_pass(launch, services, before, statuses, report),
        0 <= i < services.len(),
        eligible(as_map(services, statuses), services[i].name),
    ensures
        statuses[i] == ServiceStatus::Pending,
        in_pass(launch, services, before, statuses.update(i, ServiceStatus::Starting), report),
        pending(statuses.update(i, ServiceStatus::Starting)) + 1 == pending(statuses),
        forall|j: int|
            0 <= j < services.len() && j != i && eligible(
                as_map(services, statuses),
                (#[trigger] services[j]).name,
            ) ==> eligible(
                as_map(services, statuses.update(i, ServiceStatus::Starting)),
                services[j].name,
            ),
{
    let next = statuses.update(i, ServiceStatus::Starting);
    let graph = as_map(services, statuses);
    lemma_at(services, statuses, i);
    lemma_status_set(services, statuses, i, ServiceStatus::Starting);
    advanced_by_launch(as_map(services, before), graph, services[i].name);
    lemma_pending_set(statuses, i, ServiceStatus::Starting);
    assert forall|k: int| 0 <= k < report.len() implies accounted(
        launch,
        services,
        before,
        next,
        #[trigger] report[k],
    ) by {
        let at = witness(launch, services, before, statuses, report[k]);
        assert(next[at] == statuses[at]);
    }
    assert forall|j: int|
        0 <= j < services.len() && j != i && eligible(graph, (#[trigger] services[j]).name) implies eligible(
        as_map(services, next),
        services[j].name,
    ) by {
        if j < i {
            assert(services[j].name != services[i].name);
        } else {
            assert(services[i].name != services[j].name);
        }
        eligible_kept(graph, services[i].name, ServiceStatus::Starting, services[j].name);
    }
}

/// A service that is starting goes to the status that its outcome gives, and
/// the outcome goes into the report.
proof fn lemma_outcome<F: Fn(Command) -> Result<Process, OsError>>(
    launch: F,
    services: Seq<ServiceView>,
    before: Seq<ServiceStatus>,
    statuses: Seq<ServiceStatus>,
    report: Seq<Outcome>,
    i: int,
    item: Outcome,
)
    requires
        in_pass(launch, services, before, statuses, report),
        0 <= i < services.len(),
        statuses[i] == ServiceStatus::Starting,
        before[i] == ServiceStatus::Pending,
        item.0@ == services[i].name,
        came_of(launch, services[i].command, item.1),
    ensures
        in_pass(launch, services, before, statuses.update(i, status_after(item.1)), report.push(item)),
        pending(statuses.update(i, status_after(item.1))) == pending(statuses),
        forall|j: int|
            0 <= j < services.len() && eligible(as_map(services, statuses), (#[trigger] services[j]).name)
                ==> eligible(as_map(services, statuses.update(i, status_after(item.1))), services[j].name),
{
    let status = status_after(item.1);
    let next = statuses.update(i, status);
    let more = report.push(item);
    let graph = as_map(services, statuses);
    lemma_at(services, statuses, i);
    lemma_status_set(services, statuses, i, status);
    advanced_by_outcome(as_map(services, before), graph, services[i].name, status);
    lemma_pending_set(statuses, i, status);
    assert forall|k: int| 0 <= k < more.len() implies accounted(
        launch,
        services,
        before,
        next,
        #[trigger] more[k],
    ) by {
        if k < report.len() {
            assert(more[k] == report[k]);
            let at = witness(launch, services, before, statuses, report[k]);
            assert(next[at] == statuses[at]);
        } else {
            assert(services[i].name == item.0@ && next[i] == status);
        }
    }
    assert forall|k: int, l: int| 0 <= k < l < more.len() implies (#[trigger] more[k]).0@ != (
    #[trigger] more[l]).0@ by {
        assert(more[k] == report[k]);
        if l < report.len() {
            assert(more[l] == report[l]);
        } else {
            let at = witness(launch, services, before, statuses, report[k]);
            if at < i {
                assert(services[at].name != services[i].name);
            } else if i < at {
                assert(services[i].name != services[at].name);
            }
        }
    }
    assert forall|j: int|
        0 <= j < services.len() && before[j] == ServiceStatus::Pending && (#[trigger] next[j]
            == ServiceStatus::Started || next[j] == ServiceStatus::Failed) implies reported(
        more,
        services[j].name,
    ) by {
        if j == i {
            assert(more[report.len() as int].0@ == services[j].name);
        } else {
            assert(statuses[j] == next[j]);
            let k = choose|k: int| 0 <= k < report.len() && (#[trigger] report[k]).0@ == services[j].name;
            assert(more[k] == report[k]);
        }
    }
    assert forall|j: int|
        0 <= j < services.len() && eligible(graph, (#[trigger] services[j]).name) implies eligible(
        as_map(services, next),
        services[j].name,
    ) by {
        lemma_at(services, statuses, j);
        if j < i {
            assert(services[j].name != services[i].name);
        } else if i < j {
            assert(services[i].name != services[j].name);
        }
        eligible_kept(graph, services[i].name, status, services[j].name);
    }
}

/// What a pass has kept true says of the graph what its contract promises.
proof fn lemma_pass_done<F: Fn(Command) -> Result<Process, OsError>>(
    launch: F,
    services: Seq<ServiceView>,
    before: Seq<ServiceStatus>,
    statuses: Seq<ServiceStatus>,
    report: Seq<Outcome>,
)
    requires
        in_pass(launch, services, before, statuses, report),
        none_starting(statuses),
        forall|i: int|
            0 <= i < services.len() ==> !eligible(as_map(services, statuses), (#[trigger] services[i]).name),
    ensures
        settled(as_map(services, statuses)),
        accounts_for(launch, as_map(services, before), as_map(services, statuses), report),
{
    let old_graph = as_map(services, before);
    let graph = as_map(services, statuses);
    assert forall|name: Seq<char>| #[trigger] graph.contains_key(name) implies graph[name].status
        != ServiceStatus::Starting && !eligible(graph, name) by {
        let i = place(services, name);
        lemma_at(services, statuses, i);
    }
    assert forall|k: int| 0 <= k < report.len() implies old_graph.contains_key((#[trigger] report[k]).0@)
        && old_graph[report[k].0@].status == ServiceStatus::Pending && graph[report[k].0@].status
        == status_after(report[k].1) && came_of(
        launch,
        old_graph[report[k].0@].service.command,
        report[k].1,
    ) by {
        let at = witness(launch, services, before, statuses, report[k]);
        lemma_at(services, statuses, at);
        lemma_at(services, before, at);
    }
    assert forall|name: Seq<char>|
        old_graph.contains_key(name) && old_graph[name].status == ServiceStatus::Pending && #[trigger] graph[name].status
            != ServiceStatus::Pending implies reported(report, name) by {
        let i = place(services, name);
        lemma_at(services, statuses, i);
        lemma_at(services, before, i);
    }
}

impl ServiceGraph {
    #[verifier::type_invariant]
    spec fn inv(&self) -> bool {
        &&& self.statuses.len() == self.services.len()
        &&& names_distinct(self.services.deep_view())
        &&& none_starting(self.statuses@)
    }

    /// A graph without services.
    pub fn new() -> (graph: ServiceGraph)
        ensures
            graph@ == GraphView::empty(),
    {
        let graph = ServiceGraph { services: Vec::new(), statuses: Vec::new() };
        assert(graph@ =~= GraphView::empty());
        graph
    }

    /// The number of services.
    pub fn len(&self) -> (len: usize)
        ensures
            self@.dom().finite(),
            len == self@.dom().len(),
    {
        proof {
            use_type_invariant(self);
            lemma_finite(self.services.deep_view(), self.statuses@);
        }
        self.services.len()
    }

    /// Adds the descriptors one after the other. A new name comes in as a
    /// pending service; a known name takes the new descriptor and keeps its
    /// status.
    pub fn push_services(&mut self, services: Vec<Service>)
        ensures
            final(self)@ == pushed_all(old(self)@, services.deep_view()),
    {
        proof {
            use_type_invariant(&*self);
        }
        let ghost before = self@;
        let ghost added = services.deep_view();
        let mut taken = ServiceGraph::new();
        std::mem::swap(self, &mut taken);
        let ServiceGraph { services: mut known, statuses: mut statuses } = taken;
        assert(added.take(0) =~= Seq::empty());
        for service in iter: services
            invariant
                statuses.len() == known.len(),
                names_distinct(known.deep_view()),
                none_starting(statuses@),
                iter.seq() == services@,
                added == services.deep_view(),
                as_map(known.deep_view(), statuses@) == pushed_all(before, added.take(iter.index())),
        {
            let ghost list = known.deep_view();
            let ghost at = iter.index();
            proof {
                assert(added.take(at + 1).drop_last() =~= added.take(at));
                assert(service@ == added[at]);
            }
            match find(&known, service.name()) {
                Some(i) => {
                    proof {
                        lemma_redefine(list, statuses@, i as int, service@);
                    }
                    known.set(i, service);
                    assert(known.deep_view() =~= list.update(i as int, added[at]));
                },
                None => {
                    proof {
                        lemma_add(list, statuses@, service@);
                    }
                    known.push(service);
                    statuses.push(ServiceStatus::Pending);
                    assert(known.deep_view() =~= list.push(added[at]));
                },
            }
        }
        assert(added.take(added.len() as int) =~= added);
        *self = ServiceGraph { services: known, statuses };
    }

    /// The status of the service `name`, if the graph knows it. It is never
    /// `Starting`: a scheduling pass waits for every process that it launched.
    pub fn status(&self, name: &str) -> (status: Option<ServiceStatus>)
        ensures
            status == if self@.contains_key(name@) {
                Some(self@[name@].status)
            } else {
                None
            },
            status != Some(ServiceStatus::Starting),
    {
        proof {
            use_type_invariant(self);
        }
        match find(&self.services, name) {
            Some(i) => {
                proof {
                    lemma_at(self.services.deep_view(), self.statuses@, i as int);
                }
                Some(self.statuses[i])
            },
            None => None,
        }
    }

    /// The names of the services that have the given status, each once.
    pub fn names_with(&self, status: ServiceStatus) -> (names: Vec<String>)
        ensures
            names.deep_view().no_duplicates(),
            forall|name: Seq<char>|
                names.deep_view().contains(name) <==> self@.contains_key(name) && self@[name].status
                    == status,
    {
        proof {
            use_type_invariant(self);
        }
        let ghost list = self.services.deep_view();
        let ghost graph = self@;
        let mut names: Vec<String> = Vec::new();
        let mut from: Ghost<Seq<int>> = Ghost(Seq::empty());
        let mut i: usize = 0;
        while i < self.services.len()
            invariant
                i <= self.services.len(),
                list == self.services.deep_view(),
                self.statuses.len() == self.services.len(),
                names_distinct(list),
                from@.len() == names.len(),
                forall|k: int|
                    0 <= k < names.len() ==> 0 <= #[trigger] from@[k] < i && names[k]@ == list[from@[k]].name
                        && self.statuses[from@[k]] == status,
                forall|k: int, l: int| 0 <= k < l < names.len() ==> from@[k] < from@[l],
                forall|j: int|
                    0 <= j < i && #[trigger] self.statuses[j] == status ==> exists|k: int|
                        0 <= k < names.len() && #[trigger] from@[k] == j,
            decreases self.services.len() - i,
        {
            let ghost so_far = from@;
            if self.statuses[i] == status {
                names.push(self.services[i].name().to_owned());
                proof {
                    from@ = so_far.push(i as int);
                    assert forall|j: int|
                        0 <= j < i + 1 && #[trigger] self.statuses[j] == status implies exists|k: int|
                        0 <= k < names.len() && #[trigger] from@[k] == j by {
                        if j < i {
                            let k = choose|k: int| 0 <= k < so_far.len() && #[trigger] so_far[k] == j;
                            assert(from@[k] == j);
                        } else {
                            assert(from@[so_far.len() as int] == j);
                        }
                    }
                }
            }
            i += 1;
        }
        proof {
            let found = names.deep_view();
            assert forall|k: int, l: int| 0 <= k < found.len() && 0 <= l < found.len() && k != l implies found[k]
                != found[l] by {
                if k < l {
                    assert(from@[k] < from@[l]);
                    assert(list[from@[k]].name != list[from@[l]].name);
                } else {
                    assert(from@[l] < from@[k]);
                    assert(list[from@[l]].name != list[from@[k]].name);
                }
            }
            assert forall|name: Seq<char>|
                found.contains(name) <==> graph.contains_key(name) && graph[name].status == status by {
                if found.contains(name) {
                    let k = choose|k: int| 0 <= k < found.len() && found[k] == name;
                    lemma_at(list, self.statuses@, from@[k]);
                }
                if graph.contains_key(name) && graph[name].status == status {
                    let j = place(list, name);
                    lemma_at(list, self.statuses@, j);
                    assert(self.statuses[j] == status);
                    let k = choose|k: int| 0 <= k < names.len() && #[trigger] from@[k] == j;
                    assert(found[k] == name);
                }
            }
        }
        names
    }

    /// Drives the graph as far as it goes. Again and again, every service
    /// that may be launched is marked `Starting` and its command is handed to
    /// `launch`; then each process that was launched is waited for, and its
    /// service becomes `Started` where the process exits with status zero and
    /// `Failed` otherwise. A service whose launch fails is `Failed` at once.
    /// The pass ends when no service may be launched; services that wait for
    /// a failed service or for each other are left `Pending`. The report
    /// lists every service that was launched, with its exit status or error,
    /// in the order in which the outcomes came in. What the pass did is a run
    /// of events, in which no service is launched before each of its known
    /// dependencies has started.
    pub fn start_services<F: Fn(Command) -> Result<Process, OsError>>(&mut self, launch: F) -> (report: Vec<
        Outcome,
    >)
        requires
            forall|command: Command| call_requires(launch, (command,)),
        ensures
            advanced(old(self)@, final(self)@),
            settled(final(self)@),
            accounts_for(launch, old(self)@, final(self)@, report@),
            exists|events: Seq<Event>| follows(old(self)@, final(self)@, report@, events),
    {
        proof {
            use_type_invariant(&*self);
        }
        let mut taken = ServiceGraph::new();
        std::mem::swap(self, &mut taken);
        let ServiceGraph { services, statuses: mut statuses } = taken;
        let ghost list = services.deep_view();
        let ghost before = statuses@;
        let mut report: Vec<Outcome> = Vec::new();
        let ghost mut events: Seq<Event> = Seq::empty();
        proof {
            advanced_from_itself(as_map(list, before));
            assert(named(report@) =~= outcomes(events));
        }
        loop
            invariant
                list == services.deep_view(),
                in_pass(launch, list, before, statuses@, report@),
                in_run(list, before, statuses@, report@, events),
                none_starting(statuses@),
                forall|command: Command| call_requires(launch, (command,)),
            ensures
                list == services.deep_view(),
                in_pass(launch, list, before, statuses@, report@),
                in_run(list, before, statuses@, report@, events),
                none_starting(statuses@),
                forall|i: int|
                    0 <= i < list.len() ==> !eligible(as_map(list, statuses@), (#[trigger] list[i]).name),
            decreases pending(statuses@),
        {
            let batch = launchable(&services, &statuses);
            if batch.len() == 0 {
                break ;
            }
            let ghost at_scan = pending(statuses@);
            let mut running: Vec<(usize, Process)> = Vec::new();
            let mut b: usize = 0;
            while b < batch.len()
                invariant
                    b <= batch.len(),
                    list == services.deep_view(),
                    in_pass(launch, list, before, statuses@, report@),
                    in_run(list, before, statuses@, report@, events),
                    all_running(launch, list, before, statuses@, running@),
                    forall|command: Command| call_requires(launch, (command,)),
                    forall|k: int| 0 <= k < batch.len() ==> #[trigger] batch[k] < services.len(),
                    forall|k: int, l: int| 0 <= k < l < batch.len() ==> batch[k] < batch[l],
                    forall|k: int|
                        b <= k < batch.len() ==> eligible(
                            as_map(list, statuses@),
                            list[#[trigger] batch[k] as int].name,
                        ),
                    forall|r: int, k: int|
                        0 <= r < running.len() && b <= k < batch.len() ==> (#[trigger] running[r]).0
                            != #[trigger] batch[k],
                    pending(statuses@) + b == at_scan,
                decreases batch.len() - b,
            {
                let i = batch[b];
                let ghost so_far = statuses@;
                let ghost were_running = running@;
                proof {
                    lemma_launch(launch, list, before, so_far, report@, i as int);
                    lemma_run_launch(list, before, so_far, report@, events, i as int);
                    lemma_at(list, before, i as int);
                    assert(as_map(list, before).contains_key(list[i as int].name));
                    assert(before[i as int] != ServiceStatus::Starting);
                }
                statuses.set(i, ServiceStatus::Starting);
                proof {
                    events = events.push(Event::Launched(list[i as int].name));
                    assert forall|k: int| b < k < batch.len() implies eligible(
                        as_map(list, statuses@),
                        list[#[trigger] batch[k] as int].name,
                    ) by {
                        assert(batch[b as int] < batch[k]);
                        assert(eligible(as_map(list, so_far), list[batch[k] as int].name));
                    }
                    assert forall|r: int| 0 <= r < were_running.len() implies is_running(
                        launch,
                        list,
                        before,
                        statuses@,
                        #[trigger] were_running[r],
                    ) by {
                        assert(is_running(launch, list, before, so_far, were_running[r]));
                        assert(were_running[r].0 != batch[b as int]);
                    }
                }
                let command = services[i].command();
                match launch(command) {
                    Ok(process) => {
                        running.push((i, process));
                        proof {
                            assert(launched(launch, list[i as int].command, process));
                            lemma_joins(launch, list, before, statuses@, were_running, (i, process));
                            assert forall|r: int, k: int|
                                0 <= r < running.len() && b + 1 <= k < batch.len() implies (
                            #[trigger] running[r]).0 != #[trigger] batch[k] by {
                                if r < were_running.len() {
                                    assert(running[r] == were_running[r]);
                                } else {
                                    assert(batch[b as int] < batch[k]);
                                }
                            }
                        }
                    },
                    Err(err) => {
                        let item: Outcome = (services[i].name().to_owned(), Err(err));
                        let ghost starting = statuses@;
                        proof {
                            lemma_outcome(launch, list, before, starting, report@, i as int, item);
                            lemma_run_outcome(list, before, starting, report@, events, i as int, item);
                            lemma_leaves(launch, list, before, starting, running@, i as int, ServiceStatus::Failed);
                        }
                        statuses.set(i, ServiceStatus::Failed);
                        report.push(item);
                        proof {
                            events = events.push(Event::Ended(list[i as int].name, item.1));
                            assert forall|k: int| b < k < batch.len() implies eligible(
                                as_map(list, statuses@),
                                list[#[trigger] batch[k] as int].name,
                            ) by {
                                assert(eligible(as_map(list, starting), list[batch[k] as int].name));
                            }
                        }
                    },
                }
                b += 1;
            }
            while running.len() > 0
                invariant
                    list == services.deep_view(),
                    in_pass(launch, list, before, statuses@, report@),
                    in_run(list, before, statuses@, report@, events),
                    all_running(launch, list, before, statuses@, running@),
                    pending(statuses@) < at_scan,
                decreases running.len(),
            {
                let ghost were_running = running@;
                let ghost so_far = statuses@;
                let (i, mut process) = running.pop().unwrap();
                let ghost handle = process;
                let outcome = process.wait();
                let status = ServiceStatus::after(&outcome);
                let item: Outcome = (services[i].name().to_owned(), outcome);
                proof {
                    assert(were_running[were_running.len() - 1] == (i, handle));
                    assert(is_running(launch, list, before, so_far, were_running[were_running.len() - 1]));
                    lemma_outcome(launch, list, before, so_far, report@, i as int, item);
                    lemma_run_outcome(list, before, so_far, report@, events, i as int, item);
                    assert(were_running =~= running@.push((i, handle)));
                    lemma_leaves(launch, list, before, so_far, running@, i as int, status);
                }
                statuses.set(i, status);
                report.push(item);
                proof {
                    events = events.push(Event::Ended(list[i as int].name, item.1));
                }
            }
            proof {
                assert forall|i: int| 0 <= i < statuses.len() implies #[trigger] statuses[i]
                    != ServiceStatus::Starting by {
                    if statuses[i] == ServiceStatus::Starting {
                        let r = choose|r: int| 0 <= r < running.len() && (#[trigger] running[r]).0 == i;
                    }
                }
            }
        }
        proof {
            lemma_pass_done(launch, list, before, statuses@, report@);
            assert(follows(as_map(list, before), as_map(list, statuses@), report@, events));
        }
        *self = ServiceGraph { services, statuses };
        report
    }
}

} // verus!
