use std::cell::RefCell;

use init::command::Command;
use init::error::OsError;
use init::graph::ServiceGraph;
use init::process::Process;
use init::readiness::ServiceStatus;
use init::service::Service;

fn service(name: &str, deps: &[&str], bin: &str) -> Service {
    Service::new(
        name.to_string(),
        deps.iter().map(|d| d.to_string()).collect(),
        Command::new(bin.to_string()),
    )
}

/// Stands for a launch: `true` exits with 0, `false` with 1, anything else
/// cannot be launched.
fn fake_launch(command: Command) -> Result<Process, OsError> {
    let status = match command.bin() {
        "true" => 0,
        "false" => 1,
        _ => return Err(OsError { errno: 2 }),
    };
    let mut process = Process::new(100);
    process.record(Ok(status)).unwrap();
    Ok(process)
}

#[test]
fn a_new_graph_is_empty() {
    let graph = ServiceGraph::new();
    assert_eq!(graph.len(), 0);
    assert_eq!(graph.status("A"), None);
}

#[test]
fn pushed_services_are_pending() {
    let mut graph = ServiceGraph::new();
    graph.push_services(vec![service("A", &[], "true"), service("B", &["A"], "true")]);
    assert_eq!(graph.len(), 2);
    assert_eq!(graph.status("A"), Some(ServiceStatus::Pending));
    assert_eq!(graph.status("B"), Some(ServiceStatus::Pending));
    assert_eq!(graph.status("C"), None);
}

#[test]
fn a_chain_starts_until_a_service_fails() {
    let mut graph = ServiceGraph::new();
    graph.push_services(vec![
        service("A", &[], "true"),
        service("B", &["A"], "true"),
        service("C", &["B"], "false"),
        service("D", &["C"], "true"),
    ]);
    let report = graph.start_services(fake_launch);
    assert_eq!(graph.status("A"), Some(ServiceStatus::Started));
    assert_eq!(graph.status("B"), Some(ServiceStatus::Started));
    assert_eq!(graph.status("C"), Some(ServiceStatus::Failed));
    assert_eq!(graph.status("D"), Some(ServiceStatus::Pending));
    assert_eq!(
        report,
        vec![
            ("A".to_string(), Ok(0)),
            ("B".to_string(), Ok(0)),
            ("C".to_string(), Ok(1)),
        ]
    );
}

#[test]
fn a_chain_starts_whatever_the_order_of_the_descriptors() {
    let mut graph = ServiceGraph::new();
    graph.push_services(vec![
        service("D", &["C"], "true"),
        service("C", &["B"], "true"),
        service("B", &["A"], "true"),
        service("A", &[], "true"),
    ]);
    let report = graph.start_services(fake_launch);
    let order: Vec<&str> = report.iter().map(|item| item.0.as_str()).collect();
    assert_eq!(order, vec!["A", "B", "C", "D"]);
    for name in ["A", "B", "C", "D"] {
        assert_eq!(graph.status(name), Some(ServiceStatus::Started));
    }
}

#[test]
fn a_cycle_stays_pending() {
    let mut graph = ServiceGraph::new();
    graph.push_services(vec![
        service("A", &["B"], "true"),
        service("B", &["A"], "true"),
        service("C", &[], "true"),
    ]);
    let report = graph.start_services(fake_launch);
    assert_eq!(graph.status("A"), Some(ServiceStatus::Pending));
    assert_eq!(graph.status("B"), Some(ServiceStatus::Pending));
    assert_eq!(graph.status("C"), Some(ServiceStatus::Started));
    assert_eq!(report, vec![("C".to_string(), Ok(0))]);
}

#[test]
fn a_service_that_depends_on_itself_stays_pending() {
    let mut graph = ServiceGraph::new();
    graph.push_services(vec![service("A", &["A"], "true")]);
    let report = graph.start_services(fake_launch);
    assert_eq!(graph.status("A"), Some(ServiceStatus::Pending));
    assert!(report.is_empty());
}

#[test]
fn an_unknown_dependency_holds_nothing_back() {
    let mut graph = ServiceGraph::new();
    graph.push_services(vec![service("A", &["nowhere"], "true")]);
    graph.start_services(fake_launch);
    assert_eq!(graph.status("A"), Some(ServiceStatus::Started));
}

#[test]
fn a_failed_launch_fails_the_service_and_blocks_its_dependents() {
    let mut graph = ServiceGraph::new();
    graph.push_services(vec![
        service("A", &[], "missing"),
        service("B", &["A"], "true"),
        service("C", &["B"], "true"),
    ]);
    let report = graph.start_services(fake_launch);
    assert_eq!(graph.status("A"), Some(ServiceStatus::Failed));
    assert_eq!(graph.status("B"), Some(ServiceStatus::Pending));
    assert_eq!(graph.status("C"), Some(ServiceStatus::Pending));
    assert_eq!(report, vec![("A".to_string(), Err(OsError { errno: 2 }))]);
}

#[test]
fn a_second_definition_replaces_the_first() {
    let mut graph = ServiceGraph::new();
    graph.push_services(vec![service("A", &[], "false")]);
    graph.push_services(vec![service("A", &[], "true")]);
    assert_eq!(graph.len(), 1);
    assert_eq!(graph.status("A"), Some(ServiceStatus::Pending));
    let report = graph.start_services(fake_launch);
    assert_eq!(report, vec![("A".to_string(), Ok(0))]);
    assert_eq!(graph.status("A"), Some(ServiceStatus::Started));
}

#[test]
fn a_second_definition_in_one_call_replaces_the_first() {
    let mut graph = ServiceGraph::new();
    graph.push_services(vec![service("A", &[], "false"), service("A", &[], "true")]);
    assert_eq!(graph.len(), 1);
    let report = graph.start_services(fake_launch);
    assert_eq!(report, vec![("A".to_string(), Ok(0))]);
}

#[test]
fn a_started_service_keeps_its_status_when_redefined() {
    let mut graph = ServiceGraph::new();
    graph.push_services(vec![service("A", &[], "true")]);
    graph.start_services(fake_launch);
    assert_eq!(graph.status("A"), Some(ServiceStatus::Started));
    graph.push_services(vec![service("A", &["B"], "false"), service("B", &[], "true")]);
    assert_eq!(graph.len(), 2);
    assert_eq!(graph.status("A"), Some(ServiceStatus::Started));
    assert_eq!(graph.status("B"), Some(ServiceStatus::Pending));
    let report = graph.start_services(fake_launch);
    assert_eq!(report, vec![("B".to_string(), Ok(0))]);
    assert_eq!(graph.status("A"), Some(ServiceStatus::Started));
}

#[test]
fn a_failed_service_stays_failed_under_a_new_definition() {
    let mut graph = ServiceGraph::new();
    graph.push_services(vec![service("net", &[], "false"), service("web", &["net"], "true")]);
    graph.start_services(fake_launch);
    assert_eq!(graph.status("net"), Some(ServiceStatus::Failed));
    assert_eq!(graph.status("web"), Some(ServiceStatus::Pending));
    graph.push_services(vec![service("net", &[], "true")]);
    let report = graph.start_services(fake_launch);
    assert!(report.is_empty());
    assert_eq!(graph.status("net"), Some(ServiceStatus::Failed));
    assert_eq!(graph.status("web"), Some(ServiceStatus::Pending));
}

#[test]
fn a_later_phase_brings_the_service_that_an_earlier_one_waits_for() {
    let mut graph = ServiceGraph::new();
    graph.push_services(vec![service("A", &["B"], "true"), service("B", &["A"], "true")]);
    assert!(graph.start_services(fake_launch).is_empty());
    // The second phase redefines B without the dependency on A.
    graph.push_services(vec![service("B", &[], "true"), service("C", &["A"], "true")]);
    let report = graph.start_services(fake_launch);
    let order: Vec<&str> = report.iter().map(|item| item.0.as_str()).collect();
    assert_eq!(order, vec!["B", "A", "C"]);
    assert!(graph.names_with(ServiceStatus::Pending).is_empty());
    assert_eq!(graph.names_with(ServiceStatus::Started), vec!["A", "B", "C"]);
}

#[test]
fn names_with_lists_the_services_of_one_status() {
    let mut graph = ServiceGraph::new();
    graph.push_services(vec![
        service("A", &[], "true"),
        service("B", &["A"], "false"),
        service("C", &["B"], "true"),
        service("D", &["D"], "true"),
    ]);
    assert_eq!(graph.names_with(ServiceStatus::Pending), vec!["A", "B", "C", "D"]);
    graph.start_services(fake_launch);
    assert_eq!(graph.names_with(ServiceStatus::Started), vec!["A"]);
    assert_eq!(graph.names_with(ServiceStatus::Failed), vec!["B"]);
    assert_eq!(graph.names_with(ServiceStatus::Pending), vec!["C", "D"]);
    assert!(graph.names_with(ServiceStatus::Starting).is_empty());
}

#[test]
fn a_service_gives_back_what_it_was_made_of() {
    let mut command = Command::new("/bin/netd".to_string());
    command.args(vec!["-v".to_string()]);
    let net = Service::new("net".to_string(), vec!["disk".to_string()], command);
    assert_eq!(net.name(), "net");
    assert_eq!(*net.dependencies(), vec!["disk".to_string()]);
    assert_eq!(net.command().to_string(), "/bin/netd -v");
    let copy = net.clone();
    assert_eq!(copy.name(), "net");
    assert_eq!(*copy.dependencies(), vec!["disk".to_string()]);
    assert_eq!(copy.command().argv(), vec!["/bin/netd".to_string(), "-v".to_string()]);
}

#[test]
fn independent_services_are_launched_before_any_is_waited_for() {
    let launched: RefCell<Vec<String>> = RefCell::new(Vec::new());
    let mut graph = ServiceGraph::new();
    graph.push_services(vec![
        service("A", &[], "a"),
        service("B", &[], "b"),
        service("C", &["A", "B"], "c"),
    ]);
    let report = graph.start_services(|command: Command| {
        launched.borrow_mut().push(command.bin().to_string());
        let mut process = Process::new(1);
        process.record(Ok(0)).unwrap();
        Ok(process)
    });
    assert_eq!(*launched.borrow(), vec!["a", "b", "c"]);
    assert_eq!(report.len(), 3);
    assert_eq!(report[2], ("C".to_string(), Ok(0)));
    assert_eq!(graph.status("C"), Some(ServiceStatus::Started));
}

#[test]
fn status_after_tells_success_from_failure() {
    assert_eq!(ServiceStatus::after(&Ok(0)), ServiceStatus::Started);
    assert_eq!(ServiceStatus::after(&Ok(1)), ServiceStatus::Failed);
    assert_eq!(ServiceStatus::after(&Ok(256)), ServiceStatus::Failed);
    assert_eq!(ServiceStatus::after(&Err(OsError { errno: 10 })), ServiceStatus::Failed);
}

#[test]
fn a_process_that_cannot_be_waited_for_fails_its_service() {
    // The handle has no status yet, so the scheduler asks the kernel, which
    // on a host without these system calls answers with an error.
    let mut graph = ServiceGraph::new();
    graph.push_services(vec![service("A", &[], "true"), service("B", &["A"], "true")]);
    let report = graph.start_services(|_command: Command| Ok(Process::new(1)));
    assert_eq!(graph.status("A"), Some(ServiceStatus::Failed));
    assert_eq!(graph.status("B"), Some(ServiceStatus::Pending));
    assert_eq!(report.len(), 1);
    assert_eq!(report[0].0, "A");
    assert!(report[0].1.is_err());
}
