use std::cell::RefCell;

use init::command::{copy_strings, raw_ns, run, Command, Step};
use init::env::{assign, contains_name, merge, render};
use init::error::OsError;

fn strings(items: &[&str]) -> Vec<String> {
    items.iter().map(|s| s.to_string()).collect()
}

fn vars(items: &[(&str, &str)]) -> Vec<(String, String)> {
    items.iter().map(|(k, v)| (k.to_string(), v.to_string())).collect()
}

#[test]
fn a_new_command_runs_the_binary_alone() {
    let cmd = Command::new("/bin/ls".to_string());
    assert_eq!(cmd.bin(), "/bin/ls");
    assert_eq!(cmd.argv(), strings(&["/bin/ls"]));
    assert_eq!(cmd.to_string(), "/bin/ls");
    assert_eq!(
        cmd.child_steps(3, &vars(&[("HOME", "/root")])),
        vec![Step::Exec { fd: 3, args: strings(&["/bin/ls"]), vars: strings(&["HOME=/root"]) }]
    );
}

#[test]
fn arguments_are_appended_in_order() {
    let mut cmd = Command::new("echo".to_string());
    cmd.args(strings(&["a", "b"])).args(strings(&["c"]));
    assert_eq!(cmd.argv(), strings(&["echo", "a", "b", "c"]));
    assert_eq!(cmd.to_string(), "echo a b c");
}

#[test]
fn a_variable_that_is_set_twice_keeps_the_last_value() {
    let mut cmd = Command::new("env".to_string());
    cmd.env("A".to_string(), "1".to_string())
        .env("B".to_string(), "2".to_string())
        .env("A".to_string(), "3".to_string());
    assert_eq!(cmd.environment(&vec![]), vars(&[("A", "3"), ("B", "2")]));
}

#[test]
fn an_override_replaces_the_inherited_value() {
    let mut cmd = Command::new("env".to_string());
    cmd.env("PATH".to_string(), "/bin".to_string());
    let inherited = vars(&[("HOME", "/root"), ("PATH", "/usr/bin"), ("TERM", "dumb")]);
    assert_eq!(
        cmd.environment(&inherited),
        vars(&[("HOME", "/root"), ("TERM", "dumb"), ("PATH", "/bin")])
    );
}

#[test]
fn a_cleared_environment_holds_the_overrides_alone() {
    let mut cmd = Command::new("env".to_string());
    cmd.env("PATH".to_string(), "/bin".to_string()).env_clear();
    let inherited = vars(&[("HOME", "/root"), ("PATH", "/usr/bin")]);
    assert_eq!(cmd.environment(&inherited), vars(&[("PATH", "/bin")]));
    let mut bare = Command::new("env".to_string());
    bare.env_clear();
    assert_eq!(bare.environment(&inherited), vars(&[]));
}

#[test]
fn the_group_is_adopted_before_the_user() {
    let mut cmd = Command::new("/bin/sh".to_string());
    cmd.uid(1000).gid(1000);
    let steps = cmd.child_steps(5, &vec![]);
    assert_eq!(
        steps,
        vec![
            Step::SetGroup(1000),
            Step::SetUser(1000),
            Step::Exec { fd: 5, args: strings(&["/bin/sh"]), vars: vec![] },
        ]
    );
    // A stand-in for the kernel that records what it is asked, in order.
    let asked: RefCell<Vec<String>> = RefCell::new(Vec::new());
    let result = run(&steps, |step: &Step| {
        asked.borrow_mut().push(match step {
            Step::SetGroup(gid) => format!("group {}", gid),
            Step::SetUser(uid) => format!("user {}", uid),
            Step::ChangeDir(dir) => format!("dir {}", dir),
            Step::EnterNamespace(schemes) => format!("namespace {}", schemes.join(",")),
            Step::Exec { fd, .. } => format!("exec {}", fd),
        });
        Ok(0)
    });
    assert_eq!(result, Ok(0));
    assert_eq!(*asked.borrow(), vec!["group 1000", "user 1000", "exec 5"]);
}

#[test]
fn every_setting_has_its_place_in_the_order() {
    let mut cmd = Command::new("/bin/daemon".to_string());
    cmd.ns(strings(&["file", "tcp"]))
        .cwd("/var".to_string())
        .uid(7)
        .gid(8)
        .args(strings(&["-d"]))
        .env("A".to_string(), "b".to_string());
    assert_eq!(
        cmd.child_steps(4, &vars(&[("A", "old"), ("Z", "z")])),
        vec![
            Step::SetGroup(8),
            Step::SetUser(7),
            Step::ChangeDir("/var".to_string()),
            Step::EnterNamespace(strings(&["file", "tcp"])),
            Step::Exec {
                fd: 4,
                args: strings(&["/bin/daemon", "-d"]),
                vars: strings(&["Z=z", "A=b"]),
            },
        ]
    );
}

#[test]
fn a_setting_that_is_set_again_is_replaced() {
    let mut cmd = Command::new("x".to_string());
    cmd.uid(1).uid(2).gid(3).gid(4).cwd("/a".to_string()).cwd("/b".to_string());
    cmd.ns(strings(&["a"])).ns(strings(&[]));
    assert_eq!(
        cmd.child_steps(0, &vec![]),
        vec![
            Step::SetGroup(4),
            Step::SetUser(2),
            Step::ChangeDir("/b".to_string()),
            Step::EnterNamespace(vec![]),
            Step::Exec { fd: 0, args: strings(&["x"]), vars: vec![] },
        ]
    );
}

#[test]
fn run_stops_at_the_first_step_that_fails() {
    let steps = vec![
        Step::SetGroup(1),
        Step::SetUser(2),
        Step::ChangeDir("/nowhere".to_string()),
        Step::Exec { fd: 3, args: vec![], vars: vec![] },
    ];
    let asked: RefCell<Vec<Step>> = RefCell::new(Vec::new());
    let result = run(&steps, |step: &Step| {
        let failed = matches!(step, Step::ChangeDir(_));
        asked.borrow_mut().push(match step {
            Step::SetGroup(gid) => Step::SetGroup(*gid),
            Step::SetUser(uid) => Step::SetUser(*uid),
            Step::ChangeDir(dir) => Step::ChangeDir(dir.clone()),
            Step::EnterNamespace(schemes) => Step::EnterNamespace(schemes.clone()),
            Step::Exec { fd, args, vars } => {
                Step::Exec { fd: *fd, args: args.clone(), vars: vars.clone() }
            }
        });
        if failed {
            Err(OsError { errno: 2 })
        } else {
            Ok(0)
        }
    });
    assert_eq!(result, Err(OsError { errno: 2 }));
    assert_eq!(
        *asked.borrow(),
        vec![Step::SetGroup(1), Step::SetUser(2), Step::ChangeDir("/nowhere".to_string())]
    );
}

#[test]
fn run_gives_the_answer_to_the_last_step() {
    let steps = vec![Step::SetGroup(1), Step::SetUser(2)];
    let result = run(&steps, |step: &Step| match step {
        Step::SetGroup(_) => Ok(10),
        _ => Ok(20),
    });
    assert_eq!(result, Ok(20));
    assert_eq!(run(&vec![], |_step: &Step| Err(OsError { errno: 1 })), Ok(0));
}

#[test]
fn the_kernel_of_the_host_refuses_every_step() {
    // The host of the tests has none of these system calls: each answers
    // with the error "function not implemented".
    let not_implemented = Err(OsError { errno: 38 });
    assert_eq!(Step::SetGroup(1).perform(), not_implemented);
    assert_eq!(Step::SetUser(1).perform(), not_implemented);
    assert_eq!(Step::ChangeDir("/".to_string()).perform(), not_implemented);
    assert_eq!(Step::EnterNamespace(strings(&["file"])).perform(), not_implemented);
    assert_eq!(
        Step::Exec { fd: 0, args: strings(&["a"]), vars: vec![] }.perform(),
        not_implemented
    );
    let mut cmd = Command::new("/bin/true".to_string());
    cmd.gid(1).uid(1);
    assert_eq!(cmd.do_exec(0, vec![]), not_implemented);
}

#[test]
fn raw_ns_gives_address_and_length_of_each_string() {
    let schemes = strings(&["file", "", "größe"]);
    let raw = raw_ns(&schemes);
    assert_eq!(raw.len(), 3);
    for (pair, scheme) in raw.iter().zip(schemes.iter()) {
        assert_eq!(pair[0], scheme.as_ptr() as usize);
        assert_eq!(pair[1], scheme.len());
    }
    assert_eq!(raw[0][1], 4);
    assert_eq!(raw[1][1], 0);
    assert_eq!(raw[2][1], 7);
    assert_eq!(raw_ns(&vec![]), Vec::<[usize; 2]>::new());
}

#[test]
fn a_copy_of_a_command_holds_the_same() {
    let mut cmd = Command::new("/bin/daemon".to_string());
    cmd.args(strings(&["-d"])).env("A".to_string(), "b".to_string()).uid(7).cwd("/var".to_string());
    let copy = cmd.clone();
    assert_eq!(copy.child_steps(1, &vec![]), cmd.child_steps(1, &vec![]));
    assert_eq!(copy.to_string(), "/bin/daemon -d");
    assert_eq!(copy_strings(&strings(&["a", "b"])), strings(&["a", "b"]));
}

#[test]
fn assign_overwrites_in_place_and_appends_new_names() {
    let mut list = vars(&[("A", "1"), ("B", "2")]);
    assign(&mut list, "A".to_string(), "9".to_string());
    assert_eq!(list, vars(&[("A", "9"), ("B", "2")]));
    assign(&mut list, "C".to_string(), "3".to_string());
    assert_eq!(list, vars(&[("A", "9"), ("B", "2"), ("C", "3")]));
    assert!(contains_name(&list, "B"));
    assert!(!contains_name(&list, "b"));
    assert!(!contains_name(&vec![], ""));
}

#[test]
fn merge_and_render_give_the_final_environment() {
    let inherited = vars(&[("A", "1"), ("B", "2"), ("C", "3")]);
    let overrides = vars(&[("B", "x"), ("D", "")]);
    assert_eq!(
        merge(&inherited, false, &overrides),
        vars(&[("A", "1"), ("C", "3"), ("B", "x"), ("D", "")])
    );
    assert_eq!(merge(&inherited, true, &overrides), overrides);
    assert_eq!(
        render(&merge(&inherited, false, &overrides)),
        strings(&["A=1", "C=3", "B=x", "D="])
    );
    assert_eq!(render(&vars(&[("K", "a=b")])), strings(&["K=a=b"]));
}

#[test]
fn a_namespace_that_was_not_made_is_not_entered() {
    // The error of the making is the result, and nothing more is asked.
    assert_eq!(Step::enter(Err(OsError { errno: 12 })), Err(OsError { errno: 12 }));
    // Where the namespace was made the kernel is asked to enter it, which
    // the host of the tests refuses.
    assert_eq!(Step::enter(Ok(3)), Err(OsError { errno: 38 }));
}

#[test]
fn a_command_can_be_shown() {
    let mut cmd = Command::new("/bin/ls".to_string());
    cmd.args(strings(&["-l"])).uid(7);
    let shown = format!("{:?}", cmd);
    assert!(shown.contains("/bin/ls"));
    assert!(shown.contains("-l"));
    assert!(shown.contains("Some(7)"));
}
