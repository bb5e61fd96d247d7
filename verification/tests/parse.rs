use init::command::Step;
use init::service::{ParseError, Service};
use init::text::{chars_of, decimal_in, find, words_in};

fn strings(items: &[&str]) -> Vec<String> {
    items.iter().map(|s| s.to_string()).collect()
}

#[test]
fn a_full_descriptor_is_read() {
    let text = "cmd=/bin/netd -v --port 80\ndeps=disk log\nuid=1000\ngid=100\ncwd=/var\nns=file: tcp:\n";
    let service = Service::parse("netd", text).unwrap();
    assert_eq!(service.name(), "netd");
    assert_eq!(*service.dependencies(), strings(&["disk", "log"]));
    assert_eq!(
        service.command().child_steps(3, &vec![]),
        vec![
            Step::SetGroup(100),
            Step::SetUser(1000),
            Step::ChangeDir("/var".to_string()),
            Step::EnterNamespace(strings(&["file:", "tcp:"])),
            Step::Exec { fd: 3, args: strings(&["/bin/netd", "-v", "--port", "80"]), vars: vec![] },
        ]
    );
}

#[test]
fn the_least_descriptor_is_a_command() {
    let service = Service::parse("true", "cmd=true").unwrap();
    assert_eq!(service.name(), "true");
    assert!(service.dependencies().is_empty());
    assert_eq!(
        service.command().child_steps(0, &vec![("A".to_string(), "b".to_string())]),
        vec![Step::Exec { fd: 0, args: strings(&["true"]), vars: strings(&["A=b"]) }]
    );
}

#[test]
fn a_declared_name_replaces_the_name_of_the_entry() {
    let service = Service::parse("10_net", "name=network\ncmd=netd").unwrap();
    assert_eq!(service.name(), "network");
    let spaced = Service::parse("x", "name= my service \ncmd=a").unwrap();
    assert_eq!(spaced.name(), " my service ");
}

#[test]
fn empty_lines_and_comments_are_passed_over() {
    let text = "\n# the network daemon\n\ncmd=netd\n#deps=disk\n\n";
    let service = Service::parse("net", text).unwrap();
    assert!(service.dependencies().is_empty());
    assert_eq!(service.command().argv(), strings(&["netd"]));
}

#[test]
fn words_are_what_stands_between_spaces() {
    let service = Service::parse("net", "cmd=  netd   -v  \ndeps= a  b ").unwrap();
    assert_eq!(service.command().argv(), strings(&["netd", "-v"]));
    assert_eq!(*service.dependencies(), strings(&["a", "b"]));
}

#[test]
fn a_key_that_comes_again_replaces_the_first() {
    let text = "cmd=a b\ncmd=c\ndeps=x y\ndeps=\nuid=1\nuid=2\nns=file:\nns=\ncwd=/a\ncwd=/b=c";
    let service = Service::parse("s", text).unwrap();
    assert!(service.dependencies().is_empty());
    assert_eq!(
        service.command().child_steps(1, &vec![]),
        vec![
            Step::SetUser(2),
            Step::ChangeDir("/b=c".to_string()),
            Step::EnterNamespace(vec![]),
            Step::Exec { fd: 1, args: strings(&["c"]), vars: vec![] },
        ]
    );
}

#[test]
fn a_line_without_equals_sign_is_malformed() {
    assert_eq!(Service::parse("s", "cmd=a\noops").err(), Some(ParseError::Malformed));
    assert_eq!(Service::parse("s", " ").err(), Some(ParseError::Malformed));
    assert_eq!(Service::parse("s", " # no comment").err(), Some(ParseError::Malformed));
}

#[test]
fn a_key_that_no_descriptor_has_is_refused() {
    assert_eq!(Service::parse("s", "cmd=a\ncolor=red").err(), Some(ParseError::UnknownKey));
    assert_eq!(Service::parse("s", "=a").err(), Some(ParseError::UnknownKey));
    assert_eq!(Service::parse("s", "Cmd=a").err(), Some(ParseError::UnknownKey));
    assert_eq!(Service::parse("s", "cmd =a").err(), Some(ParseError::UnknownKey));
}

#[test]
fn a_user_or_group_must_be_a_number() {
    assert_eq!(Service::parse("s", "cmd=a\nuid=root").err(), Some(ParseError::BadNumber));
    assert_eq!(Service::parse("s", "cmd=a\ngid=").err(), Some(ParseError::BadNumber));
    assert_eq!(Service::parse("s", "cmd=a\nuid=-1").err(), Some(ParseError::BadNumber));
    assert_eq!(Service::parse("s", "cmd=a\nuid= 1").err(), Some(ParseError::BadNumber));
    assert_eq!(Service::parse("s", "cmd=a\ngid=12a").err(), Some(ParseError::BadNumber));
    assert_eq!(
        Service::parse("s", "cmd=a\nuid=340282366920938463463374607431768211456").err(),
        Some(ParseError::BadNumber)
    );
}

#[test]
fn the_greatest_number_of_the_machine_is_read() {
    let text = format!("cmd=a\nuid={}\ngid=0", usize::MAX);
    let service = Service::parse("s", &text).unwrap();
    assert_eq!(
        service.command().child_steps(0, &vec![]),
        vec![
            Step::SetGroup(0),
            Step::SetUser(usize::MAX),
            Step::Exec { fd: 0, args: strings(&["a"]), vars: vec![] },
        ]
    );
    let chars: Vec<char> = "18446744073709551616".chars().collect();
    if usize::MAX as u128 == u64::MAX as u128 {
        assert_eq!(decimal_in(&chars, 0, chars.len()), None);
        assert_eq!(decimal_in(&chars, 0, chars.len() - 1), Some(1844674407370955161));
    }
}

#[test]
fn a_descriptor_without_command_describes_nothing() {
    assert_eq!(Service::parse("s", "").err(), Some(ParseError::NoCommand));
    assert_eq!(Service::parse("s", "deps=a").err(), Some(ParseError::NoCommand));
    assert_eq!(Service::parse("s", "cmd=").err(), Some(ParseError::NoCommand));
    assert_eq!(Service::parse("s", "cmd=   ").err(), Some(ParseError::NoCommand));
    assert_eq!(Service::parse("s", "cmd=a\ncmd=").err(), Some(ParseError::NoCommand));
}

#[test]
fn the_first_line_that_fails_decides() {
    assert_eq!(Service::parse("s", "uid=x\noops").err(), Some(ParseError::BadNumber));
    assert_eq!(Service::parse("s", "oops\nuid=x").err(), Some(ParseError::Malformed));
    assert_eq!(Service::parse("s", "deps=a\ncolor=red").err(), Some(ParseError::UnknownKey));
}

#[test]
fn text_is_searched_and_cut_by_characters() {
    let text = "größe=1 zwei  drei";
    let chars = chars_of(text);
    assert_eq!(chars.len(), 18);
    assert_eq!(find(&chars, 0, chars.len(), '='), 5);
    assert_eq!(find(&chars, 6, chars.len(), '='), chars.len());
    assert_eq!(find(&chars, 3, 3, '='), 3);
    assert_eq!(words_in(text, &chars, 6, chars.len()), strings(&["1", "zwei", "drei"]));
    assert_eq!(words_in(text, &chars, 0, 7), strings(&["größe=1"]));
    assert_eq!(words_in(text, &chars, 7, 8), Vec::<String>::new());
    assert_eq!(decimal_in(&chars, 6, 7), Some(1));
    assert_eq!(decimal_in(&chars, 6, 6), None);
    assert_eq!(decimal_in(&chars, 5, 7), None);
    let digits = chars_of("007");
    assert_eq!(decimal_in(&digits, 0, 3), Some(7));
}
