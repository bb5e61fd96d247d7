//! Service descriptors.

use vstd::prelude::*;
use vstd::string::StrSliceExecFns;
use crate::command::{copy_strings, Command, CommandView};
use crate::text::{chars_of, decimal, decimal_in, find, first_of, lemma_first_of, same, split, words, words_in};

verus! {

/// The definition of one service: its name, the names of the services that
/// must have started before it, and the process to launch for it.
pub struct Service {
    name: String,
    dependencies: Vec<String>,
    command: Command,
}

/// What a [`Service`] holds.
pub struct ServiceView {
    pub name: Seq<char>,
    pub dependencies: Seq<Seq<char>>,
    pub command: CommandView,
}

impl ServiceView {
    /// The service names `dep` among its dependencies.
    pub open spec fn depends_on(self, dep: Seq<char>) -> bool {
        self.dependencies.contains(dep)
    }
}

impl DeepView for Service {
    type V = ServiceView;

    closed spec fn deep_view(&self) -> ServiceView {
        ServiceView {
            name: self.name@,
            dependencies: self.dependencies.deep_view(),
            command: self.command@,
        }
    }
}

impl View for Service {
    type V = ServiceView;

    open spec fn view(&self) -> ServiceView {
        self.deep_view()
    }
}

impl Service {
    /// The service `name`, which waits for `dependencies` and then runs
    /// `command`.
    pub fn new(name: String, dependencies: Vec<String>, command: Command) -> (service: Service)
        ensures
            service@ == (ServiceView {
                name: name@,
                dependencies: dependencies.deep_view(),
                command: command@,
            }),
    {
        Service { name, dependencies, command }
    }

    /// The name of the service.
    pub fn name(&self) -> (name: &str)
        ensures
            name@ == self@.name,
    {
        self.name.as_str()
    }

    /// The names of the services that must have started before this one.
    pub fn dependencies(&self) -> (dependencies: &Vec<String>)
        ensures
            dependencies.deep_view() == self@.dependencies,
    {
        &self.dependencies
    }

    /// The command that launches the process of the service.
    pub fn command(&self) -> (command: Command)
        ensures
            command@ == self@.command,
    {
        self.command.clone()
    }
}

impl Clone for Service {
    /// A descriptor that holds the same as this one.
    fn clone(&self) -> (copy: Service)
        ensures
            copy@ == self@,
    {
        Service {
            name: self.name.clone(),
            dependencies: copy_strings(&self.dependencies),
            command: self.command.clone(),
        }
    }
}

/// Why a text does not describe a service.
#[derive(Clone, Copy, Debug, PartialEq, Eq, Structural)]
pub enum ParseError {
    /// A line is neither empty nor a comment and holds no equals sign.
    Malformed,
    /// A line sets a key that a descriptor does not have.
    UnknownKey,
    /// A user or a group is not a number that fits the machine.
    BadNumber,
    /// No line gives a command to run.
    NoCommand,
}

/// What the lines read so far say of a service.
pub struct DraftView {
    pub name: Seq<char>,
    pub cmd: Seq<Seq<char>>,
    pub deps: Seq<Seq<char>>,
    pub uid: Option<usize>,
    pub gid: Option<usize>,
    pub cwd: Option<Seq<char>>,
    pub ns: Option<Seq<Seq<char>>>,
}

impl DraftView {
    /// What is known of the service before any line is read: the name of
    /// its entry.
    pub open spec fn of_entry(entry: Seq<char>) -> DraftView {
        DraftView { name: entry, cmd: seq![], deps: seq![], uid: None, gid: None, cwd: None, ns: None }
    }

    /// What one line adds. An empty line and a line that begins with `#` add
    /// nothing. Any other line is a key, an equals sign and a value: `name`
    /// and `cwd` take the value as it stands, `cmd`, `deps` and `ns` its
    /// words, `uid` and `gid` the number that it spells. A key that comes
    /// again replaces what it set before.
    pub open spec fn read_line(self, line: Seq<char>) -> Result<DraftView, ParseError> {
        let eq = first_of(line, '=');
        let key = line.take(eq);
        let value = line.skip(eq + 1);
        if line.len() == 0 || line[0] == '#' {
            Ok(self)
        } else if eq >= line.len() {
            Err(ParseError::Malformed)
        } else if key == "name"@ {
            Ok(DraftView { name: value, ..self })
        } else if key == "cmd"@ {
            Ok(DraftView { cmd: words(value), ..self })
        } else if key == "deps"@ {
            Ok(DraftView { deps: words(value), ..self })
        } else if key == "cwd"@ {
            Ok(DraftView { cwd: Some(value), ..self })
        } else if key == "ns"@ {
            Ok(DraftView { ns: Some(words(value)), ..self })
        } else if key == "uid"@ {
            match decimal(value) {
                Some(uid) => Ok(DraftView { uid: Some(uid), ..self }),
                None => Err(ParseError::BadNumber),
            }
        } else if key == "gid"@ {
            match decimal(value) {
                Some(gid) => Ok(DraftView { gid: Some(gid), ..self }),
                None => Err(ParseError::BadNumber),
            }
        } else {
            Err(ParseError::UnknownKey)
        }
    }

    /// What the lines add, one after the other, up to the first that fails.
    pub open spec fn read_lines(self, lines: Seq<Seq<char>>) -> Result<DraftView, ParseError>
        decreases lines.len(),
    {
        if lines.len() == 0 {
            Ok(self)
        } else {
            match self.read_line(lines[0]) {
                Ok(next) => next.read_lines(lines.drop_first()),
                Err(err) => Err(err),
            }
        }
    }

    /// The service that the draft describes: the first word of the command
    /// is the binary, the others are its arguments. A draft without command
    /// describes none.
    pub open spec fn service(self) -> Result<ServiceView, ParseError> {
        if self.cmd.len() == 0 {
            Err(ParseError::NoCommand)
        } else {
            Ok(
                ServiceView {
                    name: self.name,
                    dependencies: self.deps,
                    command: CommandView {
                        bin: self.cmd[0],
                        args: self.cmd.skip(1),
                        env: seq![],
                        clear_env: false,
                        cwd: self.cwd,
                        uid: self.uid,
                        gid: self.gid,
                        ns: self.ns,
                    },
                },
            )
        }
    }
}

/// The service that the text of the entry `entry` describes, line by line.
pub open spec fn described(entry: Seq<char>, text: Seq<char>) -> Result<ServiceView, ParseError> {
    match DraftView::of_entry(entry).read_lines(split(text, '\n')) {
        Ok(draft) => draft.service(),
        Err(err) => Err(err),
    }
}

/// What the lines read so far say of a service.
struct Draft {
    name: String,
    cmd: Vec<String>,
    deps: Vec<String>,
    uid: Option<usize>,
    gid: Option<usize>,
    cwd: Option<String>,
    ns: Option<Vec<String>>,
}

impl View for Draft {
    type V = DraftView;

    closed spec fn view(&self) -> DraftView {
        DraftView {
            name: self.name@,
            cmd: self.cmd.deep_view(),
            deps: self.deps.deep_view(),
            uid: self.uid,
            gid: self.gid,
            cwd: self.cwd.deep_view(),
            ns: self.ns.deep_view(),
        }
    }
}

impl Draft {
    /// Takes in the line that stands between `from` and `to` in the text,
    /// whose characters are `chars`.
    fn read_line(self, text: &str, chars: &Vec<char>, from: usize, to: usize) -> (r: Result<Draft, ParseError>)
        requires
            chars@ == text@,
            from <= to <= chars.len(),
        ensures
            match r {
                Ok(next) => self@.read_line(chars@.subrange(from as int, to as int)) == Ok::<
                    DraftView,
                    ParseError,
                >(next@),
                Err(err) => self@.read_line(chars@.subrange(from as int, to as int)) == Err::<
                    DraftView,
                    ParseError,
                >(err),
            },
    {
        let ghost line = chars@.subrange(from as int, to as int);
        if from == to {
            return Ok(self);
        }
        assert(line[0] == chars@[from as int]);
        if chars[from] == '#' {
            return Ok(self);
        }
        let eq = find(chars, from, to, '=');
        if eq >= to {
            return Err(ParseError::Malformed);
        }
        let key = text.substring_char(from, eq);
        proof {
            assert(key@ =~= line.take(eq - from));
            assert(line.skip(eq - from + 1) =~= chars@.subrange(eq + 1, to as int));
        }
        let mut draft = self;
        if same(key, "name") {
            draft.name = text.substring_char(eq + 1, to).to_owned();
        } else if same(key, "cmd") {
            draft.cmd = words_in(text, chars, eq + 1, to);
        } else if same(key, "deps") {
            draft.deps = words_in(text, chars, eq + 1, to);
        } else if same(key, "cwd") {
            draft.cwd = Some(text.substring_char(eq + 1, to).to_owned());
        } else if same(key, "ns") {
            draft.ns = Some(words_in(text, chars, eq + 1, to));
        } else if same(key, "uid") {
            match decimal_in(chars, eq + 1, to) {
                Some(uid) => {
                    draft.uid = Some(uid);
                },
                None => {
                    return Err(ParseError::BadNumber);
                },
            }
        } else if same(key, "gid") {
            match decimal_in(chars, eq + 1, to) {
                Some(gid) => {
                    draft.gid = Some(gid);
                },
                None => {
                    return Err(ParseError::BadNumber);
                },
            }
        } else {
            return Err(ParseError::UnknownKey);
        }
        Ok(draft)
    }

    /// The service that the draft describes.
    fn service(self) -> (r: Result<Service, ParseError>)
        ensures
            match r {
                Ok(service) => self@.service() == Ok::<ServiceView, ParseError>(service@),
                Err(err) => self@.service() == Err::<ServiceView, ParseError>(err),
            },
    {
        if self.cmd.len() == 0 {
            return Err(ParseError::NoCommand);
        }
        let ghost cmd = self.cmd.deep_view();
        let mut args: Vec<String> = Vec::new();
        let mut i: usize = 1;
        while i < self.cmd.len()
            invariant
                1 <= i <= self.cmd.len(),
                cmd == self.cmd.deep_view(),
                args.deep_view() =~= cmd.subrange(1, i as int),
            decreases self.cmd.len() - i,
        {
            let ghost so_far = args.deep_view();
            args.push(self.cmd[i].clone());
            assert(args.deep_view() =~= so_far.push(cmd[i as int]));
            i += 1;
        }
        assert(cmd.subrange(1, cmd.len() as int) =~= cmd.skip(1));
        let mut command = Command::new(self.cmd[0].clone());
        command.args(args);
        assert(command@.args =~= cmd.skip(1));
        if let Some(cwd) = self.cwd {
            command.cwd(cwd);
        }
        if let Some(uid) = self.uid {
            command.uid(uid);
        }
        if let Some(gid) = self.gid {
            command.gid(gid);
        }
        if let Some(ns) = self.ns {
            command.ns(ns);
        }
        Ok(Service::new(self.name, self.deps, command))
    }
}

impl Service {
    /// Reads the descriptor of a service from the text of its entry. The name
    /// of the entry is the name of the service unless the text gives another.
    pub fn parse(entry: &str, text: &str) -> (r: Result<Service, ParseError>)
        ensures
            match r {
                Ok(service) => described(entry@, text@) == Ok::<ServiceView, ParseError>(service@),
                Err(err) => described(entry@, text@) == Err::<ServiceView, ParseError>(err),
            },
    {
        let chars = chars_of(text);
        let len = chars.len();
        let mut draft = Draft {
            name: entry.to_owned(),
            cmd: Vec::new(),
            deps: Vec::new(),
            uid: None,
            gid: None,
            cwd: None,
            ns: None,
        };
        let ghost first = DraftView::of_entry(entry@);
        let ghost whole = first.read_lines(split(text@, '\n'));
        assert(draft.cmd.deep_view() =~= Seq::empty());
        assert(draft.deps.deep_view() =~= Seq::empty());
        assert(chars@.subrange(0, len as int) =~= text@);
        let mut pos: usize = 0;
        loop
            invariant_except_break
                whole == draft@.read_lines(split(chars@.subrange(pos as int, len as int), '\n')),
            invariant
                chars@ == text@,
                len == chars.len(),
                pos <= len,
                whole == DraftView::of_entry(entry@).read_lines(split(text@, '\n')),
            ensures
                whole == Ok::<DraftView, ParseError>(draft@),
            decreases len - pos,
        {
            let ghost rest = chars@.subrange(pos as int, len as int);
            let ghost before = draft@;
            let end = find(&chars, pos, len, '\n');
            proof {
                lemma_first_of(rest, '\n');
                assert(rest.take(end - pos) =~= chars@.subrange(pos as int, end as int));
                if end < len {
                    assert(rest.skip(end - pos + 1) =~= chars@.subrange(end + 1, len as int));
                    assert(split(rest, '\n').drop_first() =~= split(rest.skip(end - pos + 1), '\n'));
                } else {
                    assert(rest.take(end - pos) =~= rest);
                    assert(split(rest, '\n').drop_first() =~= Seq::empty());
                }
                assert(split(rest, '\n')[0] == rest.take(end - pos));
            }
            match draft.read_line(text, &chars, pos, end) {
                Ok(next) => {
                    draft = next;
                },
                Err(err) => {
                    return Err(err);
                },
            }
            if end >= len {
                proof {
                    assert(before.read_lines(split(rest, '\n')) == draft@.read_lines(Seq::empty()));
                }
                break ;
            }
            pos = end + 1;
        }
        draft.service()
    }
}

} // verus!
