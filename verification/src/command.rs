//! Commands: what process to launch, and in which surroundings.

use vstd::prelude::*;
use vstd::string::StringExecFns;
use vstd::utf8::encode_utf8;
use crate::env::{assign, assignments, distinct_names, merge, merged, render, set_var, set_var_overwrites, Vars};
use crate::error::OsError;
use crate::sys;

verus! {

/// The description of a process to launch: the binary, its arguments, the
/// changes to make to the environment, and the working directory, user, group
/// and namespace to adopt before the binary takes over.
#[derive(Debug)]
pub struct Command {
    bin: String,
    args: Vec<String>,
    env: Vec<(String, String)>,
    clear_env: bool,
    cwd: Option<String>,
    uid: Option<usize>,
    gid: Option<usize>,
    ns: Option<Vec<String>>,
}

/// What a [`Command`] holds. The environment overrides are a list of name and
/// value in which no name occurs twice.
pub struct CommandView {
    pub bin: Seq<char>,
    pub args: Seq<Seq<char>>,
    pub env: Vars,
    pub clear_env: bool,
    pub cwd: Option<Seq<char>>,
    pub uid: Option<usize>,
    pub gid: Option<usize>,
    pub ns: Option<Seq<Seq<char>>>,
}

/// One thing that a freshly duplicated process does on its way to becoming
/// the process that a [`Command`] describes.
#[derive(Debug, PartialEq, Eq)]
pub enum Step {
    /// Adopt a group, as real and as effective group.
    SetGroup(usize),
    /// Adopt a user, as real and as effective user.
    SetUser(usize),
    /// Change into a working directory.
    ChangeDir(String),
    /// Create a namespace that holds exactly these schemes and enter it, as
    /// real and as effective namespace.
    EnterNamespace(Vec<String>),
    /// Replace the image of the process by the binary that is open at `fd`,
    /// with these arguments and this environment.
    Exec { fd: usize, args: Vec<String>, vars: Vec<String> },
}

/// What a [`Step`] holds.
pub enum StepView {
    SetGroup(usize),
    SetUser(usize),
    ChangeDir(Seq<char>),
    EnterNamespace(Seq<Seq<char>>),
    Exec { fd: usize, args: Seq<Seq<char>>, vars: Seq<Seq<char>> },
}

impl StepView {
    /// The place of a kind of step in the order that a launch keeps: group,
    /// user, working directory, namespace, image.
    pub open spec fn rank(self) -> int {
        match self {
            StepView::SetGroup(_) => 0,
            StepView::SetUser(_) => 1,
            StepView::ChangeDir(_) => 2,
            StepView::EnterNamespace(_) => 3,
            StepView::Exec { .. } => 4,
        }
    }
}

impl DeepView for Step {
    type V = StepView;

    open spec fn deep_view(&self) -> StepView {
        match self {
            Step::SetGroup(gid) => StepView::SetGroup(*gid),
            Step::SetUser(uid) => StepView::SetUser(*uid),
            Step::ChangeDir(dir) => StepView::ChangeDir(dir@),
            Step::EnterNamespace(schemes) => StepView::EnterNamespace(schemes.deep_view()),
            Step::Exec { fd, args, vars } => StepView::Exec {
                fd: *fd,
                args: args.deep_view(),
                vars: vars.deep_view(),
            },
        }
    }
}

impl View for Step {
    type V = StepView;

    open spec fn view(&self) -> StepView {
        self.deep_view()
    }
}

impl CommandView {
    /// The arguments that the binary is given: its own path, then the
    /// configured arguments.
    pub open spec fn argv(self) -> Seq<Seq<char>> {
        seq![self.bin] + self.args
    }

    /// The environment that the binary is given when the launching process
    /// has the variables `inherited`.
    pub open spec fn environment(self, inherited: Vars) -> Vars {
        merged(inherited, self.clear_env, self.env)
    }

    /// What the duplicated process does before it replaces its image: it
    /// adopts the group, then the user, then the working directory, then the
    /// namespace, each only where the command sets it.
    pub open spec fn setup(self) -> Seq<StepView> {
        let group = match self.gid {
            Some(gid) => seq![StepView::SetGroup(gid)],
            None => seq![],
        };
        let user = match self.uid {
            Some(uid) => seq![StepView::SetUser(uid)],
            None => seq![],
        };
        let dir = match self.cwd {
            Some(cwd) => seq![StepView::ChangeDir(cwd)],
            None => seq![],
        };
        let namespace = match self.ns {
            Some(schemes) => seq![StepView::EnterNamespace(schemes)],
            None => seq![],
        };
        group + user + dir + namespace
    }

    /// Everything that the duplicated process does, in order: the setup, then
    /// the replacement of its image by the binary open at `fd`.
    pub open spec fn child_steps(self, fd: usize, inherited: Vars) -> Seq<StepView> {
        self.setup().push(
            StepView::Exec { fd, args: self.argv(), vars: assignments(self.environment(inherited)) },
        )
    }

    /// The command as one line: the binary, then each argument after a space.
    pub open spec fn line(self) -> Seq<char> {
        self.args.fold_left(self.bin, |line: Seq<char>, arg: Seq<char>| line + seq![' '] + arg)
    }
}

impl View for Command {
    type V = CommandView;

    closed spec fn view(&self) -> CommandView {
        CommandView {
            bin: self.bin@,
            args: self.args.deep_view(),
            env: self.env.deep_view(),
            clear_env: self.clear_env,
            cwd: self.cwd.deep_view(),
            uid: self.uid,
            gid: self.gid,
            ns: self.ns.deep_view(),
        }
    }
}

impl Command {
    #[verifier::type_invariant]
    spec fn inv(&self) -> bool {
        distinct_names(self.env.deep_view())
    }

    /// A command that runs `bin` with no arguments, in the surroundings
    /// of the launching process.
    pub fn new(bin: String) -> (cmd: Command)
        ensures
            cmd@ == (CommandView {
                bin: bin@,
                args: Seq::empty(),
                env: Seq::empty(),
                clear_env: false,
                cwd: None,
                uid: None,
                gid: None,
                ns: None,
            }),
    {
        let cmd = Command {
            bin,
            args: Vec::new(),
            env: Vec::new(),
            clear_env: false,
            cwd: None,
            uid: None,
            gid: None,
            ns: None,
        };
        assert(cmd.args.deep_view() =~= Seq::empty());
        assert(cmd.env.deep_view() =~= Seq::empty());
        cmd
    }

    /// Adds arguments after those that are already there.
    pub fn args(&mut self, args: Vec<String>) -> (ret: &mut Command)
        ensures
            ret@ == (CommandView { args: old(self)@.args + args.deep_view(), ..old(self)@ }),
            *final(self) == *final(ret),
    {
        proof {
            use_type_invariant(&*self);
        }
        let ghost before = self.args.deep_view();
        let ghost added = args.deep_view();
        let mut more = args;
        let mut all: Vec<String> = Vec::new();
        std::mem::swap(&mut self.args, &mut all);
        all.append(&mut more);
        assert(all.deep_view() =~= before + added);
        self.args = all;
        self
    }

    /// Sets the variable `var` to `val` in the environment of the process. A
    /// value that was set for `var` before is replaced.
    pub fn env(&mut self, var: String, val: String) -> (ret: &mut Command)
        ensures
            ret@ == (CommandView { env: set_var(old(self)@.env, var@, val@), ..old(self)@ }),
            distinct_names(ret@.env),
            *final(self) == *final(ret),
    {
        proof {
            use_type_invariant(&*self);
            set_var_overwrites(self.env.deep_view(), var@, val@);
        }
        let mut vars: Vec<(String, String)> = Vec::new();
        assert(vars.deep_view() =~= Seq::empty());
        std::mem::swap(&mut self.env, &mut vars);
        assign(&mut vars, var, val);
        self.env = vars;
        self
    }

    /// Asks for the inherited environment to be dropped, so that the process
    /// is given the overrides and nothing else.
    pub fn env_clear(&mut self) -> (ret: &mut Command)
        ensures
            ret@ == (CommandView { clear_env: true, ..old(self)@ }),
            *final(self) == *final(ret),
    {
        proof {
            use_type_invariant(&*self);
        }
        self.clear_env = true;
        self
    }

    /// Sets the working directory that the process changes into.
    pub fn cwd(&mut self, cwd: String) -> (ret: &mut Command)
        ensures
            ret@ == (CommandView { cwd: Some(cwd@), ..old(self)@ }),
            *final(self) == *final(ret),
    {
        proof {
            use_type_invariant(&*self);
        }
        self.cwd = Some(cwd);
        self
    }

    /// Sets the user that the process adopts.
    pub fn uid(&mut self, uid: usize) -> (ret: &mut Command)
        ensures
            ret@ == (CommandView { uid: Some(uid), ..old(self)@ }),
            *final(self) == *final(ret),
    {
        proof {
            use_type_invariant(&*self);
        }
        self.uid = Some(uid);
        self
    }

    /// Sets the group that the process adopts.
    pub fn gid(&mut self, gid: usize) -> (ret: &mut Command)
        ensures
            ret@ == (CommandView { gid: Some(gid), ..old(self)@ }),
            *final(self) == *final(ret),
    {
        proof {
            use_type_invariant(&*self);
        }
        self.gid = Some(gid);
        self
    }

    /// Sets the schemes of the namespace that the process enters.
    pub fn ns(&mut self, ns: Vec<String>) -> (ret: &mut Command)
        ensures
            ret@ == (CommandView { ns: Some(ns.deep_view()), ..old(self)@ }),
            *final(self) == *final(ret),
    {
        proof {
            use_type_invariant(&*self);
        }
        self.ns = Some(ns);
        self
    }

    /// The path of the binary.
    pub fn bin(&self) -> (bin: &str)
        ensures
            bin@ == self@.bin,
    {
        self.bin.as_str()
    }

    /// The arguments that the binary is given: its own path, then the
    /// configured arguments.
    pub fn argv(&self) -> (argv: Vec<String>)
        ensures
            argv.deep_view() == self@.argv(),
    {
        let mut argv: Vec<String> = Vec::new();
        argv.push(self.bin.clone());
        let mut i: usize = 0;
        while i < self.args.len()
            invariant
                i <= self.args.len(),
                argv.deep_view() =~= seq![self.bin@] + self.args.deep_view().subrange(0, i as int),
            decreases self.args.len() - i,
        {
            let ghost so_far = argv.deep_view();
            let arg = self.args[i].clone();
            argv.push(arg);
            assert(argv.deep_view() =~= so_far.push(self.args.deep_view()[i as int]));
            i += 1;
        }
        assert(self.args.deep_view().subrange(0, i as int) =~= self.args.deep_view());
        argv
    }

    /// The environment that the binary is given when the launching process
    /// has the variables `inherited`.
    pub fn environment(&self, inherited: &Vec<(String, String)>) -> (vars: Vec<(String, String)>)
        ensures
            vars.deep_view() == self@.environment(inherited.deep_view()),
    {
        merge(inherited, self.clear_env, &self.env)
    }

    /// Everything that the duplicated process does, in order, where the
    /// binary is open at `fd` and the launching process has the variables
    /// `inherited`.
    pub fn child_steps(&self, fd: usize, inherited: &Vec<(String, String)>) -> (steps: Vec<Step>)
        ensures
            steps.deep_view() == self@.child_steps(fd, inherited.deep_view()),
    {
        let mut steps: Vec<Step> = Vec::new();
        assert(steps.deep_view() =~= Seq::empty());
        if let Some(gid) = self.gid {
            let ghost so_far = steps.deep_view();
            steps.push(Step::SetGroup(gid));
            assert(steps.deep_view() =~= so_far.push(StepView::SetGroup(gid)));
        }
        if let Some(uid) = self.uid {
            let ghost so_far = steps.deep_view();
            steps.push(Step::SetUser(uid));
            assert(steps.deep_view() =~= so_far.push(StepView::SetUser(uid)));
        }
        if let Some(cwd) = &self.cwd {
            let ghost so_far = steps.deep_view();
            steps.push(Step::ChangeDir(cwd.clone()));
            assert(steps.deep_view() =~= so_far.push(StepView::ChangeDir(cwd@)));
        }
        if let Some(ns) = &self.ns {
            let ghost so_far = steps.deep_view();
            steps.push(Step::EnterNamespace(copy_strings(ns)));
            assert(steps.deep_view() =~= so_far.push(StepView::EnterNamespace(ns.deep_view())));
        }
        assert(steps.deep_view() =~= self@.setup());
        let args = self.argv();
        let vars = render(&self.environment(inherited));
        let ghost so_far = steps.deep_view();
        let ghost exec = StepView::Exec { fd, args: args.deep_view(), vars: vars.deep_view() };
        steps.push(Step::Exec { fd, args, vars });
        assert(steps.deep_view() =~= so_far.push(exec));
        steps
    }

    /// Turns the calling process, which is the duplicate that a launch made,
    /// into the process that the command describes: carries out
    /// [`Command::child_steps`] one by one with [`Step::perform`]. Where a step
    /// fails, the later ones are left out and its error is the result. Where
    /// the kernel replaces the image the call does not come back.
    pub fn do_exec(self, fd: usize, inherited: Vec<(String, String)>) -> (r: Result<usize, OsError>)
        ensures
            exists|steps: Seq<Step>, done: int|
                #![trigger carried_out(steps, Step::perform, r, done)]
                steps.map_values(|step: Step| step@) == self@.child_steps(fd, inherited.deep_view())
                    && carried_out(steps, Step::perform, r, done),
    {
        let steps = self.child_steps(fd, &inherited);
        assert(steps@.map_values(|step: Step| step@) =~= steps.deep_view());
        run(&steps, Step::perform)
    }

    /// The command as one line: the binary, then each argument after a space.
    pub fn to_string(&self) -> (line: String)
        ensures
            line@ == self@.line(),
    {
        let mut line = self.bin.clone();
        let ghost args = self.args.deep_view();
        let ghost join = |line: Seq<char>, arg: Seq<char>| line + seq![' '] + arg;
        let mut i: usize = 0;
        while i < self.args.len()
            invariant
                i <= self.args.len(),
                args == self.args.deep_view(),
                join == |line: Seq<char>, arg: Seq<char>| line + seq![' '] + arg,
                line@ == args.subrange(0, i as int).fold_left(self.bin@, join),
            decreases self.args.len() - i,
        {
            proof {
                reveal_strlit(" ");
                assert(" "@ =~= seq![' ']);
                assert(args.subrange(0, i + 1).drop_last() =~= args.subrange(0, i as int));
            }
            line.append(" ");
            line.append(self.args[i].as_str());
            i += 1;
        }
        assert(args.subrange(0, i as int) =~= args);
        line
    }
}

impl Clone for Command {
    /// A command that holds the same as this one.
    fn clone(&self) -> (copy: Command)
        ensures
            copy@ == self@,
    {
        proof {
            use_type_invariant(self);
        }
        let copy = Command {
            bin: self.bin.clone(),
            args: copy_strings(&self.args),
            env: copy_vars(&self.env),
            clear_env: self.clear_env,
            cwd: match &self.cwd {
                Some(cwd) => Some(cwd.clone()),
                None => None,
            },
            uid: self.uid,
            gid: self.gid,
            ns: match &self.ns {
                Some(ns) => Some(copy_strings(ns)),
                None => None,
            },
        };
        copy
    }
}

/// The address is one that the machine gives for a string of these
/// characters.
pub closed spec fn lies_at(text: Seq<char>, at: usize) -> bool {
    exists|held: &str| held@ == text && call_ensures(sys::address, (held,), at)
}

/// The pairs are the strings as the kernel takes them: one pair for each
/// string, in order, of an address at which such a string lies and the number
/// of its bytes.
pub open spec fn marshalled(strings: Seq<Seq<char>>, raw: Seq<[usize; 2]>) -> bool {
    &&& raw.len() == strings.len()
    &&& forall|i: int|
        0 <= i < raw.len() ==> (#[trigger] raw[i])[1] == encode_utf8(strings[i]).len() && lies_at(
            strings[i],
            raw[i][0],
        )
}

/// `r` is what entering a namespace gives when the kernel answers `made` to
/// the request to make it: the kernel's answer to the request to enter the new
/// namespace as real and as effective namespace, or the error with which the
/// making failed.
pub closed spec fn entered(made: Result<usize, OsError>, r: Result<usize, OsError>) -> bool {
    match made {
        Ok(namespace) => call_ensures(sys::setrens, (namespace, namespace), r),
        Err(err) => r == Err::<usize, OsError>(err),
    }
}

/// `r` is the kernel's answer to what the step asks of it. A group or a user
/// is asked for as real and as effective identity. A namespace is asked for
/// with its schemes as the kernel takes them, and entered as [`entered`]
/// says. The image is asked for with the descriptor of the binary and with
/// arguments and environment as the kernel takes them.
pub closed spec fn asked(step: Step, r: Result<usize, OsError>) -> bool {
    match step {
        Step::SetGroup(gid) => call_ensures(sys::setregid, (gid, gid), r),
        Step::SetUser(uid) => call_ensures(sys::setreuid, (uid, uid), r),
        Step::ChangeDir(dir) => exists|path: &str|
            #![trigger call_ensures(sys::chdir, (path,), r)]
            path@ == dir@ && call_ensures(sys::chdir, (path,), r),
        Step::EnterNamespace(schemes) => exists|raw: Vec<[usize; 2]>, made: Result<usize, OsError>|
            #![trigger call_ensures(sys::mkns, (&raw,), made)]
            marshalled(schemes.deep_view(), raw@) && call_ensures(sys::mkns, (&raw,), made) && entered(
                made,
                r,
            ),
        Step::Exec { fd, args, vars } => exists|raw_args: Vec<[usize; 2]>, raw_vars: Vec<[usize; 2]>|
            #![trigger call_ensures(sys::fexec, (fd, &raw_args, &raw_vars), r)]
            marshalled(args.deep_view(), raw_args@) && marshalled(vars.deep_view(), raw_vars@)
                && call_ensures(sys::fexec, (fd, &raw_args, &raw_vars), r),
    }
}

impl Step {
    /// Carries out the step on the calling process and gives the kernel's
    /// answer. A group or a user is adopted as real and as effective identity.
    /// Entering a namespace takes two calls: the namespace is made, and
    /// [`Step::enter`] does the rest. Whether a step succeeds is the kernel's
    /// to say; a change of directory that succeeds answers with zero.
    pub fn perform(&self) -> (r: Result<usize, OsError>)
        ensures
            asked(*self, r),
            self is ChangeDir ==> (r matches Ok(value) ==> value == 0),
    {
        match self {
            Step::SetGroup(gid) => sys::setregid(*gid, *gid),
            Step::SetUser(uid) => sys::setreuid(*uid, *uid),
            Step::ChangeDir(dir) => sys::chdir(dir.as_str()),
            Step::EnterNamespace(schemes) => {
                let raw = raw_ns(schemes);
                let made = sys::mkns(&raw);
                Step::enter(made)
            },
            Step::Exec { fd, args, vars } => {
                let raw_args = raw_ns(args);
                let raw_vars = raw_ns(vars);
                sys::fexec(*fd, &raw_args, &raw_vars)
            },
        }
    }

    /// Goes on from the kernel's answer to the request to make a namespace.
    /// Where the namespace was made, the calling process enters it as real
    /// and as effective namespace, and the kernel's answer to that is the
    /// result. Where it was not, nothing more is asked and the error is the
    /// result.
    pub fn enter(made: Result<usize, OsError>) -> (r: Result<usize, OsError>)
        ensures
            entered(made, r),
            made is Err ==> r == made,
    {
        match made {
            Ok(namespace) => sys::setrens(namespace, namespace),
            Err(err) => Err(err),
        }
    }
}

/// `perform` may answer `step` with success.
pub open spec fn may_succeed<F: Fn(&Step) -> Result<usize, OsError>>(perform: F, step: Step) -> bool {
    exists|value: usize| call_ensures(perform, (&step,), Ok::<usize, OsError>(value))
}

/// `run` has carried out the first `done` steps when it comes back with `r`:
/// every step but the last of them succeeded, `r` is the answer to the last,
/// and steps are left over only where that answer is an error.
pub open spec fn carried_out<F: Fn(&Step) -> Result<usize, OsError>>(
    steps: Seq<Step>,
    perform: F,
    r: Result<usize, OsError>,
    done: int,
) -> bool {
    &&& 0 <= done <= steps.len()
    &&& forall|i: int| 0 <= i < done - 1 ==> may_succeed(perform, #[trigger] steps[i])
    &&& done > 0 ==> call_ensures(perform, (&steps[done - 1],), r)
    &&& done < steps.len() ==> r is Err && done > 0
    &&& done == 0 ==> r == Ok::<usize, OsError>(0)
}

/// Carries out the steps in order with `perform`, and stops at the first that
/// fails. The result is that of the last step that was carried out, or `Ok(0)`
/// where there is no step.
pub fn run<F: Fn(&Step) -> Result<usize, OsError>>(steps: &Vec<Step>, perform: F) -> (r: Result<
    usize,
    OsError,
>)
    requires
        forall|i: int| 0 <= i < steps.len() ==> call_requires(perform, (&#[trigger] steps[i],)),
    ensures
        exists|done: int| carried_out(steps@, perform, r, done),
{
    let mut last: Result<usize, OsError> = Ok(0);
    let mut i: usize = 0;
    while i < steps.len()
        invariant
            i <= steps.len(),
            last is Ok,
            carried_out(steps@.subrange(0, i as int), perform, last, i as int),
            forall|k: int| 0 <= k < steps.len() ==> call_requires(perform, (&#[trigger] steps[k],)),
        decreases steps.len() - i,
    {
        let ghost before = steps@.subrange(0, i as int);
        let ghost now = steps@.subrange(0, i + 1);
        let answer = perform(&steps[i]);
        proof {
            assert forall|k: int| 0 <= k < i implies may_succeed(perform, #[trigger] now[k]) by {
                assert(now[k] == before[k]);
                if k == i - 1 {
                    assert(call_ensures(perform, (&before[k],), Ok::<usize, OsError>(last->Ok_0)));
                }
            }
        }
        if answer.is_err() {
            proof {
                assert(carried_out(steps@, perform, answer, i + 1)) by {
                    assert forall|k: int| 0 <= k < i implies may_succeed(perform, #[trigger] steps@[k]) by {
                        assert(now[k] == steps@[k]);
                    }
                }
            }
            return answer;
        }
        last = answer;
        i += 1;
    }
    assert(steps@.subrange(0, i as int) =~= steps@);
    last
}

/// The strings as the kernel takes them: for each, the address at which its
/// bytes lie and their number. The addresses hold for as long as `schemes` is
/// borrowed and not changed.
pub fn raw_ns(schemes: &Vec<String>) -> (raw: Vec<[usize; 2]>)
    ensures
        marshalled(schemes.deep_view(), raw@),
{
    let mut raw: Vec<[usize; 2]> = Vec::new();
    let mut i: usize = 0;
    while i < schemes.len()
        invariant
            i <= schemes.len(),
            raw.len() == i,
            forall|k: int|
                0 <= k < i ==> (#[trigger] raw[k])[1] == encode_utf8(schemes[k]@).len() && lies_at(
                    schemes[k]@,
                    raw[k][0],
                ),
        decreases schemes.len() - i,
    {
        let scheme = schemes[i].as_str();
        let at = sys::address(scheme);
        assert(lies_at(schemes[i as int]@, at));
        raw.push([at, scheme.as_bytes().len()]);
        i += 1;
    }
    raw
}

/// A copy of the strings.
pub fn copy_strings(strings: &Vec<String>) -> (copy: Vec<String>)
    ensures
        copy.deep_view() == strings.deep_view(),
{
    let mut copy: Vec<String> = Vec::new();
    let mut i: usize = 0;
    while i < strings.len()
        invariant
            i <= strings.len(),
            copy.len() == i,
            forall|k: int| 0 <= k < i ==> (#[trigger] copy[k])@ == strings[k]@,
        decreases strings.len() - i,
    {
        copy.push(strings[i].clone());
        i += 1;
    }
    assert(copy.deep_view() =~= strings.deep_view());
    copy
}

/// A copy of the variables.
pub fn copy_vars(vars: &Vec<(String, String)>) -> (copy: Vec<(String, String)>)
    ensures
        copy.deep_view() == vars.deep_view(),
{
    let mut copy: Vec<(String, String)> = Vec::new();
    let mut i: usize = 0;
    while i < vars.len()
        invariant
            i <= vars.len(),
            copy.len() == i,
            forall|k: int| 0 <= k < i ==> (#[trigger] copy[k]).deep_view() == vars[k].deep_view(),
        decreases vars.len() - i,
    {
        copy.push((vars[i].0.clone(), vars[i].1.clone()));
        i += 1;
    }
    assert(copy.deep_view() =~= vars.deep_view());
    copy
}

/// The setup keeps the order group, user, working directory, namespace, and
/// the replacement of the image comes last: of two steps the earlier has the
/// lower rank.
pub proof fn steps_in_order(cmd: CommandView, fd: usize, inherited: Vars)
    ensures
        forall|i: int, j: int|
            0 <= i < j < cmd.child_steps(fd, inherited).len() ==> (#[trigger] cmd.child_steps(
                fd,
                inherited,
            )[i]).rank() < (#[trigger] cmd.child_steps(fd, inherited)[j]).rank(),
        cmd.child_steps(fd, inherited).last() is Exec,
{
}

/// Where a group and a user are set, the process adopts the group first and
/// the user directly after it.
pub proof fn group_before_user(cmd: CommandView, fd: usize, inherited: Vars)
    requires
        cmd.gid is Some,
        cmd.uid is Some,
    ensures
        cmd.child_steps(fd, inherited)[0] == StepView::SetGroup(cmd.gid->Some_0),
        cmd.child_steps(fd, inherited)[1] == StepView::SetUser(cmd.uid->Some_0),
{
}

} // verus!
