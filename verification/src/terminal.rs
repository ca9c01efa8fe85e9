//! A terminal on a remote host: the `ssh` command that opens it, with the
//! scripts on the host that make its shell report where it is.
use portable_pty::CommandBuilder;
use vstd::prelude::*;
use vstd::string::*;

use crate::connect::ConnectionInfo;
use crate::folders::{make_dirs, make_dirs_next, mkdir_p, MakeDirs, MakeDirsView};
use crate::numbers::{decimal, decimal_text};
use crate::paths::{a_name_more_is_a_directory_more, prefixes};
use crate::remote::{
    after, asked, unexpected, unexpected_reply, Reply, ReplyView, Request, Step, StepView,
};
use crate::text::{
    after_last, lines, lines_go_one_by_one, lines_of, same, tail_after, texts,
    the_last_part_follows_the_separator, trim, trimmed, trimming_leaves_the_text,
};

verus! {

/// `portable_pty::CommandBuilder`: a command with its arguments and its
/// environment.
#[verifier::external_type_specification]
#[verifier::external_body]
pub struct ExCommandBuilder(CommandBuilder);

/// The command and its arguments, as `CommandBuilder::get_argv` lists them.
pub uninterp spec fn argv(c: CommandBuilder) -> Seq<Seq<char>>;

/// The variables that were set with `CommandBuilder::env`, as
/// `CommandBuilder::iter_extra_env_as_str` lists them.
pub uninterp spec fn extra_env(c: CommandBuilder) -> Map<Seq<char>, Seq<char>>;

/// Variables of an environment, as contracts speak of them.
pub type Variables = Map<Seq<char>, Seq<char>>;

/// Calls `CommandBuilder::new`: the command is the only word, and no variable
/// is set beyond those that the process has. Nothing is said of those.
#[verifier::external_body]
fn new_command(program: &str) -> (c: CommandBuilder)
    ensures
        argv(c) == seq![program@],
        extra_env(c) == Variables::empty(),
{
    CommandBuilder::new(program)
}

/// Calls `CommandBuilder::arg`, which appends a word. It panics on a builder
/// without a command.
#[verifier::external_body]
fn add_arg(c: &mut CommandBuilder, arg: &str)
    requires
        argv(*old(c)).len() > 0,
    ensures
        argv(*final(c)) == argv(*old(c)).push(arg@),
        extra_env(*final(c)) == extra_env(*old(c)),
{
    c.arg(arg)
}

/// Calls `CommandBuilder::env`, which sets a variable. Where the names of
/// variables differ in case only, some systems take them for one, so the name
/// has to be longer or shorter than those that were set before.
#[verifier::external_body]
fn set_env(c: &mut CommandBuilder, key: &str, value: &str)
    requires
        forall|k: Seq<char>| #[trigger]
            extra_env(*old(c)).dom().contains(k) ==> k.len() != key@.len(),
        forall|i: int| 0 <= i < key@.len() ==> 'A' <= #[trigger] key@[i] <= 'Z',
    ensures
        argv(*final(c)) == argv(*old(c)),
        extra_env(*final(c)) == extra_env(*old(c)).insert(key@, value@),
{
    c.env(key, value)
}

/// A command that opens a terminal.
pub struct TerminalCommand {
    pub command: CommandBuilder,
}

/// A command that opens a terminal, as contracts speak of it: its words and
/// the variables that it sets.
pub struct CommandView {
    pub argv: Seq<Seq<char>>,
    pub env: Variables,
}

impl DeepView for TerminalCommand {
    type V = CommandView;

    open spec fn deep_view(&self) -> CommandView {
        CommandView { argv: argv(self.command), env: extra_env(self.command) }
    }
}

/// The command that runs a command on a host in a terminal of its own.
pub open spec fn ssh_command(
    user: Seq<char>,
    host: Seq<char>,
    port: u16,
    remote: Seq<char>,
) -> CommandView {
    CommandView {
        argv: seq![
            "ssh"@,
            "-tt"@,
            "-p"@,
            decimal(port as nat),
            "-o"@,
            "ServerAliveInterval=30"@,
            user + "@"@ + host,
            remote,
        ],
        env: map!["TERM"@ => "xterm-256color"@, "COLORTERM"@ => "truecolor"@],
    }
}

/// Makes the command that runs a command on a host in a terminal of its own.
pub fn make_command(user: &str, host: &str, port: u16, remote: &str) -> (r: TerminalCommand)
    ensures
        r.deep_view() == ssh_command(user@, host@, port, remote@),
{
    let mut cmd = new_command("ssh");
    // Forces a terminal on the host, although the input is no terminal for ssh.
    add_arg(&mut cmd, "-tt");
    add_arg(&mut cmd, "-p");
    let digits = decimal_text(port as u64);
    add_arg(&mut cmd, digits.as_str());
    add_arg(&mut cmd, "-o");
    add_arg(&mut cmd, "ServerAliveInterval=30");
    let at = user.to_owned().concat("@").concat(host);
    add_arg(&mut cmd, at.as_str());
    // All that the host runs is one word, which keeps quoting predictable.
    add_arg(&mut cmd, remote);
    proof {
        reveal_strlit("TERM");
        reveal_strlit("COLORTERM");
    }
    set_env(&mut cmd, "TERM", "xterm-256color");
    set_env(&mut cmd, "COLORTERM", "truecolor");
    let ghost want = ssh_command(user@, host@, port, remote@);
    assert(argv(cmd) =~= want.argv);
    assert(extra_env(cmd) =~= want.env);
    TerminalCommand { command: cmd }
}

/// The scripts that make a shell report where it is.
#[derive(Clone, Debug, PartialEq, Eq)]
pub struct Scripts<S = String> {
    pub bashrc: S,
    pub zshenv: S,
    pub zprofile: S,
    pub zshrc: S,
    pub zlogin: S,
    pub fish_init: S,
}

impl View for Scripts {
    type V = Scripts<Seq<char>>;

    open spec fn view(&self) -> Scripts<Seq<char>> {
        Scripts {
            bashrc: self.bashrc@,
            zshenv: self.zshenv@,
            zprofile: self.zprofile@,
            zshrc: self.zshrc@,
            zlogin: self.zlogin@,
            fish_init: self.fish_init@,
        }
    }
}

/// The command that asks a host for the user's shell: what the user database
/// says, then what the environment does.
pub open spec fn shell_probe() -> Seq<char> {
    "getent passwd \"$(id -un)\" 2>/dev/null | cut -d: -f7 | tail -n1; echo \"${SHELL:-}\""@
}

/// The first line that is not blank, without white space around it.
pub open spec fn first_text(ls: Seq<Seq<char>>) -> Option<Seq<char>>
    decreases ls.len(),
{
    if ls.len() == 0 {
        None
    } else if trimmed(ls[0]).len() > 0 {
        Some(trimmed(ls[0]))
    } else {
        first_text(ls.drop_first())
    }
}

/// The shell that the answer of a host names, or bash.
pub open spec fn shell_in(output: Seq<char>) -> Seq<char> {
    match first_text(lines_of(output)) {
        Some(s) => s,
        None => "/bin/bash"@,
    }
}

/// Reads the shell that the answer of a host names.
pub fn detect_remote_shell(output: &str) -> (r: String)
    ensures
        r@ == shell_in(output@),
{
    let ls = lines(output);
    let ghost all = texts(ls@);
    let mut i: usize = 0;
    assert(all.skip(0) =~= all);
    while i < ls.len()
        invariant
            i <= ls@.len(),
            all == texts(ls@),
            all == lines_of(output@),
            first_text(all.skip(i as int)) == first_text(all),
        decreases ls@.len() - i,
    {
        let bare = trim(ls[i].as_str());
        assert(all.skip(i as int)[0] == ls@[i as int]@);
        assert(all.skip(i as int).drop_first() =~= all.skip(i + 1));
        if !bare.as_str().is_empty() {
            return bare;
        }
        i = i + 1;
    }
    "/bin/bash".to_owned()
}

/// What a shell is called: the last part of its path.
pub open spec fn shell_name(path: Seq<char>) -> Seq<char> {
    trimmed(after_last(path, '/'))
}

/// What a shell needs on the host: a directory, the files in it, and the
/// command that starts the shell with them.
#[derive(Clone, Debug, PartialEq, Eq)]
pub struct Integration<S = String, D = Option<String>, L = Vec<(String, String)>> {
    pub dir: D,
    pub files: L,
    pub command: S,
}

/// What a shell needs on the host, as contracts speak of it.
pub type IntegrationView = Integration<
    Seq<char>,
    Option<Seq<char>>,
    Seq<(Seq<char>, Seq<char>)>,
>;

impl View for Integration {
    type V = IntegrationView;

    open spec fn view(&self) -> IntegrationView {
        Integration {
            dir: self.dir.deep_view(),
            files: self.files.deep_view(),
            command: self.command@,
        }
    }
}

/// What the shell at a path needs in a home directory. A shell that is not
/// known runs without scripts.
pub open spec fn integration(
    home: Seq<char>,
    shell_path: Seq<char>,
    scripts: Scripts<Seq<char>>,
) -> IntegrationView {
    let name = shell_name(shell_path);
    let base = home + "/.cache/terax/shell-integration"@;
    if name == "bash"@ {
        let dir = base + "/bash"@;
        Integration {
            dir: Some(dir),
            files: seq![(dir + "/bashrc"@, scripts.bashrc)],
            command: "exec bash --rcfile "@ + dir + "/bashrc -i"@,
        }
    } else if name == "zsh"@ {
        let dir = base + "/zsh"@;
        Integration {
            dir: Some(dir),
            files: seq![
                (dir + "/.zshenv"@, scripts.zshenv),
                (dir + "/.zprofile"@, scripts.zprofile),
                (dir + "/.zshrc"@, scripts.zshrc),
                (dir + "/.zlogin"@, scripts.zlogin),
            ],
            command: "ZDOTDIR="@ + dir + " exec zsh -l"@,
        }
    } else if name == "fish"@ {
        let dir = home + "/.config/fish/conf.d"@;
        Integration {
            dir: Some(dir),
            files: seq![(dir + "/terax.fish"@, scripts.fish_init)],
            command: "exec fish -i"@,
        }
    } else {
        Integration {
            dir: None,
            files: Seq::empty(),
            command: if shell_path.len() == 0 {
                "exec $SHELL -i"@
            } else {
                "exec "@ + shell_path + " -i"@
            },
        }
    }
}

/// Works out what the shell at a path needs.
pub fn upload_integration(home: &str, shell_path: &str, scripts: Scripts) -> (r: Integration)
    ensures
        r@ == integration(home@, shell_path@, scripts@),
{
    let tail = tail_after(shell_path, '/');
    let name = trim(tail.as_str());
    let base = home.to_owned().concat("/.cache/terax/shell-integration");
    let ghost want = integration(home@, shell_path@, scripts@);
    let mut files: Vec<(String, String)> = Vec::new();
    if same(name.as_str(), "bash") {
        let dir = base.concat("/bash");
        files.push((dir.clone().concat("/bashrc"), scripts.bashrc));
        let command = "exec bash --rcfile ".to_owned().concat(dir.as_str()).concat("/bashrc -i");
        assert(files.deep_view() =~= want.files);
        Integration { dir: Some(dir), files, command }
    } else if same(name.as_str(), "zsh") {
        let dir = base.concat("/zsh");
        files.push((dir.clone().concat("/.zshenv"), scripts.zshenv));
        files.push((dir.clone().concat("/.zprofile"), scripts.zprofile));
        files.push((dir.clone().concat("/.zshrc"), scripts.zshrc));
        files.push((dir.clone().concat("/.zlogin"), scripts.zlogin));
        let command = "ZDOTDIR=".to_owned().concat(dir.as_str()).concat(" exec zsh -l");
        assert(files.deep_view() =~= want.files);
        Integration { dir: Some(dir), files, command }
    } else if same(name.as_str(), "fish") {
        let dir = home.to_owned().concat("/.config/fish/conf.d");
        files.push((dir.clone().concat("/terax.fish"), scripts.fish_init));
        assert(files.deep_view() =~= want.files);
        Integration { dir: Some(dir), files, command: "exec fish -i".to_owned() }
    } else {
        let command = if shell_path.is_empty() {
            "exec $SHELL -i".to_owned()
        } else {
            "exec ".to_owned().concat(shell_path).concat(" -i")
        };
        assert(files.deep_view() =~= want.files);
        Integration { dir: None, files, command }
    }
}

/// Where a terminal is to run.
pub struct Place<S = String> {
    pub user: S,
    pub host: S,
    pub port: u16,
    pub home: S,
}

impl View for Place {
    type V = Place<Seq<char>>;

    open spec fn view(&self) -> Place<Seq<char>> {
        Place { user: self.user@, host: self.host@, port: self.port, home: self.home@ }
    }
}

/// What making a terminal waits for.
pub enum Stage<
    S = String,
    C = Scripts,
    M = MakeDirs,
    L = Vec<(String, String)>,
> {
    /// The user's shell.
    Probing { scripts: C },
    /// A directory; these files and this command come after it.
    Making { dirs: M, files: L, command: S },
    /// A file at a path; these files and this command come after it.
    Writing { path: S, files: L, command: S },
}

/// What making a terminal waits for, as contracts speak of it.
pub type StageView = Stage<
    Seq<char>,
    Scripts<Seq<char>>,
    MakeDirsView,
    Seq<(Seq<char>, Seq<char>)>,
>;

impl View for Stage {
    type V = StageView;

    open spec fn view(&self) -> StageView {
        match self {
            Stage::Probing { scripts } => Stage::Probing { scripts: scripts@ },
            Stage::Making { dirs, files, command } => Stage::Making {
                dirs: dirs@,
                files: files.deep_view(),
                command: command@,
            },
            Stage::Writing { path, files, command } => Stage::Writing {
                path: path@,
                files: files.deep_view(),
                command: command@,
            },
        }
    }
}

/// Making a terminal.
pub struct BuildTerminal<P = Place, G = Stage> {
    pub place: P,
    pub stage: G,
}

/// Making a terminal, as contracts speak of it.
pub type BuildTerminalView = BuildTerminal<Place<Seq<char>>, StageView>;

impl View for BuildTerminal {
    type V = BuildTerminalView;

    open spec fn view(&self) -> BuildTerminalView {
        BuildTerminal { place: self.place@, stage: self.stage@ }
    }
}

/// Where making a terminal stands, as contracts speak of it.
pub type TerminalStep = StepView<BuildTerminalView, CommandView>;

/// Making a terminal when the files are left to be written.
pub open spec fn write_files(
    place: Place<Seq<char>>,
    files: Seq<(Seq<char>, Seq<char>)>,
    command: Seq<char>,
) -> TerminalStep {
    if files.len() == 0 {
        Step::Finish(Ok(ssh_command(place.user, place.host, place.port, command)))
    } else {
        Step::Ask {
            request: Request::Write { path: files[0].0, content: files[0].1 },
            state: BuildTerminal {
                place,
                stage: Stage::Writing { path: files[0].0, files: files.drop_first(), command },
            },
        }
    }
}

/// Making a terminal while directories are made.
pub open spec fn making(
    place: Place<Seq<char>>,
    step: StepView<MakeDirsView, ()>,
    files: Seq<(Seq<char>, Seq<char>)>,
    command: Seq<char>,
) -> TerminalStep {
    match step {
        Step::Ask { request, state } => Step::Ask {
            request,
            state: BuildTerminal { place, stage: Stage::Making { dirs: state, files, command } },
        },
        Step::Finish(Ok(_)) => write_files(place, files, command),
        Step::Finish(Err(e)) => Step::Finish(Err(e)),
    }
}

/// Making a terminal once the shell is known.
pub open spec fn prepared(
    place: Place<Seq<char>>,
    shell_path: Seq<char>,
    scripts: Scripts<Seq<char>>,
) -> TerminalStep {
    let i = integration(place.home, shell_path, scripts);
    match i.dir {
        Some(dir) => making(place, make_dirs(prefixes(dir)), i.files, i.command),
        None => write_files(place, i.files, i.command),
    }
}

/// How making a terminal begins.
pub open spec fn terminal_start(
    place: Place<Seq<char>>,
    scripts: Scripts<Seq<char>>,
) -> TerminalStep {
    Step::Ask {
        request: Request::Exec(shell_probe()),
        state: BuildTerminal { place, stage: Stage::Probing { scripts } },
    }
}

/// How making a terminal goes on. A host that does not tell the shell is taken
/// to have bash.
pub open spec fn terminal_next(state: BuildTerminalView, reply: ReplyView) -> TerminalStep {
    match state.stage {
        Stage::Probing { scripts } => match reply {
            Reply::Output(o) => prepared(state.place, shell_in(o), scripts),
            Reply::Failed(_) | Reply::Broken(_) => prepared(
                state.place,
                shell_in(Seq::empty()),
                scripts,
            ),
            _ => Step::Finish(Err(unexpected())),
        },
        Stage::Making { dirs, files, command } => making(
            state.place,
            make_dirs_next(dirs, reply),
            files,
            command,
        ),
        Stage::Writing { path, files, command } => match reply {
            Reply::Done => write_files(state.place, files, command),
            Reply::Failed(e) => Step::Finish(Err("ssh: upload "@ + path + ": "@ + e)),
            Reply::Broken(e) => Step::Finish(Err("ssh: write "@ + path + ": "@ + e)),
            _ => Step::Finish(Err(unexpected())),
        },
    }
}

fn next_file(place: Place, files: Vec<(String, String)>, command: String) -> (r: Step<
    BuildTerminal,
    TerminalCommand,
>)
    ensures
        r@ == write_files(place@, files.deep_view(), command@),
{
    let mut left = files;
    if left.len() == 0 {
        Step::Finish(
            Ok(
                make_command(
                    place.user.as_str(),
                    place.host.as_str(),
                    place.port,
                    command.as_str(),
                ),
            ),
        )
    } else {
        let (path, content) = left.remove(0);
        assert(left.deep_view() =~= files.deep_view().drop_first());
        Step::Ask {
            request: Request::Write { path: path.clone(), content },
            state: BuildTerminal { place, stage: Stage::Writing { path, files: left, command } },
        }
    }
}

fn make_next(
    place: Place,
    step: Step<MakeDirs, ()>,
    files: Vec<(String, String)>,
    command: String,
) -> (r: Step<BuildTerminal, TerminalCommand>)
    ensures
        r@ == making(place@, step@, files.deep_view(), command@),
{
    match step {
        Step::Ask { request, state } => Step::Ask {
            request,
            state: BuildTerminal { place, stage: Stage::Making { dirs: state, files, command } },
        },
        Step::Finish(Ok(_)) => next_file(place, files, command),
        Step::Finish(Err(e)) => Step::Finish(Err(e)),
    }
}

fn prepare(place: Place, shell_path: &str, scripts: Scripts) -> (r: Step<
    BuildTerminal,
    TerminalCommand,
>)
    ensures
        r@ == prepared(place@, shell_path@, scripts@),
{
    let i = upload_integration(place.home.as_str(), shell_path, scripts);
    match i.dir {
        Some(dir) => make_next(place, mkdir_p(dir.as_str()), i.files, i.command),
        None => next_file(place, i.files, i.command),
    }
}

/// Where the terminal of a connection is to run.
pub open spec fn place_of(info: ConnectionInfo<Seq<char>>) -> Place<Seq<char>> {
    Place { user: info.user, host: info.host, port: info.port, home: info.home }
}

/// Makes the command that opens a terminal at the other end of a connection.
/// The terminal starts in the directory that the host chooses, whatever
/// directory is asked for.
pub fn build_terminal_command(
    info: &ConnectionInfo,
    _cwd: Option<String>,
    scripts: Scripts,
) -> (r: Step<BuildTerminal, TerminalCommand>)
    ensures
        r@ == terminal_start(place_of(info.deep_view()), scripts@),
{
    let place = Place {
        user: info.user.clone(),
        host: info.host.clone(),
        port: info.port,
        home: info.home.clone(),
    };
    let probe =
        "getent passwd \"$(id -un)\" 2>/dev/null | cut -d: -f7 | tail -n1; echo \"${SHELL:-}\"";
    Step::Ask {
        request: Request::Exec(probe.to_owned()),
        state: BuildTerminal { place, stage: Stage::Probing { scripts } },
    }
}

impl BuildTerminal {
    /// Goes on making the terminal.
    pub fn resume(self, reply: Reply) -> (r: Step<BuildTerminal, TerminalCommand>)
        ensures
            r@ == terminal_next(self@, reply@),
    {
        let BuildTerminal { place, stage } = self;
        match stage {
            Stage::Probing { scripts } => match reply {
                Reply::Output(o) => {
                    let shell = detect_remote_shell(o.as_str());
                    prepare(place, shell.as_str(), scripts)
                },
                Reply::Failed(_) | Reply::Broken(_) => {
                    let none = String::new();
                    assert(none@ =~= Seq::<char>::empty());
                    let shell = detect_remote_shell(none.as_str());
                    prepare(place, shell.as_str(), scripts)
                },
                _ => Step::Finish(Err(unexpected_reply())),
            },
            Stage::Making { dirs, files, command } => make_next(
                place,
                dirs.resume(reply),
                files,
                command,
            ),
            Stage::Writing { path, files, command } => match reply {
                Reply::Done => next_file(place, files, command),
                Reply::Failed(e) => Step::Finish(
                    Err(
                        "ssh: upload ".to_owned().concat(path.as_str()).concat(": ").concat(
                            e.as_str(),
                        ),
                    ),
                ),
                Reply::Broken(e) => Step::Finish(
                    Err(
                        "ssh: write ".to_owned().concat(path.as_str()).concat(": ").concat(
                            e.as_str(),
                        ),
                    ),
                ),
                _ => Step::Finish(Err(unexpected_reply())),
            },
        }
    }
}

/// How making a terminal goes on, as a value.
pub open spec fn building() -> spec_fn(BuildTerminalView, ReplyView) -> TerminalStep {
    |s: BuildTerminalView, reply: ReplyView| terminal_next(s, reply)
}

/// Whether these files were written, one after the other, from request number
/// `k` on.
pub open spec fn uploaded(
    requests: Seq<Request<Seq<char>>>,
    replies: Seq<ReplyView>,
    k: int,
    files: Seq<(Seq<char>, Seq<char>)>,
) -> bool {
    &&& 0 <= k
    &&& k + files.len() <= requests.len()
    &&& k + files.len() <= replies.len()
    &&& forall|j: int|
        0 <= j < files.len() ==> #[trigger] requests[k + j] == (Request::Write {
            path: files[j].0,
            content: files[j].1,
        }) && replies[k + j] == ReplyView::Done
}

proof fn lemma_written(
    place: Place<Seq<char>>,
    files: Seq<(Seq<char>, Seq<char>)>,
    command: Seq<char>,
    replies: Seq<ReplyView>,
    done: CommandView,
)
    requires
        after(building(), write_files(place, files, command), replies) == TerminalStep::Finish(
            Ok(done),
        ),
    ensures
        done == ssh_command(place.user, place.host, place.port, command),
        uploaded(asked(building(), write_files(place, files, command), replies), replies, 0, files),
    decreases files.len(),
{
    let step = write_files(place, files, command);
    let requests = asked(building(), step, replies);
    if files.len() > 0 {
        assert(replies.len() > 0);
        let rest = replies.drop_first();
        assert(after(building(), terminal_next(step->state, replies[0]), rest)
            == TerminalStep::Finish(Ok(done)));
        if !(replies[0] is Done) {
            assert(terminal_next(step->state, replies[0]) is Finish);
        }
        assert(replies[0] == ReplyView::Done);
        let left = files.drop_first();
        lemma_written(place, left, command, rest, done);
        let later = asked(building(), write_files(place, left, command), rest);
        assert(requests =~= seq![step->request] + later);
        assert forall|j: int| 0 <= j < files.len() implies #[trigger] requests[0 + j] == (
        Request::Write { path: files[j].0, content: files[j].1 }) && replies[0 + j]
            == ReplyView::Done by {
            if j > 0 {
                assert(later[0 + (j - 1)] == requests[j]);
                assert(rest[j - 1] == replies[j]);
                assert(left[j - 1] == files[j]);
            }
        }
    }
}

proof fn lemma_made(
    place: Place<Seq<char>>,
    step: StepView<MakeDirsView, ()>,
    files: Seq<(Seq<char>, Seq<char>)>,
    command: Seq<char>,
    replies: Seq<ReplyView>,
    done: CommandView,
) -> (k: int)
    requires
        after(building(), making(place, step, files, command), replies) == TerminalStep::Finish(
            Ok(done),
        ),
    ensures
        done == ssh_command(place.user, place.host, place.port, command),
        uploaded(
            asked(building(), making(place, step, files, command), replies),
            replies,
            k,
            files,
        ),
    decreases replies.len(),
{
    let now = making(place, step, files, command);
    let requests = asked(building(), now, replies);
    match step {
        Step::Ask { request, state } => {
            assert(replies.len() > 0);
            let rest = replies.drop_first();
            let next = make_dirs_next(state, replies[0]);
            let k = lemma_made(place, next, files, command, rest, done);
            let later = asked(building(), making(place, next, files, command), rest);
            assert(requests =~= seq![request] + later);
            assert forall|j: int| 0 <= j < files.len() implies #[trigger] requests[k + 1 + j] == (
            Request::Write { path: files[j].0, content: files[j].1 }) && replies[k + 1 + j]
                == ReplyView::Done by {
                assert(later[k + j] == requests[k + 1 + j]);
                assert(rest[k + j] == replies[k + 1 + j]);
            }
            k + 1
        },
        Step::Finish(Ok(_)) => {
            lemma_written(place, files, command, replies, done);
            0
        },
        Step::Finish(Err(_)) => 0,
    }
}

/// The output that a reply to the question for the shell stands for.
pub open spec fn told(reply: ReplyView) -> Seq<char> {
    match reply {
        Reply::Output(o) => o,
        _ => Seq::empty(),
    }
}

/// The command that opens a terminal is handed out only once all that its
/// shell needs was written to the host, and it starts that shell.
pub proof fn scripts_are_uploaded_first(
    place: Place<Seq<char>>,
    scripts: Scripts<Seq<char>>,
    replies: Seq<ReplyView>,
    done: CommandView,
)
    requires
        after(building(), terminal_start(place, scripts), replies) == TerminalStep::Finish(
            Ok(done),
        ),
    ensures
        replies.len() > 0,
        ({
            let i = integration(place.home, shell_in(told(replies[0])), scripts);
            &&& done == ssh_command(place.user, place.host, place.port, i.command)
            &&& exists|k: int| #[trigger]
                uploaded(
                    asked(building(), terminal_start(place, scripts), replies),
                    replies,
                    k,
                    i.files,
                )
        }),
{
    let start = terminal_start(place, scripts);
    let requests = asked(building(), start, replies);
    assert(replies.len() > 0);
    let rest = replies.drop_first();
    let shell = shell_in(told(replies[0]));
    let next = prepared(place, shell, scripts);
    assert(terminal_next(start->state, replies[0]) == next || terminal_next(
        start->state,
        replies[0],
    ) == TerminalStep::Finish(Err(unexpected())));
    let second = terminal_next(start->state, replies[0]);
    assert(after(building(), second, rest) == TerminalStep::Finish(Ok(done)));
    if second is Finish {
        reveal_with_fuel(after, 2);
        assert(after(building(), second, rest) == second);
    }
    assert(second == next);
    let i = integration(place.home, shell, scripts);
    let later = asked(building(), next, rest);
    assert(requests =~= seq![start->request] + later);
    let k = match i.dir {
        Some(dir) => lemma_made(
            place,
            make_dirs(prefixes(dir)),
            i.files,
            i.command,
            rest,
            done,
        ),
        None => {
            lemma_written(place, i.files, i.command, rest, done);
            0
        },
    };
    assert forall|j: int| 0 <= j < i.files.len() implies #[trigger] requests[k + 1 + j] == (
    Request::Write { path: i.files[j].0, content: i.files[j].1 }) && replies[k + 1 + j]
        == ReplyView::Done by {
        assert(later[k + j] == requests[k + 1 + j]);
        assert(rest[k + j] == replies[k + 1 + j]);
    }
    assert(uploaded(requests, replies, k + 1, i.files));
}

/// While files are written, the requests are to write them, in turn.
proof fn lemma_writes(
    place: Place<Seq<char>>,
    files: Seq<(Seq<char>, Seq<char>)>,
    command: Seq<char>,
    replies: Seq<ReplyView>,
    i: int,
)
    requires
        0 <= i < asked(building(), write_files(place, files, command), replies).len(),
    ensures
        i < files.len(),
        asked(building(), write_files(place, files, command), replies)[i] == (Request::Write {
            path: files[i].0,
            content: files[i].1,
        }),
    decreases replies.len(),
{
    reveal_with_fuel(asked, 2);
    let step = write_files(place, files, command);
    if i > 0 {
        let rest = replies.drop_first();
        let next = terminal_next(step->state, replies[0]);
        let later = asked(building(), next, rest);
        assert(asked(building(), step, replies) =~= seq![step->request] + later);
        assert(next == write_files(place, files.drop_first(), command));
        lemma_writes(place, files.drop_first(), command, rest, i - 1);
    }
}

/// Whether the host has said of a directory that it is there, or has made it,
/// by one of the first requests.
pub open spec fn is_there(
    requests: Seq<Request<Seq<char>>>,
    replies: Seq<ReplyView>,
    dir: Seq<char>,
    i: int,
) -> bool {
    exists|j: int|
        0 <= j < i && j < replies.len() && {
            ||| #[trigger] requests[j] == Request::Stat(dir) && replies[j] is Attrs
            ||| requests[j] == (Request::Mkdir { path: dir, mode: 0o755 }) && replies[j] is Done
        }
}

proof fn lemma_is_there_later(
    requests: Seq<Request<Seq<char>>>,
    first: Seq<Request<Seq<char>>>,
    later: Seq<Request<Seq<char>>>,
    replies: Seq<ReplyView>,
    dir: Seq<char>,
    i: int,
)
    requires
        requests == first + later,
        first.len() <= i,
        first.len() <= replies.len(),
        is_there(later, replies.skip(first.len() as int), dir, i - first.len()),
        i <= requests.len(),
    ensures
        is_there(requests, replies, dir, i),
{
    let n = first.len() as int;
    let rest = replies.skip(n);
    let j = choose|j: int|
        0 <= j < i - n && j < rest.len() && {
            ||| #[trigger] later[j] == Request::Stat(dir) && rest[j] is Attrs
            ||| later[j] == (Request::Mkdir { path: dir, mode: 0o755 }) && rest[j] is Done
        };
    assert(requests[n + j] == later[j]);
    assert(replies[n + j] == rest[j]);
}

/// A file is written only once the last of the directories is there.
proof fn lemma_dirs_first(
    place: Place<Seq<char>>,
    dirs: Seq<Seq<char>>,
    files: Seq<(Seq<char>, Seq<char>)>,
    command: Seq<char>,
    replies: Seq<ReplyView>,
    i: int,
)
    requires
        dirs.len() > 0,
        ({
            let requests = asked(
                building(),
                making(place, make_dirs(dirs), files, command),
                replies,
            );
            0 <= i < requests.len() && requests[i] is Write
        }),
    ensures
        ({
            let requests = asked(
                building(),
                making(place, make_dirs(dirs), files, command),
                replies,
            );
            &&& is_there(requests, replies, dirs.last(), i)
            &&& exists|k: int|
                0 <= k < files.len() && requests[i] == (Request::Write {
                    path: (#[trigger] files[k]).0,
                    content: files[k].1,
                })
        }),
    decreases replies.len(),
{
    let start = making(place, make_dirs(dirs), files, command);
    let requests = asked(building(), start, replies);
    reveal_with_fuel(asked, 3);
    assert(replies.len() > 0);
    let r1 = replies.drop_first();
    let s1 = terminal_next(start->state, replies[0]);
    let l1 = asked(building(), s1, r1);
    assert(requests =~= seq![start->request] + l1);
    let rest = dirs.drop_first();
    // How many requests were about the first directory.
    let n: int = if replies[0] is Attrs {
        1
    } else {
        2
    };
    let first = requests.take(n);
    let left = replies.skip(n);
    let after_it = making(place, make_dirs(rest), files, command);
    let later = asked(building(), after_it, left);
    if replies[0] is Attrs {
        assert(s1 == after_it);
        assert(left =~= r1);
    } else {
        assert(replies[0] is Failed || replies[0] is Broken);
        assert(s1->request is Mkdir);
        assert(i >= 2);
        assert(r1.len() > 0);
        let s2 = terminal_next(s1->state, r1[0]);
        let r2 = r1.drop_first();
        assert(l1 =~= seq![s1->request] + asked(building(), s2, r2));
        assert(r1[0] is Done);
        assert(s2 == after_it);
        assert(left =~= r2);
    }
    assert(requests =~= first + later);
    assert(requests[i] == later[i - n]);
    if rest.len() == 0 {
        assert(after_it == write_files(place, files, command));
        lemma_writes(place, files, command, left, i - n);
        assert(files[i - n].0 == requests[i]->Write_path);
        if replies[0] is Attrs {
            assert(requests[0] == Request::Stat(dirs.last()) && replies[0] is Attrs);
        } else {
            assert(requests[1] == (Request::Mkdir { path: dirs.last(), mode: 0o755 }));
            assert(replies[1] == r1[0]);
        }
        assert(is_there(requests, replies, dirs.last(), i));
    } else {
        lemma_dirs_first(place, rest, files, command, left, i - n);
        lemma_is_there_later(requests, first, later, replies, dirs.last(), i);
    }
}

/// No script is written before the host has said that the directory it goes to
/// is there, or has made it: that is the path of the script without its last
/// name. Where the home directory is written as the host writes paths, the
/// directory is asked for and made under just that path, and else without the
/// separators that are too many.
pub proof fn scripts_go_to_directories_that_are_there(
    place: Place<Seq<char>>,
    scripts: Scripts<Seq<char>>,
    replies: Seq<ReplyView>,
    i: int,
)
    requires
        ({
            let requests = asked(building(), terminal_start(place, scripts), replies);
            0 <= i < requests.len() && requests[i] is Write
        }),
    ensures
        ({
            let requests = asked(building(), terminal_start(place, scripts), replies);
            let path = requests[i]->Write_path;
            exists|dir: Seq<char>, name: Seq<char>|
                {
                    &&& path == #[trigger] (dir + "/"@ + name)
                    &&& !name.contains('/')
                    &&& prefixes(dir).len() > 0
                    &&& is_there(requests, replies, prefixes(dir).last(), i)
                    &&& place.home.len() == 0 || prefixes(place.home).last() == place.home
                        && place.home != "/"@ ==> is_there(requests, replies, dir, i)
                }
        }),
{
    let start = terminal_start(place, scripts);
    let requests = asked(building(), start, replies);
    reveal_with_fuel(asked, 2);
    assert(replies.len() > 0);
    let rest = replies.drop_first();
    let second = terminal_next(start->state, replies[0]);
    let later = asked(building(), second, rest);
    assert(requests =~= seq![start->request] + later);
    let shell = shell_in(told(replies[0]));
    assert(second == prepared(place, shell, scripts));
    let n = integration(place.home, shell, scripts);
    match n.dir {
        None => {
            lemma_writes(place, n.files, n.command, rest, i - 1);
        },
        Some(dir) => {
            lemma_integration_dir(place.home, shell, scripts);
            lemma_dirs_first(place, prefixes(dir), n.files, n.command, rest, i - 1);
            assert(rest =~= replies.skip(1));
            lemma_is_there_later(
                requests,
                seq![start->request],
                later,
                replies,
                prefixes(dir).last(),
                i,
            );
            let k = choose|k: int|
                0 <= k < n.files.len() && later[i - 1] == (Request::Write {
                    path: (#[trigger] n.files[k]).0,
                    content: n.files[k].1,
                });
            let name = choose|name: Seq<char>|
                n.files[k].0 == #[trigger] (dir + "/"@ + name) && !name.contains('/');
            assert(requests[i] == later[i - 1]);
            assert(requests[i]->Write_path == dir + "/"@ + name);
        },
    }
}

/// Whether a directory is written as the host writes paths, or not at all.
spec fn settled(dir: Seq<char>) -> bool {
    dir.len() == 0 || prefixes(dir).last() == dir && dir != "/"@
}

proof fn lemma_settled_below(dir: Seq<char>, name: Seq<char>)
    requires
        name.len() > 0,
        !name.contains('/'),
        name != "."@,
    ensures
        prefixes(dir + "/"@ + name).len() > 0,
        settled(dir) ==> settled(dir + "/"@ + name),
{
    reveal_strlit("/");
    let sub = dir + "/"@ + name;
    assert(sub.len() > 1);
    a_name_more_is_a_directory_more(sub, name);
    if dir.len() > 0 {
        a_name_more_is_a_directory_more(dir, name);
    } else {
        a_name_more_is_a_directory_more("/"@, name);
        assert(sub =~= "/"@ + name);
    }
}

/// Names of directories are names.
proof fn lemma_dir_name(name: Seq<char>)
    requires
        name == "bash"@ || name == "zsh"@ || name == ".cache"@ || name == "terax"@ || name
            == "shell-integration"@ || name == ".config"@ || name == "fish"@ || name == "conf.d"@,
    ensures
        name.len() > 0,
        !name.contains('/'),
        name != "."@,
{
    reveal_strlit(".");
    if name == "bash"@ {
        reveal_strlit("bash");
    } else if name == "zsh"@ {
        reveal_strlit("zsh");
    } else if name == ".cache"@ {
        reveal_strlit(".cache");
    } else if name == "terax"@ {
        reveal_strlit("terax");
    } else if name == "shell-integration"@ {
        reveal_strlit("shell-integration");
    } else if name == ".config"@ {
        reveal_strlit(".config");
    } else if name == "fish"@ {
        reveal_strlit("fish");
    } else {
        reveal_strlit("conf.d");
    }
    assert(name.len() > 1 && "."@.len() == 1);
}

proof fn lemma_cache_dir(home: Seq<char>, last: Seq<char>)
    requires
        last == "bash"@ || last == "zsh"@,
    ensures
        ({
            let dir = home + "/.cache/terax/shell-integration"@ + "/"@ + last;
            &&& prefixes(dir).len() > 0
            &&& settled(home) ==> settled(dir)
        }),
{
    let d1 = home + "/"@ + ".cache"@;
    let d2 = d1 + "/"@ + "terax"@;
    let d3 = d2 + "/"@ + "shell-integration"@;
    lemma_dir_name(".cache"@);
    lemma_dir_name("terax"@);
    lemma_dir_name("shell-integration"@);
    lemma_dir_name(last);
    lemma_settled_below(home, ".cache"@);
    lemma_settled_below(d1, "terax"@);
    lemma_settled_below(d2, "shell-integration"@);
    lemma_settled_below(d3, last);
    assert(home + "/.cache/terax/shell-integration"@ == d3) by {
        reveal_strlit("/");
        reveal_strlit(".cache");
        reveal_strlit("terax");
        reveal_strlit("shell-integration");
        reveal_strlit("/.cache/terax/shell-integration");
        assert(home + "/.cache/terax/shell-integration"@ =~= d3);
    }
}

proof fn lemma_fish_dir(home: Seq<char>)
    ensures
        prefixes(home + "/.config/fish/conf.d"@).len() > 0,
        settled(home) ==> settled(home + "/.config/fish/conf.d"@),
{
    let d1 = home + "/"@ + ".config"@;
    let d2 = d1 + "/"@ + "fish"@;
    let d3 = d2 + "/"@ + "conf.d"@;
    lemma_dir_name(".config"@);
    lemma_dir_name("fish"@);
    lemma_dir_name("conf.d"@);
    lemma_settled_below(home, ".config"@);
    lemma_settled_below(d1, "fish"@);
    lemma_settled_below(d2, "conf.d"@);
    assert(home + "/.config/fish/conf.d"@ == d3) by {
        reveal_strlit("/");
        reveal_strlit(".config");
        reveal_strlit("fish");
        reveal_strlit("conf.d");
        reveal_strlit("/.config/fish/conf.d");
        assert(home + "/.config/fish/conf.d"@ =~= d3);
    }
}

/// The name of a file in the directory of its shell.
proof fn lemma_file_name(dir: Seq<char>, tail: Seq<char>)
    requires
        tail == "/bashrc"@ || tail == "/.zshenv"@ || tail == "/.zprofile"@ || tail == "/.zshrc"@
            || tail == "/.zlogin"@ || tail == "/terax.fish"@,
    ensures
        exists|name: Seq<char>|
            dir + tail == #[trigger] (dir + "/"@ + name) && !name.contains('/'),
{
    reveal_strlit("/");
    reveal_strlit("/bashrc");
    reveal_strlit("/.zshenv");
    reveal_strlit("/.zprofile");
    reveal_strlit("/.zshrc");
    reveal_strlit("/.zlogin");
    reveal_strlit("/terax.fish");
    let name = tail.drop_first();
    assert(dir + tail =~= dir + "/"@ + name);
    assert(!name.contains('/')) by {
        assert forall|j: int| 0 <= j < name.len() implies #[trigger] name[j] != '/' by {
            assert(name[j] == tail[j + 1]);
        }
    }
}

/// The files of a shell stand right in its directory, which is one that leads
/// somewhere.
proof fn lemma_integration_dir(home: Seq<char>, shell: Seq<char>, scripts: Scripts<Seq<char>>)
    requires
        integration(home, shell, scripts).dir is Some,
    ensures
        ({
            let n = integration(home, shell, scripts);
            let dir = n.dir->0;
            &&& dir.len() > 0
            &&& prefixes(dir).len() > 0
            &&& settled(home) ==> prefixes(dir).last() == dir
            &&& forall|k: int|
                0 <= k < n.files.len() ==> exists|name: Seq<char>|
                    (#[trigger] n.files[k]).0 == #[trigger] (dir + "/"@ + name) && !name.contains(
                        '/',
                    )
        }),
{
    let n = integration(home, shell, scripts);
    let dir = n.dir->0;
    let base = home + "/.cache/terax/shell-integration"@;
    assert(dir.len() > 0 && base + "/bash"@ == base + "/"@ + "bash"@ && base + "/zsh"@ == base + "/"@
        + "zsh"@) by {
        reveal_strlit("/");
        reveal_strlit("/bash");
        reveal_strlit("/zsh");
        reveal_strlit("bash");
        reveal_strlit("zsh");
        reveal_strlit("/.config/fish/conf.d");
        assert(base + "/bash"@ =~= base + "/"@ + "bash"@);
        assert(base + "/zsh"@ =~= base + "/"@ + "zsh"@);
    }
    lemma_cache_dir(home, "bash"@);
    lemma_cache_dir(home, "zsh"@);
    lemma_fish_dir(home);
    lemma_file_name(dir, "/bashrc"@);
    lemma_file_name(dir, "/.zshenv"@);
    lemma_file_name(dir, "/.zprofile"@);
    lemma_file_name(dir, "/.zshrc"@);
    lemma_file_name(dir, "/.zlogin"@);
    lemma_file_name(dir, "/terax.fish"@);
}

/// What a shell is called is the last part of its path, without white space
/// around it.
pub proof fn shells_go_by_their_last_name(dir: Seq<char>, name: Seq<char>)
    requires
        !name.contains('/'),
    ensures
        shell_name(dir + seq!['/'] + name) == trimmed(name),
        shell_name(name) == trimmed(name),
{
    the_last_part_follows_the_separator(dir, '/', name);
}

/// The shell is what stands on the first line of the answer that is not blank,
/// without white space around it; where there is no such line it is bash.
pub proof fn the_first_line_names_the_shell(line: Seq<char>, rest: Seq<char>)
    requires
        !line.contains('\n'),
        line.len() == 0 || line.last() != '\r',
    ensures
        shell_in(Seq::empty()) == "/bin/bash"@,
        trimmed(line).len() > 0 ==> shell_in(line) == trimmed(line) && shell_in(
            line + seq!['\n'] + rest,
        ) == trimmed(line),
        trimmed(line).len() == 0 ==> shell_in(line + seq!['\n'] + rest) == shell_in(rest)
            && shell_in(line) == "/bin/bash"@,
{
    reveal_with_fuel(first_text, 2);
    lines_go_one_by_one(line, rest);
    lines_go_one_by_one(Seq::empty(), rest);
    trimming_leaves_the_text(line);
    assert((seq![line] + lines_of(rest)).drop_first() =~= lines_of(rest));
    if line.len() == 0 {
        assert(line =~= Seq::<char>::empty());
    }
}

/// Bash gets one script and is told to read it, zsh gets four and is told where
/// they stand, fish gets one where it looks by itself, and any other shell is
/// started without any; each script goes under the name that its shell knows.
pub proof fn shells_are_started_with_their_scripts(
    home: Seq<char>,
    shell_path: Seq<char>,
    scripts: Scripts<Seq<char>>,
)
    ensures
        ({
            let n = integration(home, shell_path, scripts);
            let name = shell_name(shell_path);
            &&& name == "bash"@ ==> {
                &&& n.files.len() == 1
                &&& n.files[0].0 == home + "/.cache/terax/shell-integration/bash/bashrc"@
                &&& n.files[0].1 == scripts.bashrc
                &&& n.command == "exec bash --rcfile "@ + n.files[0].0 + " -i"@
                &&& n.dir == Some(home + "/.cache/terax/shell-integration/bash"@)
            }
            &&& name == "zsh"@ ==> {
                &&& n.dir == Some(home + "/.cache/terax/shell-integration/zsh"@)
                &&& n.files == seq![
                    (n.dir->0 + "/.zshenv"@, scripts.zshenv),
                    (n.dir->0 + "/.zprofile"@, scripts.zprofile),
                    (n.dir->0 + "/.zshrc"@, scripts.zshrc),
                    (n.dir->0 + "/.zlogin"@, scripts.zlogin),
                ]
                &&& n.command == "ZDOTDIR="@ + n.dir->0 + " exec zsh -l"@
            }
            &&& name == "fish"@ ==> {
                &&& n.dir == Some(home + "/.config/fish/conf.d"@)
                &&& n.files == seq![
                    (home + "/.config/fish/conf.d/terax.fish"@, scripts.fish_init),
                ]
                &&& n.command == "exec fish -i"@
            }
            &&& name != "bash"@ && name != "zsh"@ && name != "fish"@ ==> {
                &&& n.dir is None
                &&& n.files.len() == 0
                &&& shell_path.len() > 0 ==> n.command == "exec "@ + shell_path + " -i"@
                &&& shell_path.len() == 0 ==> n.command == "exec $SHELL -i"@
            }
        }),
{
    reveal_strlit("bash");
    reveal_strlit("zsh");
    reveal_strlit("fish");
    assert("bash"@[0] != "zsh"@[0] && "bash"@[0] != "fish"@[0] && "zsh"@[0] != "fish"@[0]);
    reveal_strlit("/.cache/terax/shell-integration");
    reveal_strlit("/.cache/terax/shell-integration/bash");
    reveal_strlit("/.cache/terax/shell-integration/zsh");
    reveal_strlit("/.cache/terax/shell-integration/bash/bashrc");
    reveal_strlit("/bash");
    reveal_strlit("/zsh");
    reveal_strlit("/bashrc");
    reveal_strlit("/bashrc -i");
    reveal_strlit(" -i");
    reveal_strlit("/.config/fish/conf.d");
    reveal_strlit("/.config/fish/conf.d/terax.fish");
    reveal_strlit("/terax.fish");
    let base = home + "/.cache/terax/shell-integration"@;
    assert(base + "/bash"@ =~= home + "/.cache/terax/shell-integration/bash"@);
    assert(base + "/bash"@ + "/bashrc"@ =~= home
        + "/.cache/terax/shell-integration/bash/bashrc"@);
    assert("exec bash --rcfile "@ + (base + "/bash"@) + "/bashrc -i"@ =~= "exec bash --rcfile "@ + (
    base + "/bash"@ + "/bashrc"@) + " -i"@);
    assert(base + "/zsh"@ =~= home + "/.cache/terax/shell-integration/zsh"@);
    assert(home + "/.config/fish/conf.d"@ + "/terax.fish"@ =~= home
        + "/.config/fish/conf.d/terax.fish"@);
}

/// The command for a terminal is ssh, told to make one, with the port, the user
/// and the host, and what the host is to run as its last word. It tells what
/// terminal it is.
pub proof fn terminals_are_opened_by_ssh(
    user: Seq<char>,
    host: Seq<char>,
    port: u16,
    remote: Seq<char>,
)
    ensures
        ({
            let c = ssh_command(user, host, port, remote);
            &&& c.argv.len() == 8
            &&& c.argv[0] == "ssh"@
            &&& c.argv[1] == "-tt"@
            &&& c.argv[2] == "-p"@ && c.argv[3] == decimal(port as nat)
            &&& c.argv[4] == "-o"@ && c.argv[5] == "ServerAliveInterval=30"@
            &&& c.argv[6] == user + "@"@ + host
            &&& c.argv[7] == remote
            &&& c.env.dom() == set!["TERM"@, "COLORTERM"@]
            &&& c.env["TERM"@] == "xterm-256color"@
            &&& c.env["COLORTERM"@] == "truecolor"@
        }),
{
    reveal_strlit("TERM");
    reveal_strlit("COLORTERM");
    assert("TERM"@.len() != "COLORTERM"@.len());
    let c = ssh_command(user, host, port, remote);
    assert(c.env.dom() =~= set!["TERM"@, "COLORTERM"@]);
}

/// Making a terminal begins by asking the host for the shell of its user. A
/// script that cannot be written ends it with the path and the reason, and one
/// that was written leads to the next, or to the command for that shell.
pub proof fn terminals_wait_for_their_scripts(
    place: Place<Seq<char>>,
    scripts: Scripts<Seq<char>>,
    path: Seq<char>,
    files: Seq<(Seq<char>, Seq<char>)>,
    command: Seq<char>,
    e: Seq<char>,
)
    ensures
        terminal_start(place, scripts) matches Step::Ask { request, state } && request
            == Request::Exec(
            "getent passwd \"$(id -un)\" 2>/dev/null | cut -d: -f7 | tail -n1; echo \"${SHELL:-}\""@,
        ),
        ({
            let state = BuildTerminal { place, stage: Stage::Writing { path, files, command } };
            &&& terminal_next(state, ReplyView::Failed(e)) == TerminalStep::Finish(
                Err("ssh: upload "@ + path + ": "@ + e),
            )
            &&& terminal_next(state, ReplyView::Broken(e)) == TerminalStep::Finish(
                Err("ssh: write "@ + path + ": "@ + e),
            )
            &&& files.len() == 0 ==> terminal_next(state, ReplyView::Done) == TerminalStep::Finish(
                Ok(ssh_command(place.user, place.host, place.port, command)),
            )
            &&& files.len() > 0 ==> (terminal_next(state, ReplyView::Done) matches Step::Ask {
                request,
                state,
            } && request == (Request::Write { path: files[0].0, content: files[0].1 }))
        }),
{
}

/// The terminal of a connection runs where the connection leads: the command
/// names its port, its user and its host.
pub proof fn terminals_run_where_connections_lead(
    info: ConnectionInfo<Seq<char>>,
    scripts: Scripts<Seq<char>>,
    replies: Seq<ReplyView>,
    done: CommandView,
)
    requires
        after(building(), terminal_start(place_of(info), scripts), replies) == TerminalStep::Finish(
            Ok(done),
        ),
    ensures
        done.argv.len() == 8,
        done.argv[3] == decimal(info.port as nat),
        done.argv[6] == info.user + "@"@ + info.host,
        done.argv[7] == integration(info.home, shell_in(told(replies[0])), scripts).command,
{
    scripts_are_uploaded_first(place_of(info), scripts, replies, done);
}

} // verus!
