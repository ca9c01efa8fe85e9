//! Opening a connection to a remote host.
//!
//! The host is dialled, its key is held against the pins, the user is
//! authenticated and a file channel is opened, in that order.
use std::path::PathBuf;
use vstd::prelude::*;
use vstd::string::*;

use crate::numbers::{decimal, decimal_text, hex, hex_encode};
use crate::paths::{
    canon_remote, canonical, config_dir, expand_tilde_in, home_dir, known_hosts_in, pins_below,
    tilde_expanded, LocalPath, LocalView,
};
use crate::pins::{
    holds, judge, load_known_hosts, pin_host, pin_name, pin_name_of, pins_are_per_host_and_port,
    pins_in, pins_json, pins_of, save_known_hosts, trust, Trust,
};
use crate::remote::{
    after, asked, lemma_after_step, lemma_asked_at, lemma_asked_len, lemma_first_reply, unexpected,
    unexpected_reply, Step, StepView,
};
use crate::table::{distinct, lookup, lookup_finds_what_stands_there, put, putting_keeps_the_rest};
use crate::text::{lemma_first_index, trim, trimmed, trimming_leaves_the_text, whitespace};

verus! {

/// The port of a host that names none.
pub const DEFAULT_PORT: u16 = 22;

/// What is known of an open connection.
#[derive(Clone, Debug, PartialEq, Eq)]
pub struct ConnectionInfo<S = String> {
    pub id: S,
    pub label: S,
    pub host: S,
    pub port: u16,
    pub user: S,
    pub home: S,
}

impl DeepView for ConnectionInfo {
    type V = ConnectionInfo<Seq<char>>;

    open spec fn deep_view(&self) -> ConnectionInfo<Seq<char>> {
        ConnectionInfo {
            id: self.id@,
            label: self.label@,
            host: self.host@,
            port: self.port,
            user: self.user@,
            home: self.home@,
        }
    }
}

/// How a user proves who they are.
#[derive(Clone, Debug, PartialEq, Eq)]
pub enum SshAuth<S = String> {
    /// With the running key agent.
    Agent,
    /// With a password, which is kept in memory only.
    Password { password: S },
    /// With a private key file and the passphrase that it may have.
    Key { path: S, passphrase: Option<S> },
}

impl View for SshAuth {
    type V = SshAuth<Seq<char>>;

    open spec fn view(&self) -> SshAuth<Seq<char>> {
        match self {
            SshAuth::Agent => SshAuth::Agent,
            SshAuth::Password { password } => SshAuth::Password { password: password@ },
            SshAuth::Key { path, passphrase } => SshAuth::Key {
                path: path@,
                passphrase: passphrase.deep_view(),
            },
        }
    }
}

/// A connection that is asked for.
#[derive(Clone, Debug, PartialEq, Eq)]
pub struct SshConnectRequest<S = String> {
    pub host: S,
    pub port: Option<u16>,
    pub user: S,
    pub auth: SshAuth<S>,
    pub label: Option<S>,
}

impl View for SshConnectRequest {
    type V = SshConnectRequest<Seq<char>>;

    open spec fn view(&self) -> SshConnectRequest<Seq<char>> {
        SshConnectRequest {
            host: self.host@,
            port: self.port,
            user: self.user@,
            auth: self.auth@,
            label: self.label.deep_view(),
        }
    }
}

/// One thing to do on the way to a connection.
#[derive(Clone, Debug, PartialEq, Eq)]
pub enum Call<S = String, B = Vec<u8>, P = LocalPath> {
    /// Reaches a host and port over the network.
    Dial(S),
    /// Makes a session on top of that.
    Open,
    /// Agrees on keys with the host.
    Handshake,
    /// The SHA-256 hash of the key that the host presented.
    HostKey,
    /// The contents of the pin file.
    LoadPins(P),
    /// Writes the pin file, in a directory that is made where it is missing,
    /// because a host of this name shows a key with this fingerprint.
    SavePins { path: P, content: B, name: S, fingerprint: S },
    /// Authenticates with the key agent.
    Agent { user: S },
    /// Authenticates with a password.
    Password { user: S, password: S },
    /// Authenticates with a key file.
    KeyFile { user: S, path: P, passphrase: Option<S> },
    /// Whether the session is authenticated.
    Authenticated,
    /// Opens the file channel.
    Sftp,
    /// The absolute path of the directory that the file channel starts in.
    Home,
}

/// One thing to do, as contracts speak of it.
pub type CallView = Call<Seq<char>, Seq<u8>, LocalView>;

impl View for Call {
    type V = CallView;

    open spec fn view(&self) -> CallView {
        match self {
            Call::Dial(a) => Call::Dial(a@),
            Call::Open => Call::Open,
            Call::Handshake => Call::Handshake,
            Call::HostKey => Call::HostKey,
            Call::LoadPins(p) => Call::LoadPins(p@),
            Call::SavePins { path, content, name, fingerprint } => Call::SavePins {
                path: path@,
                content: content@,
                name: name@,
                fingerprint: fingerprint@,
            },
            Call::Agent { user } => Call::Agent { user: user@ },
            Call::Password { user, password } => Call::Password { user: user@, password: password@ },
            Call::KeyFile { user, path, passphrase } => Call::KeyFile {
                user: user@,
                path: path@,
                passphrase: passphrase.deep_view(),
            },
            Call::Authenticated => Call::Authenticated,
            Call::Sftp => Call::Sftp,
            Call::Home => Call::Home,
        }
    }
}

/// What came of it.
#[derive(Clone, Debug, PartialEq, Eq)]
pub enum Answer<S = String, B = Vec<u8>> {
    /// It failed, for the stated reason.
    Failed(S),
    /// It was done, with nothing to report.
    Done,
    /// The hash of the host key, where the host presented one.
    HostKey(Option<B>),
    /// The contents of the pin file, where it can be read, and its path as the
    /// user is shown it.
    Pins { bytes: Option<B>, shown: S },
    Authenticated(bool),
    Path(S),
}

/// What came of it, as contracts speak of it.
pub type AnswerView = Answer<Seq<char>, Seq<u8>>;

impl View for Answer {
    type V = AnswerView;

    open spec fn view(&self) -> AnswerView {
        match self {
            Answer::Failed(e) => Answer::Failed(e@),
            Answer::Done => Answer::Done,
            Answer::HostKey(h) => Answer::HostKey(h.deep_view()),
            Answer::Pins { bytes, shown } => Answer::Pins {
                bytes: bytes.deep_view(),
                shown: shown@,
            },
            Answer::Authenticated(yes) => Answer::Authenticated(*yes),
            Answer::Path(p) => Answer::Path(p@),
        }
    }
}

/// What opening a connection waits for.
pub enum Phase<S = String> {
    Dialing,
    Opening,
    Shaking,
    Keying,
    Loading { fingerprint: S },
    Saving,
    Proving,
    Checking,
    Channel,
    Homing,
}

/// Opening a connection, with the user's home directory on this machine and
/// the pin file.
pub struct Establish<S = String, P = LocalPath> {
    pub req: SshConnectRequest<S>,
    pub home: Option<PathBuf>,
    pub pins_path: P,
    pub phase: Phase<S>,
}

/// Opening a connection, as contracts speak of it.
pub type EstablishView = Establish<Seq<char>, LocalView>;

impl View for Establish {
    type V = EstablishView;

    open spec fn view(&self) -> EstablishView {
        Establish {
            req: self.req@,
            home: self.home,
            pins_path: self.pins_path@,
            phase: match self.phase {
                Phase::Dialing => Phase::Dialing,
                Phase::Opening => Phase::Opening,
                Phase::Shaking => Phase::Shaking,
                Phase::Keying => Phase::Keying,
                Phase::Loading { fingerprint } => Phase::Loading { fingerprint: fingerprint@ },
                Phase::Saving => Phase::Saving,
                Phase::Proving => Phase::Proving,
                Phase::Checking => Phase::Checking,
                Phase::Channel => Phase::Channel,
                Phase::Homing => Phase::Homing,
            },
        }
    }
}

/// Where opening a connection stands, as contracts speak of it.
pub type ConnectStep = StepView<EstablishView, ConnectionInfo<Seq<char>>, CallView>;

/// The port that a request means.
pub open spec fn port_of(port: Option<u16>) -> u16 {
    match port {
        Some(p) => p,
        None => DEFAULT_PORT,
    }
}

/// Names a connection.
pub open spec fn conn_id(user: Seq<char>, host: Seq<char>, port: u16) -> Seq<char> {
    user + "@"@ + host + ":"@ + decimal(port as nat)
}

/// What a connection is shown as: the label that was asked for, unless it is
/// blank.
pub open spec fn label_of(req: SshConnectRequest<Seq<char>>) -> Seq<char> {
    match req.label {
        Some(l) => if trimmed(l).len() > 0 {
            l
        } else {
            req.user + "@"@ + req.host
        },
        None => req.user + "@"@ + req.host,
    }
}

/// What is known of a connection once it is open.
pub open spec fn info_of(req: SshConnectRequest<Seq<char>>, home: Seq<char>) -> ConnectionInfo<
    Seq<char>,
> {
    ConnectionInfo {
        id: conn_id(req.user, req.host, port_of(req.port)),
        label: label_of(req),
        host: req.host,
        port: port_of(req.port),
        user: req.user,
        home,
    }
}

/// The name under which the host of a request is pinned, which is also where
/// it is reached.
pub open spec fn host_name(req: SshConnectRequest<Seq<char>>) -> Seq<char> {
    pin_name(req.host, port_of(req.port))
}

/// What is said of a host whose key is not the one that was pinned.
pub open spec fn key_changed(name: Seq<char>, shown: Seq<char>) -> Seq<char> {
    "ssh: host key for "@ + name
        + " has CHANGED (possible man-in-the-middle). If you trust this change, remove the entry from "@
        + shown + "."@
}

/// The call that authenticates a user; a key file may stand in the home
/// directory.
pub open spec fn proof_of(
    user: Seq<char>,
    auth: SshAuth<Seq<char>>,
    home: Option<PathBuf>,
) -> CallView {
    match auth {
        SshAuth::Agent => Call::Agent { user },
        SshAuth::Password { password } => Call::Password { user, password },
        SshAuth::Key { path, passphrase } => Call::KeyFile {
            user,
            path: tilde_expanded(path, home),
            passphrase,
        },
    }
}

/// What is said of an authentication that failed.
pub open spec fn refused(auth: SshAuth<Seq<char>>, e: Seq<char>) -> Seq<char> {
    match auth {
        SshAuth::Agent => "ssh: agent auth failed: "@ + e,
        SshAuth::Password { password } => "ssh: password auth failed: "@ + e,
        SshAuth::Key { path, passphrase } => "ssh: key auth failed: "@ + e,
    }
}

/// Opening a connection waits for something to be done.
pub open spec fn waits(
    c: EstablishView,
    request: CallView,
    phase: Phase<Seq<char>>,
) -> ConnectStep {
    Step::Ask { request, state: Establish { phase, ..c } }
}

/// Opening a connection comes to authentication.
pub open spec fn proves(c: EstablishView) -> ConnectStep {
    waits(c, proof_of(c.req.user, c.req.auth, c.home), Phase::Proving)
}

/// How opening a connection begins.
pub open spec fn connect_start(
    req: SshConnectRequest<Seq<char>>,
    home: Option<PathBuf>,
    pins_path: LocalView,
) -> ConnectStep {
    Step::Ask {
        request: Call::Dial(host_name(req)),
        state: Establish { req, home, pins_path, phase: Phase::Dialing },
    }
}

/// How opening a connection goes on from the fingerprint that the host shows
/// and the pins that were read from the file that is shown so.
pub open spec fn checked(
    c: EstablishView,
    fingerprint: Seq<char>,
    pins: Seq<(Seq<char>, Seq<char>)>,
    shown: Seq<char>,
) -> ConnectStep {
    let name = host_name(c.req);
    match trust(pins, name, fingerprint) {
        Trust::Known => proves(c),
        Trust::Changed => Step::Finish(Err(key_changed(name, shown))),
        Trust::New => waits(
            c,
            Call::SavePins {
                path: c.pins_path,
                content: pins_json(put(pins, name, fingerprint)),
                name,
                fingerprint,
            },
            Phase::Saving,
        ),
    }
}

/// How opening a connection goes on.
pub open spec fn connect_next(c: EstablishView, answer: AnswerView) -> ConnectStep {
    match (c.phase, answer) {
        (Phase::Dialing, Answer::Done) => waits(c, Call::Open, Phase::Opening),
        (Phase::Dialing, Answer::Failed(e)) => Step::Finish(
            Err("ssh: cannot reach "@ + host_name(c.req) + ": "@ + e),
        ),
        (Phase::Opening, Answer::Done) => waits(c, Call::Handshake, Phase::Shaking),
        (Phase::Opening, Answer::Failed(e)) => Step::Finish(
            Err("ssh: session init failed: "@ + e),
        ),
        (Phase::Shaking, Answer::Done) => waits(c, Call::HostKey, Phase::Keying),
        (Phase::Shaking, Answer::Failed(e)) => Step::Finish(Err("ssh: handshake failed: "@ + e)),
        (Phase::Keying, Answer::HostKey(Some(hash))) => waits(
            c,
            Call::LoadPins(c.pins_path),
            Phase::Loading { fingerprint: hex(hash) },
        ),
        (Phase::Keying, Answer::HostKey(None)) => Step::Finish(
            Err("ssh: host did not present a key"@),
        ),
        (Phase::Loading { fingerprint }, Answer::Pins { bytes, shown }) => checked(
            c,
            fingerprint,
            pins_of(bytes),
            shown,
        ),
        (Phase::Saving, Answer::Done) => proves(c),
        (Phase::Saving, Answer::Failed(e)) => Step::Finish(Err(e)),
        (Phase::Proving, Answer::Done) => waits(c, Call::Authenticated, Phase::Checking),
        (Phase::Proving, Answer::Failed(e)) => Step::Finish(Err(refused(c.req.auth, e))),
        (Phase::Checking, Answer::Authenticated(true)) => waits(c, Call::Sftp, Phase::Channel),
        (Phase::Checking, Answer::Authenticated(false)) => Step::Finish(
            Err("ssh: authentication failed"@),
        ),
        (Phase::Channel, Answer::Done) => waits(c, Call::Home, Phase::Homing),
        (Phase::Channel, Answer::Failed(e)) => Step::Finish(
            Err("ssh: SFTP subsystem unavailable: "@ + e),
        ),
        (Phase::Homing, Answer::Path(p)) => Step::Finish(Ok(info_of(c.req, canonical(p)))),
        (Phase::Homing, Answer::Failed(e)) => Step::Finish(
            Ok(info_of(c.req, "/home/"@ + c.req.user)),
        ),
        _ => Step::Finish(Err(unexpected())),
    }
}

fn copy_option(o: &Option<String>) -> (r: Option<String>)
    ensures
        r.deep_view() == o.deep_view(),
{
    match o {
        Some(s) => Some(s.clone()),
        None => None,
    }
}

fn host_name_of(req: &SshConnectRequest) -> (r: String)
    ensures
        r@ == host_name(req@),
{
    pin_name_of(req.host.as_str(), effective_port(req.port))
}

/// The port that a request means.
pub fn effective_port(port: Option<u16>) -> (r: u16)
    ensures
        r == port_of(port),
{
    match port {
        Some(p) => p,
        None => DEFAULT_PORT,
    }
}

/// Begins to open a connection, with these home and configuration directories
/// on this machine.
pub fn establish_in(
    req: SshConnectRequest,
    home: Option<PathBuf>,
    config: &Option<PathBuf>,
) -> (r: Step<Establish, ConnectionInfo, Call>)
    ensures
        r@ == connect_start(req@, home, pins_below(*config)),
{
    Step::Ask {
        request: Call::Dial(host_name_of(&req)),
        state: Establish { req, home, pins_path: known_hosts_in(config), phase: Phase::Dialing },
    }
}

/// Begins to open a connection, with the home and configuration directories of
/// the user.
pub fn establish(req: SshConnectRequest) -> (r: Step<Establish, ConnectionInfo, Call>)
    ensures
        exists|home: Option<PathBuf>, config: Option<PathBuf>|
            r@ == #[trigger] connect_start(req@, home, pins_below(config)),
{
    let home = home_dir();
    let config = config_dir();
    establish_in(req, home, &config)
}

fn authenticate(req: &SshConnectRequest, home: &Option<PathBuf>) -> (r: Call)
    ensures
        r@ == proof_of(req@.user, req@.auth, *home),
{
    let user = req.user.clone();
    match &req.auth {
        SshAuth::Agent => Call::Agent { user },
        SshAuth::Password { password } => Call::Password { user, password: password.clone() },
        SshAuth::Key { path, passphrase } => Call::KeyFile {
            user,
            path: expand_tilde_in(path.as_str(), home),
            passphrase: copy_option(passphrase),
        },
    }
}

fn auth_failed(auth: &SshAuth, e: &str) -> (r: String)
    ensures
        r@ == refused(auth@, e@),
{
    match auth {
        SshAuth::Agent => "ssh: agent auth failed: ".to_owned().concat(e),
        SshAuth::Password { password } => "ssh: password auth failed: ".to_owned().concat(e),
        SshAuth::Key { path, passphrase } => "ssh: key auth failed: ".to_owned().concat(e),
    }
}

fn connected(req: SshConnectRequest, home: String) -> (r: ConnectionInfo)
    ensures
        r.deep_view() == info_of(req@, home@),
{
    let port: u16 = effective_port(req.port);
    let at = req.user.clone().concat("@").concat(req.host.as_str());
    let digits = decimal_text(port as u64);
    let id = at.clone().concat(":").concat(digits.as_str());
    assert(id@ =~= conn_id(req@.user, req@.host, port));
    let label = match req.label {
        Some(l) => {
            let bare = trim(l.as_str());
            if bare.as_str().is_empty() {
                at
            } else {
                l
            }
        },
        None => at,
    };
    ConnectionInfo { id, label, host: req.host, port, user: req.user, home }
}

fn check_host(c: Establish, fingerprint: &str, bytes: Option<Vec<u8>>, shown: &str) -> (r: Step<
    Establish,
    ConnectionInfo,
    Call,
>)
    ensures
        r@ == checked(c@, fingerprint@, pins_of(bytes.deep_view()), shown@),
        distinct(pins_of(bytes.deep_view())),
        r@ matches Step::Ask { request, state } ==> (request matches Call::SavePins {
            path,
            content,
            name,
            fingerprint: key,
        } ==> holds(content, put(pins_of(bytes.deep_view()), host_name(c@.req), fingerprint@))),
{
    let pins = load_known_hosts(bytes);
    let name = host_name_of(&c.req);
    match judge(&pins, name.as_str(), fingerprint) {
        Trust::Known => {
            let request = authenticate(&c.req, &c.home);
            Step::Ask { request, state: Establish { phase: Phase::Proving, ..c } }
        },
        Trust::Changed => {
            let mut e = "ssh: host key for ".to_owned().concat(name.as_str());
            e.append(
                " has CHANGED (possible man-in-the-middle). If you trust this change, remove the entry from ",
            );
            e.append(shown);
            e.append(".");
            Step::Finish(Err(e))
        },
        Trust::New => {
            let pinned = pin_host(pins, name.as_str(), fingerprint);
            match save_known_hosts(&pinned) {
                Ok(content) => Step::Ask {
                    request: Call::SavePins {
                        path: c.pins_path.copy(),
                        content,
                        name,
                        fingerprint: fingerprint.to_owned(),
                    },
                    state: Establish { phase: Phase::Saving, ..c },
                },
                Err(e) => Step::Finish(Err(e)),
            }
        },
    }
}

impl Establish {
    /// Goes on opening the connection. Pins that are to be saved hold the key
    /// of the host besides all that was pinned before.
    pub fn resume(self, answer: Answer) -> (r: Step<Establish, ConnectionInfo, Call>)
        ensures
            r@ == connect_next(self@, answer@),
            r@ matches Step::Ask { request, state } ==> (request matches Call::SavePins {
                path,
                content,
                name,
                fingerprint: key,
            } ==> {
                &&& self@.phase matches Phase::Loading { fingerprint }
                &&& answer@ matches Answer::Pins { bytes, shown }
                &&& distinct(pins_of(bytes))
                &&& holds(content, put(pins_of(bytes), host_name(self@.req), fingerprint))
            }),
    {
        let Establish { req, home, pins_path, phase } = self;
        match (phase, answer) {
            (Phase::Dialing, Answer::Done) => Step::Ask {
                request: Call::Open,
                state: Establish { req, home, pins_path, phase: Phase::Opening },
            },
            (Phase::Dialing, Answer::Failed(e)) => {
                let addr = host_name_of(&req);
                Step::Finish(
                    Err(
                        "ssh: cannot reach ".to_owned().concat(addr.as_str()).concat(": ").concat(
                            e.as_str(),
                        ),
                    ),
                )
            },
            (Phase::Opening, Answer::Done) => Step::Ask {
                request: Call::Handshake,
                state: Establish { req, home, pins_path, phase: Phase::Shaking },
            },
            (Phase::Opening, Answer::Failed(e)) => Step::Finish(
                Err("ssh: session init failed: ".to_owned().concat(e.as_str())),
            ),
            (Phase::Shaking, Answer::Done) => Step::Ask {
                request: Call::HostKey,
                state: Establish { req, home, pins_path, phase: Phase::Keying },
            },
            (Phase::Shaking, Answer::Failed(e)) => Step::Finish(
                Err("ssh: handshake failed: ".to_owned().concat(e.as_str())),
            ),
            (Phase::Keying, Answer::HostKey(Some(hash))) => {
                assert(hash.deep_view() =~= hash@);
                let fingerprint = hex_encode(hash.as_slice());
                Step::Ask {
                    request: Call::LoadPins(pins_path.copy()),
                    state: Establish { req, home, pins_path, phase: Phase::Loading { fingerprint } },
                }
            },
            (Phase::Keying, Answer::HostKey(None)) => Step::Finish(
                Err("ssh: host did not present a key".to_owned()),
            ),
            (Phase::Loading { fingerprint }, Answer::Pins { bytes, shown }) => check_host(
                Establish { req, home, pins_path, phase: Phase::Keying },
                fingerprint.as_str(),
                bytes,
                shown.as_str(),
            ),
            (Phase::Saving, Answer::Done) => {
                let request = authenticate(&req, &home);
                Step::Ask { request, state: Establish { req, home, pins_path, phase: Phase::Proving } }
            },
            (Phase::Saving, Answer::Failed(e)) => Step::Finish(Err(e)),
            (Phase::Proving, Answer::Done) => Step::Ask {
                request: Call::Authenticated,
                state: Establish { req, home, pins_path, phase: Phase::Checking },
            },
            (Phase::Proving, Answer::Failed(e)) => Step::Finish(
                Err(auth_failed(&req.auth, e.as_str())),
            ),
            (Phase::Checking, Answer::Authenticated(yes)) => if yes {
                Step::Ask {
                    request: Call::Sftp,
                    state: Establish { req, home, pins_path, phase: Phase::Channel },
                }
            } else {
                Step::Finish(Err("ssh: authentication failed".to_owned()))
            },
            (Phase::Channel, Answer::Done) => Step::Ask {
                request: Call::Home,
                state: Establish { req, home, pins_path, phase: Phase::Homing },
            },
            (Phase::Channel, Answer::Failed(e)) => Step::Finish(
                Err("ssh: SFTP subsystem unavailable: ".to_owned().concat(e.as_str())),
            ),
            (Phase::Homing, Answer::Path(p)) => {
                let start = canon_remote(p.as_str());
                Step::Finish(Ok(connected(req, start)))
            },
            (Phase::Homing, Answer::Failed(_)) => {
                let start = "/home/".to_owned().concat(req.user.as_str());
                Step::Finish(Ok(connected(req, start)))
            },
            _ => Step::Finish(Err(unexpected_reply())),
        }
    }
}

/// How opening a connection goes on, as a value.
pub open spec fn connecting() -> spec_fn(EstablishView, AnswerView) -> ConnectStep {
    |c: EstablishView, answer: AnswerView| connect_next(c, answer)
}

/// Whether a call lets the host have what proves who the user is.
pub open spec fn shows_credentials(call: CallView) -> bool {
    call is Agent || call is Password || call is KeyFile
}

/// Where opening a connection stands after the first answers.
spec fn stands(
    req: SshConnectRequest<Seq<char>>,
    home: Option<PathBuf>,
    pins_path: LocalView,
    answers: Seq<AnswerView>,
    i: int,
) -> ConnectStep {
    after(connecting(), connect_start(req, home, pins_path), answers.take(i))
}

/// What every state on the way keeps: the request and the pin file, and the
/// call that it waits for is the one that its phase makes.
spec fn on_course(
    c: EstablishView,
    call: CallView,
    req: SshConnectRequest<Seq<char>>,
    pins_path: LocalView,
) -> bool {
    &&& c.req == req
    &&& c.pins_path == pins_path
    &&& shows_credentials(call) <==> c.phase is Proving
    &&& c.phase is Keying ==> call is HostKey
    &&& c.phase is Loading ==> call == CallView::LoadPins(pins_path)
    &&& c.phase is Saving ==> call is SavePins
    &&& c.phase is Checking ==> call is Authenticated
}

proof fn lemma_on_course(
    req: SshConnectRequest<Seq<char>>,
    home: Option<PathBuf>,
    pins_path: LocalView,
    answers: Seq<AnswerView>,
    i: int,
)
    requires
        0 <= i <= answers.len(),
    ensures
        stands(req, home, pins_path, answers, i) matches Step::Ask { request, state } ==> on_course(
            state,
            request,
            req,
            pins_path,
        ) && (state.phase is Dialing <==> i == 0),
    decreases i,
{
    reveal_with_fuel(after, 1);
    if i == 0 {
        assert(answers.take(0).len() == 0);
    } else {
        lemma_on_course(req, home, pins_path, answers, i - 1);
        lemma_after_step(connecting(), connect_start(req, home, pins_path), answers, i - 1);
    }
}

/// The step that led to where opening a connection stands.
proof fn lemma_came_from(
    req: SshConnectRequest<Seq<char>>,
    home: Option<PathBuf>,
    pins_path: LocalView,
    answers: Seq<AnswerView>,
    i: int,
)
    requires
        0 < i <= answers.len(),
        !(stands(req, home, pins_path, answers, i - 1) is Finish),
    ensures
        i - 1 < asked(connecting(), connect_start(req, home, pins_path), answers).len(),
        stands(req, home, pins_path, answers, i - 1)->request == asked(
            connecting(),
            connect_start(req, home, pins_path),
            answers,
        )[i - 1],
        on_course(
            stands(req, home, pins_path, answers, i - 1)->state,
            stands(req, home, pins_path, answers, i - 1)->request,
            req,
            pins_path,
        ),
        stands(req, home, pins_path, answers, i) == connect_next(
            stands(req, home, pins_path, answers, i - 1)->state,
            answers[i - 1],
        ),
{
    let start = connect_start(req, home, pins_path);
    lemma_on_course(req, home, pins_path, answers, i - 1);
    lemma_after_step(connecting(), start, answers, i - 1);
    lemma_asked_at(connecting(), start, answers, i - 1);
}

/// Whether call number `i` comes right after the host presented a key with
/// this hash as call number `k` and the pins in these bytes, which were read
/// next, knew it, or were saved with it because they knew none of the host.
pub open spec fn vouched(
    req: SshConnectRequest<Seq<char>>,
    home: Option<PathBuf>,
    pins_path: LocalView,
    answers: Seq<AnswerView>,
    i: int,
    k: int,
    hash: Seq<u8>,
    bytes: Option<Seq<u8>>,
) -> bool {
    let calls = asked(connecting(), connect_start(req, home, pins_path), answers);
    let name = host_name(req);
    let pins = pins_of(bytes);
    &&& 0 <= k < i
    &&& calls[k] is HostKey
    &&& answers[k] == AnswerView::HostKey(Some(hash))
    &&& calls[k + 1] == CallView::LoadPins(pins_path)
    &&& answers[k + 1] matches AnswerView::Pins { bytes: read, shown } && read == bytes
    &&& {
        ||| i == k + 2 && trust(pins, name, hex(hash)) == Trust::Known
        ||| {
            &&& i == k + 3
            &&& trust(pins, name, hex(hash)) == Trust::New
            &&& calls[k + 2] == (CallView::SavePins {
                path: pins_path,
                content: pins_json(put(pins, name, hex(hash))),
                name,
                fingerprint: hex(hash),
            })
            &&& answers[k + 2] == AnswerView::Done
        }
    }
}

/// Credentials are shown to no host whose key was not held against the pins:
/// whenever a call shows them, the host had presented a key and the pins had
/// been read, and the key was the pinned one or was pinned just before.
pub proof fn credentials_follow_the_host_key(
    req: SshConnectRequest<Seq<char>>,
    home: Option<PathBuf>,
    pins_path: LocalView,
    answers: Seq<AnswerView>,
    i: int,
)
    requires
        0 <= i < asked(connecting(), connect_start(req, home, pins_path), answers).len(),
        shows_credentials(asked(connecting(), connect_start(req, home, pins_path), answers)[i]),
    ensures
        exists|k: int, hash: Seq<u8>, bytes: Option<Seq<u8>>| #[trigger]
            vouched(req, home, pins_path, answers, i, k, hash, bytes),
{
    let start = connect_start(req, home, pins_path);
    let calls = asked(connecting(), start, answers);
    lemma_asked_len(connecting(), start, answers);
    lemma_asked_at(connecting(), start, answers, i);
    lemma_on_course(req, home, pins_path, answers, i);
    assert(stands(req, home, pins_path, answers, i)->state.phase is Proving);
    lemma_after_step(connecting(), start, answers, i - 1);
    lemma_came_from(req, home, pins_path, answers, i);
    let c1 = stands(req, home, pins_path, answers, i - 1)->state;
    // The pins were read right before, or they were saved in between.
    let m = if c1.phase is Loading {
        i - 1
    } else {
        assert(c1.phase is Saving);
        lemma_on_course(req, home, pins_path, answers, i - 1);
        lemma_after_step(connecting(), start, answers, i - 2);
        lemma_came_from(req, home, pins_path, answers, i - 1);
        i - 2
    };
    let c2 = stands(req, home, pins_path, answers, m)->state;
    assert(c2.phase is Loading);
    lemma_on_course(req, home, pins_path, answers, m);
    lemma_after_step(connecting(), start, answers, m - 1);
    lemma_came_from(req, home, pins_path, answers, m);
    let k = m - 1;
    let c3 = stands(req, home, pins_path, answers, k)->state;
    assert(c3.phase is Keying);
    let hash = answers[k]->HostKey_0->0;
    let bytes = answers[m]->bytes;
    assert(c2.phase->fingerprint == hex(hash));
    assert(calls[k + 1] == calls[m]);
    assert(vouched(req, home, pins_path, answers, i, k, hash, bytes));
}

/// A connection is open only once the session was found authenticated; what
/// is known of it is what was asked for, and it names the same host, port and
/// user.
pub proof fn open_connections_are_authenticated(
    req: SshConnectRequest<Seq<char>>,
    home: Option<PathBuf>,
    pins_path: LocalView,
    answers: Seq<AnswerView>,
    info: ConnectionInfo<Seq<char>>,
)
    requires
        after(connecting(), connect_start(req, home, pins_path), answers) == ConnectStep::Finish(Ok(info)),
    ensures
        exists|k: int|
            {
                &&& 0 <= k < answers.len()
                &&& k < asked(connecting(), connect_start(req, home, pins_path), answers).len()
                &&& asked(connecting(), connect_start(req, home, pins_path), answers)[k] is Authenticated
                &&& #[trigger] answers[k] == AnswerView::Authenticated(true)
            },
        exists|start: Seq<char>| info == #[trigger] info_of(req, start),
{
    let start = connect_start(req, home, pins_path);
    let calls = asked(connecting(), start, answers);
    assert(answers.take(answers.len() as int) =~= answers);
    let n = lemma_ended_at(req, home, pins_path, answers, answers.len() as int);
    lemma_came_from(req, home, pins_path, answers, n);
    let c1 = stands(req, home, pins_path, answers, n - 1)->state;
    assert(c1.phase is Homing);
    assert(info == info_of(req, info.home));
    lemma_on_course(req, home, pins_path, answers, n - 1);
    lemma_after_step(connecting(), start, answers, n - 2);
    lemma_came_from(req, home, pins_path, answers, n - 1);
    assert(stands(req, home, pins_path, answers, n - 2)->state.phase is Channel);
    lemma_on_course(req, home, pins_path, answers, n - 2);
    lemma_after_step(connecting(), start, answers, n - 3);
    lemma_came_from(req, home, pins_path, answers, n - 2);
    let k = n - 3;
    assert(stands(req, home, pins_path, answers, k)->state.phase is Checking);
    assert(calls[k] is Authenticated);
    assert(answers[k] == AnswerView::Authenticated(true));
}

/// The number of answers after which opening a connection was over.
proof fn lemma_ended_at(
    req: SshConnectRequest<Seq<char>>,
    home: Option<PathBuf>,
    pins_path: LocalView,
    answers: Seq<AnswerView>,
    i: int,
) -> (n: int)
    requires
        0 <= i <= answers.len(),
        stands(req, home, pins_path, answers, i) is Finish,
    ensures
        0 < n <= i,
        stands(req, home, pins_path, answers, n) == stands(req, home, pins_path, answers, i),
        stands(req, home, pins_path, answers, n - 1) is Ask,
    decreases i,
{
    if i == 0 {
        assert(answers.take(0).len() == 0);
        0
    } else {
        lemma_after_step(connecting(), connect_start(req, home, pins_path), answers, i - 1);
        if stands(req, home, pins_path, answers, i - 1) is Ask {
            i
        } else {
            lemma_ended_at(req, home, pins_path, answers, i - 1)
        }
    }
}

/// Connections that differ in user, host or port have different names, as
/// long as no user's name holds the sign that follows it.
pub proof fn ids_tell_connections_apart(
    u1: Seq<char>,
    h1: Seq<char>,
    p1: u16,
    u2: Seq<char>,
    h2: Seq<char>,
    p2: u16,
)
    requires
        !u1.contains('@'),
        !u2.contains('@'),
        conn_id(u1, h1, p1) == conn_id(u2, h2, p2),
    ensures
        u1 == u2,
        h1 == h2,
        p1 == p2,
{
    reveal_strlit("@");
    let s = conn_id(u1, h1, p1);
    assert forall|j: int| 0 <= j < u1.len() implies #[trigger] s[j] != '@' by {
        assert(s[j] == u1[j]);
    }
    assert forall|j: int| 0 <= j < u2.len() implies #[trigger] s[j] != '@' by {
        assert(s[j] == u2[j]);
    }
    lemma_first_index(s, '@', u1.len() as int);
    lemma_first_index(s, '@', u2.len() as int);
    assert(u1 =~= s.take(u1.len() as int));
    assert(u2 =~= s.take(u1.len() as int));
    assert(pin_name(h1, p1) =~= s.skip(u1.len() as int + 1));
    assert(pin_name(h2, p2) =~= s.skip(u1.len() as int + 1));
    pins_are_per_host_and_port(h1, p1, h2, p2);
}

/// The host that is dialled is the one that was asked for, at the port that was
/// asked for or else at port 22, and it is the one that an open connection
/// names.
pub proof fn the_host_asked_for_is_dialled(
    req: SshConnectRequest<Seq<char>>,
    home: Option<PathBuf>,
    pins_path: LocalView,
    answers: Seq<AnswerView>,
)
    ensures
        ({
            let calls = asked(connecting(), connect_start(req, home, pins_path), answers);
            let end = after(connecting(), connect_start(req, home, pins_path), answers);
            &&& calls.len() > 0
            &&& req.port matches Some(p) ==> calls[0] == CallView::Dial(
                req.host + ":"@ + decimal(p as nat),
            )
            &&& req.port is None ==> calls[0] == CallView::Dial(req.host + ":22"@)
            &&& end matches Step::Finish(Ok(info)) ==> {
                &&& calls[0] == CallView::Dial(info.host + ":"@ + decimal(info.port as nat))
                &&& info.host == req.host
                &&& info.user == req.user
                &&& info.id == info.user + "@"@ + info.host + ":"@ + decimal(info.port as nat)
                &&& req.port matches Some(p) ==> info.port == p
                &&& req.port is None ==> info.port == 22
            }
        }),
{
    let start = connect_start(req, home, pins_path);
    let end = after(connecting(), start, answers);
    reveal_strlit(":");
    reveal_strlit(":22");
    reveal_with_fuel(decimal, 3);
    assert(":"@ + decimal(22) =~= ":22"@);
    assert(req.host + ":"@ + decimal(22) =~= req.host + ":22"@);
    if let Step::Finish(Ok(info)) = end {
        open_connections_are_authenticated(req, home, pins_path, answers, info);
    }
}

/// What a connection asks for and comes to when all goes well with a host
/// whose key was pinned. What is known of it names what was asked for.
pub proof fn known_hosts_are_connected_to(
    req: SshConnectRequest<Seq<char>>,
    home: Option<PathBuf>,
    pins_path: LocalView,
    hash: Seq<u8>,
    bytes: Seq<u8>,
    shown: Seq<char>,
    start: AnswerView,
    port: u16,
    addr: Seq<char>,
)
    requires
        pins_in(bytes) is Some,
        distinct(pins_in(bytes)->0),
        req.port == Some(port) || req.port is None && port == 22,
        addr == req.host + ":"@ + decimal(port as nat),
        pins_in(bytes)->0.contains((addr, hex(hash))),
        start is Path || start is Failed,
    ensures
        ({
            let at = req.user + "@"@ + req.host;
            let proving: CallView = match req.auth {
                SshAuth::Agent => Call::Agent { user: req.user },
                SshAuth::Password { password } => Call::Password { user: req.user, password },
                SshAuth::Key { path, passphrase } => Call::KeyFile {
                    user: req.user,
                    path: tilde_expanded(path, home),
                    passphrase,
                },
            };
            let answers = seq![
                AnswerView::Done,
                AnswerView::Done,
                AnswerView::Done,
                AnswerView::HostKey(Some(hash)),
                AnswerView::Pins { bytes: Some(bytes), shown },
            ] + seq![AnswerView::Done, AnswerView::Authenticated(true), AnswerView::Done, start];
            asked(connecting(), connect_start(req, home, pins_path), answers) == seq![
                CallView::Dial(addr),
                CallView::Open,
                CallView::Handshake,
                CallView::HostKey,
                CallView::LoadPins(pins_path),
            ] + seq![proving, CallView::Authenticated, CallView::Sftp, CallView::Home]
        }),
        ({
            let at = req.user + "@"@ + req.host;
            let info = ConnectionInfo {
                id: at + ":"@ + decimal(port as nat),
                label: if req.label matches Some(l) && exists|i: int|
                    0 <= i < l.len() && !whitespace(#[trigger] l[i]) {
                    req.label->0
                } else {
                    at
                },
                host: req.host,
                port,
                user: req.user,
                home: if start is Path {
                    canonical(start->Path_0)
                } else {
                    "/home/"@ + req.user
                },
            };
            let answers = seq![
                AnswerView::Done,
                AnswerView::Done,
                AnswerView::Done,
                AnswerView::HostKey(Some(hash)),
                AnswerView::Pins { bytes: Some(bytes), shown },
            ] + seq![AnswerView::Done, AnswerView::Authenticated(true), AnswerView::Done, start];
            after(connecting(), connect_start(req, home, pins_path), answers) == ConnectStep::Finish(
                Ok(info),
            )
        }),
{
    let begun = connect_start(req, home, pins_path);
    let pins = pins_in(bytes)->0;
    let name = host_name(req);
    let c = begun->state;
    let done = AnswerView::Done;
    let greeting = seq![
        done,
        done,
        done,
        AnswerView::HostKey(Some(hash)),
        AnswerView::Pins { bytes: Some(bytes), shown },
    ];
    let opening = seq![done, AnswerView::Authenticated(true), done, start];
    lookup_finds_what_stands_there(pins, name, hex(hash));
    if let Some(l) = req.label {
        lemma_blank(l);
    }
    lemma_proved(c, start);
    let loading = Establish { phase: Phase::Loading { fingerprint: hex(hash) }, ..c };
    let first = seq![
        CallView::Dial(name),
        CallView::Open,
        CallView::Handshake,
        CallView::HostKey,
        CallView::LoadPins(pins_path),
    ];
    let last = asked(connecting(), proves(c), opening);
    let step = checked(loading, hex(hash), pins, shown);
    lemma_greeted(req, home, pins_path, hash, bytes, shown, opening);
    assert(step == proves(c));
    assert(asked(connecting(), begun, greeting + opening) == first + last);
}

/// What a connection asks for and comes to when all goes well with a host
/// whose key was not pinned: before the user is authenticated, the pin file is
/// written with the new pin behind all others.
pub proof fn new_hosts_are_pinned_first(
    req: SshConnectRequest<Seq<char>>,
    home: Option<PathBuf>,
    pins_path: LocalView,
    hash: Seq<u8>,
    bytes: Seq<u8>,
    shown: Seq<char>,
    start: AnswerView,
    port: u16,
    addr: Seq<char>,
)
    requires
        pins_in(bytes) is Some,
        distinct(pins_in(bytes)->0),
        req.port == Some(port) || req.port is None && port == 22,
        addr == req.host + ":"@ + decimal(port as nat),
        forall|key: Seq<char>| !#[trigger] pins_in(bytes)->0.contains((addr, key)),
        start is Path || start is Failed,
    ensures
        ({
            let at = req.user + "@"@ + req.host;
            let proving: CallView = match req.auth {
                SshAuth::Agent => Call::Agent { user: req.user },
                SshAuth::Password { password } => Call::Password { user: req.user, password },
                SshAuth::Key { path, passphrase } => Call::KeyFile {
                    user: req.user,
                    path: tilde_expanded(path, home),
                    passphrase,
                },
            };
            let answers = seq![
                AnswerView::Done,
                AnswerView::Done,
                AnswerView::Done,
                AnswerView::HostKey(Some(hash)),
                AnswerView::Pins { bytes: Some(bytes), shown },
            ] + (seq![AnswerView::Done] + seq![
                AnswerView::Done,
                AnswerView::Authenticated(true),
                AnswerView::Done,
                start,
            ]);
            asked(connecting(), connect_start(req, home, pins_path), answers) == seq![
                CallView::Dial(addr),
                CallView::Open,
                CallView::Handshake,
                CallView::HostKey,
                CallView::LoadPins(pins_path),
            ] + (seq![
                CallView::SavePins {
                    path: pins_path,
                    content: pins_json(pins_in(bytes)->0.push((addr, hex(hash)))),
                    name: addr,
                    fingerprint: hex(hash),
                },
            ] + seq![proving, CallView::Authenticated, CallView::Sftp, CallView::Home])
        }),
        ({
            let at = req.user + "@"@ + req.host;
            let info = ConnectionInfo {
                id: at + ":"@ + decimal(port as nat),
                label: if req.label matches Some(l) && exists|i: int|
                    0 <= i < l.len() && !whitespace(#[trigger] l[i]) {
                    req.label->0
                } else {
                    at
                },
                host: req.host,
                port,
                user: req.user,
                home: if start is Path {
                    canonical(start->Path_0)
                } else {
                    "/home/"@ + req.user
                },
            };
            let answers = seq![
                AnswerView::Done,
                AnswerView::Done,
                AnswerView::Done,
                AnswerView::HostKey(Some(hash)),
                AnswerView::Pins { bytes: Some(bytes), shown },
            ] + (seq![AnswerView::Done] + seq![
                AnswerView::Done,
                AnswerView::Authenticated(true),
                AnswerView::Done,
                start,
            ]);
            after(connecting(), connect_start(req, home, pins_path), answers) == ConnectStep::Finish(
                Ok(info),
            )
        }),
{
    let begun = connect_start(req, home, pins_path);
    let pins = pins_in(bytes)->0;
    let name = host_name(req);
    let c = begun->state;
    let done = AnswerView::Done;
    let greeting = seq![
        done,
        done,
        done,
        AnswerView::HostKey(Some(hash)),
        AnswerView::Pins { bytes: Some(bytes), shown },
    ];
    let opening = seq![done, AnswerView::Authenticated(true), done, start];
    lookup_finds_what_stands_there(pins, name, hex(hash));
    if let Some(l) = req.label {
        lemma_blank(l);
    }
    lemma_proved(c, start);
    let loading = Establish { phase: Phase::Loading { fingerprint: hex(hash) }, ..c };
    let first = seq![
        CallView::Dial(name),
        CallView::Open,
        CallView::Handshake,
        CallView::HostKey,
        CallView::LoadPins(pins_path),
    ];
    let last = asked(connecting(), proves(c), opening);
    let step = checked(loading, hex(hash), pins, shown);
    putting_keeps_the_rest(pins, name, hex(hash));
    assert(lookup(pins, name) is None);
    lemma_greeted(req, home, pins_path, hash, bytes, shown, seq![done] + opening);
    lemma_first_reply(connecting(), step, done, opening);
    assert(connect_next(step->state, done) == proves(c));
    assert(asked(connecting(), begun, greeting + (seq![done] + opening)) == first + (seq![
        step->request,
    ] + last));
}

/// A text is trimmed to nothing where it holds nothing but white space.
proof fn lemma_blank(l: Seq<char>)
    ensures
        trimmed(l).len() > 0 <==> exists|i: int| 0 <= i < l.len() && !whitespace(#[trigger] l[i]),
{
    trimming_leaves_the_text(l);
    let (a, b) = choose|a: int, b: int|
        {
            &&& 0 <= a <= b <= l.len()
            &&& #[trigger] l.subrange(a, b) == trimmed(l)
            &&& forall|j: int| 0 <= j < a || b <= j < l.len() ==> whitespace(#[trigger] l[j])
            &&& a < b ==> !whitespace(l[a]) && !whitespace(l[b - 1])
        };
    assert(trimmed(l).len() == b - a);
}

/// A host is greeted and its key held against the pins.
proof fn lemma_greeted(
    req: SshConnectRequest<Seq<char>>,
    home: Option<PathBuf>,
    pins_path: LocalView,
    hash: Seq<u8>,
    bytes: Seq<u8>,
    shown: Seq<char>,
    rest: Seq<AnswerView>,
)
    requires
        pins_in(bytes) is Some,
    ensures
        ({
            let begun = connect_start(req, home, pins_path);
            let answers = seq![
                AnswerView::Done,
                AnswerView::Done,
                AnswerView::Done,
                AnswerView::HostKey(Some(hash)),
                AnswerView::Pins { bytes: Some(bytes), shown },
            ] + rest;
            let c = Establish { phase: Phase::Loading { fingerprint: hex(hash) }, ..begun->state };
            let step = checked(c, hex(hash), pins_in(bytes)->0, shown);
            &&& after(connecting(), begun, answers) == after(connecting(), step, rest)
            &&& asked(connecting(), begun, answers) == seq![
                CallView::Dial(host_name(req)),
                CallView::Open,
                CallView::Handshake,
                CallView::HostKey,
                CallView::LoadPins(pins_path),
            ] + asked(connecting(), step, rest)
        }),
{
    let begun = connect_start(req, home, pins_path);
    let done = AnswerView::Done;
    let key = AnswerView::HostKey(Some(hash));
    let read = AnswerView::Pins { bytes: Some(bytes), shown };
    let r5 = rest;
    let r4 = seq![read] + r5;
    let r3 = seq![key] + r4;
    let r2 = seq![done] + r3;
    let r1 = seq![done] + r2;
    let s1 = connect_next(begun->state, done);
    let s2 = connect_next(s1->state, done);
    let s3 = connect_next(s2->state, done);
    let s4 = connect_next(s3->state, key);
    let s5 = connect_next(s4->state, read);
    lemma_first_reply(connecting(), begun, done, r1);
    lemma_first_reply(connecting(), s1, done, r2);
    lemma_first_reply(connecting(), s2, done, r3);
    lemma_first_reply(connecting(), s3, key, r4);
    lemma_first_reply(connecting(), s4, read, r5);
    assert(seq![done, done, done, key, read] + rest =~= seq![done] + r1);
    let end = asked(connecting(), s5, rest);
    assert(asked(connecting(), begun, seq![done] + r1) =~= seq![
        begun->request,
        s1->request,
        s2->request,
        s3->request,
        s4->request,
    ] + end);
}

/// A user is authenticated and the file channel opened.
proof fn lemma_proved(c: EstablishView, start: AnswerView)
    requires
        start is Path || start is Failed,
    ensures
        ({
            let answers = seq![
                AnswerView::Done,
                AnswerView::Authenticated(true),
                AnswerView::Done,
                start,
            ];
            &&& after(connecting(), proves(c), answers) == ConnectStep::Finish(
                Ok(
                    info_of(
                        c.req,
                        if start is Path {
                            canonical(start->Path_0)
                        } else {
                            "/home/"@ + c.req.user
                        },
                    ),
                ),
            )
            &&& asked(connecting(), proves(c), answers) == seq![
                proof_of(c.req.user, c.req.auth, c.home),
                CallView::Authenticated,
                CallView::Sftp,
                CallView::Home,
            ]
        }),
{
    let done = AnswerView::Done;
    let yes = AnswerView::Authenticated(true);
    let s0 = proves(c);
    let s1 = connect_next(s0->state, done);
    let s2 = connect_next(s1->state, yes);
    let s3 = connect_next(s2->state, done);
    let s4 = connect_next(s3->state, start);
    let none = Seq::<AnswerView>::empty();
    let r3 = seq![start] + none;
    let r2 = seq![done] + r3;
    let r1 = seq![yes] + r2;
    lemma_first_reply(connecting(), s0, done, r1);
    lemma_first_reply(connecting(), s1, yes, r2);
    lemma_first_reply(connecting(), s2, done, r3);
    lemma_first_reply(connecting(), s3, start, none);
    assert(seq![done, yes, done, start] =~= seq![done] + r1);
    assert(asked(connecting(), s0, seq![done] + r1) =~= seq![
        s0->request,
        s1->request,
        s2->request,
        s3->request,
    ]);
}

/// What goes wrong ends the connection with its reason: wherever a call fails,
/// and where a host presents no key or another than was pinned, or the session
/// is not authenticated. Nothing is asked for after that.
pub proof fn failures_end_with_their_reason(
    c: EstablishView,
    e: Seq<char>,
    fingerprint: Seq<char>,
    other: Seq<char>,
    bytes: Seq<u8>,
    shown: Seq<char>,
)
    requires
        pins_in(bytes) is Some,
        distinct(pins_in(bytes)->0),
        fingerprint != other,
    ensures
        ({
            let port = if c.req.port is Some {
                c.req.port->0
            } else {
                22
            };
            let addr = c.req.host + ":"@ + decimal(port as nat);
            let at = |phase: Phase<Seq<char>>| Establish { phase, ..c };
            let failed = AnswerView::Failed(e);
            let ends = |s: Seq<char>| ConnectStep::Finish(Err(s));
            &&& connect_next(at(Phase::Dialing), failed) == ends(
                "ssh: cannot reach "@ + addr + ": "@ + e,
            )
            &&& connect_next(at(Phase::Opening), failed) == ends("ssh: session init failed: "@ + e)
            &&& connect_next(at(Phase::Shaking), failed) == ends("ssh: handshake failed: "@ + e)
            &&& connect_next(at(Phase::Keying), AnswerView::HostKey(None)) == ends(
                "ssh: host did not present a key"@,
            )
            &&& pins_in(bytes)->0.contains((addr, other)) ==> connect_next(
                at(Phase::Loading { fingerprint }),
                AnswerView::Pins { bytes: Some(bytes), shown },
            ) == ends(
                "ssh: host key for "@ + addr
                    + " has CHANGED (possible man-in-the-middle). If you trust this change, remove the entry from "@
                    + shown + "."@,
            )
            &&& connect_next(at(Phase::Saving), failed) == ends(e)
            &&& c.req.auth is Agent ==> connect_next(at(Phase::Proving), failed) == ends(
                "ssh: agent auth failed: "@ + e,
            )
            &&& c.req.auth is Password ==> connect_next(at(Phase::Proving), failed) == ends(
                "ssh: password auth failed: "@ + e,
            )
            &&& c.req.auth is Key ==> connect_next(at(Phase::Proving), failed) == ends(
                "ssh: key auth failed: "@ + e,
            )
            &&& connect_next(at(Phase::Checking), AnswerView::Authenticated(false)) == ends(
                "ssh: authentication failed"@,
            )
            &&& connect_next(at(Phase::Channel), failed) == ends(
                "ssh: SFTP subsystem unavailable: "@ + e,
            )
        }),
{
    let name = host_name(c.req);
    lookup_finds_what_stands_there(pins_in(bytes)->0, name, other);
}

/// Pins that cannot be read are none, so that every host is new.
pub proof fn unreadable_pins_are_none(
    c: EstablishView,
    fingerprint: Seq<char>,
    bytes: Option<Seq<u8>>,
    shown: Seq<char>,
)
    requires
        bytes is None || pins_in(bytes->0) is None,
    ensures
        ({
            let port = if c.req.port is Some {
                c.req.port->0
            } else {
                22
            };
            let addr = c.req.host + ":"@ + decimal(port as nat);
            connect_next(
                Establish { phase: Phase::Loading { fingerprint }, ..c },
                AnswerView::Pins { bytes, shown },
            ) == (ConnectStep::Ask {
                request: Call::SavePins {
                    path: c.pins_path,
                    content: pins_json(seq![(addr, fingerprint)]),
                    name: addr,
                    fingerprint,
                },
                state: Establish { phase: Phase::Saving, ..c },
            })
        }),
{
    let none = Seq::<(Seq<char>, Seq<char>)>::empty();
    assert(none.push((host_name(c.req), fingerprint)) =~= seq![(host_name(c.req), fingerprint)]);
}

} // verus!
