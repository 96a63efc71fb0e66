//! Starting up, keeping time, and small facts about where the daemon runs.

use crate::rpc::{bad, bad_of, Fault, Request, RequestView};
use crate::text::{
    byte_len, bytes_in, decimal, ends, lowercase, number, opt_str, opt_text, owned, padded, same,
    strip_suffix, to_lower, trim, trimmed, two_places,
};
use vstd::prelude::*;
use vstd::string::*;

verus! {

/// How often to tick while somebody is watching, and while nobody is, in millis.
pub const TICK_ATTACHED: u64 = 16;

pub const TICK_DETACHED: u64 = 150;

/// How often to look at what each agent is doing, in millis.
pub const DETECT_INTERVAL: u64 = 640;

/// Quiet period before the session shape is saved, in millis.
pub const SAVE_DELAY: u64 = 1000;

/// The longest path a socket may have, in bytes.
pub const MAX_SOCKET_PATH: usize = 100;

/// Fewer open files than this may be too few to hand a large session over.
pub const FEW_FILES: u64 = 512;

// -- the loop's clock --------------------------------------------------------

/// When the loop last looked at agents, when it is to save, and how fast it runs. Moments are
/// millis of a clock that does not go back.
#[derive(Debug, Clone, Copy, PartialEq, Eq, Structural)]
pub struct Cadence {
    pub fast: bool,
    pub last_detect: u64,
    pub save_at: Option<u64>,
}

/// What one tick is to do beside its ordinary work.
#[derive(Debug, Clone, Copy, PartialEq, Eq, Structural)]
pub struct TickPlan {
    pub detect: bool,
    pub save: bool,
}

/// A moment later, as far as the clock goes.
pub open spec fn after(now: u64, delay: u64) -> u64 {
    if now + delay <= u64::MAX {
        (now + delay) as u64
    } else {
        u64::MAX
    }
}

impl Cadence {
    /// A loop that starts now, with nobody watching.
    pub fn start(now: u64) -> (r: Cadence)
        ensures
            r == (Cadence { fast: false, last_detect: now, save_at: None }),
    {
        Cadence { fast: false, last_detect: now, save_at: None }
    }

    /// A message was handled: the shape is saved once things have been quiet for a while.
    pub fn on_message(&mut self, now: u64)
        ensures
            *final(self) == (Cadence { save_at: Some(after(now, SAVE_DELAY)), ..*old(self) }),
    {
        self.save_at = Some(now.saturating_add(SAVE_DELAY));
    }

    /// A tick came round.
    pub fn on_tick(&mut self, now: u64) -> (r: TickPlan)
        ensures
            r.detect == (now - old(self).last_detect >= DETECT_INTERVAL),
            r.save == (old(self).save_at matches Some(at) && now >= at),
            *final(self) == (Cadence {
                last_detect: if r.detect {
                    now
                } else {
                    old(self).last_detect
                },
                save_at: if r.save {
                    None
                } else {
                    old(self).save_at
                },
                ..*old(self)
            }),
    {
        let detect = now >= self.last_detect && now - self.last_detect >= DETECT_INTERVAL;
        let save = match self.save_at {
            Some(at) => now >= at,
            None => false,
        };
        if detect {
            self.last_detect = now;
        }
        if save {
            self.save_at = None;
        }
        TickPlan { detect, save }
    }

    /// Drop to the slow cadence the moment the last client leaves, and back up the instant one
    /// arrives. Output that is waiting counts as a reason to run fast with nobody watching.
    /// Gives the new interval where it changes.
    pub fn retune(&mut self, watched: bool, output_waiting: bool) -> (r: Option<u64>)
        ensures
            final(self).fast == (watched || output_waiting),
            *final(self) == (Cadence { fast: watched || output_waiting, ..*old(self) }),
            r == (if old(self).fast == (watched || output_waiting) {
                None
            } else if watched || output_waiting {
                Some(TICK_ATTACHED)
            } else {
                Some(TICK_DETACHED)
            }),
    {
        let want = watched || output_waiting;
        if want == self.fast {
            return None;
        }
        self.fast = want;
        if want {
            Some(TICK_ATTACHED)
        } else {
            Some(TICK_DETACHED)
        }
    }
}

/// Saving waits for quiet: another message before the moment comes puts it off.
pub proof fn law_saving_waits_for_quiet(c: Cadence, now: u64, later: u64)
    requires
        now <= later < now + SAVE_DELAY,
        now + SAVE_DELAY <= u64::MAX,
    ensures
        ({
            let d = Cadence { save_at: Some(after(now, SAVE_DELAY)), ..c };
            !(d.save_at matches Some(at) && later >= at)
        }),
{
}

// -- the socket --------------------------------------------------------------

/// Why the daemon did not start.
#[derive(Debug, Clone, PartialEq, Eq)]
pub enum StartError {
    /// The path is longer than the system allows.
    TooLong { bytes: usize, path: String },
    /// Another daemon listens there.
    Running(String),
}

impl StartError {
    /// The sentence a person is shown.
    pub open spec fn text(self) -> Seq<char> {
        match self {
            StartError::TooLong { bytes, path } => "socket path is too long for the OS ("@
                + decimal(bytes as nat) + " bytes, limit ~100): "@ + path@
                + "\nset HORDE_SOCKET to somewhere shorter, e.g. HORDE_SOCKET=/tmp/horde.sock"@,
            StartError::Running(path) => "a horde daemon is already running on "@ + path@
                + " (run `horde stop` first)"@,
        }
    }

    /// The sentence a person is shown.
    pub fn message(&self) -> (r: String)
        ensures
            r@ == self.text(),
    {
        match self {
            StartError::TooLong { bytes, path } => {
                let mut m = owned("socket path is too long for the OS (");
                m.append(number(*bytes as u64).as_str());
                m.append(" bytes, limit ~100): ");
                m.append(path.as_str());
                m.append(
                    "\nset HORDE_SOCKET to somewhere shorter, e.g. HORDE_SOCKET=/tmp/horde.sock",
                );
                m
            },
            StartError::Running(path) => {
                let mut m = owned("a horde daemon is already running on ");
                m.append(path.as_str());
                m.append(" (run `horde stop` first)");
                m
            },
        }
    }
}

/// What to do about a socket that is in the way.
#[derive(Debug, Clone, PartialEq, Eq)]
pub enum SocketPlan {
    /// Nothing is.
    Bind,
    /// It was left behind: remove it first.
    RemoveThenBind,
}

/// Whether the socket can be had: a stale one is removed, and one that somebody listens on is
/// not taken.
pub fn ensure_socket_free(path: &str, exists: bool, answers: bool) -> (r: Result<
    SocketPlan,
    StartError,
>)
    ensures
        match r {
            Ok(SocketPlan::Bind) => !exists,
            Ok(SocketPlan::RemoveThenBind) => exists && !answers,
            Err(e) => exists && answers && e is Running && e->Running_0@ == path@,
        },
{
    if !exists {
        return Ok(SocketPlan::Bind);
    }
    if answers {
        return Err(StartError::Running(owned(path)));
    }
    Ok(SocketPlan::RemoveThenBind)
}

/// Whether a path is short enough for a socket.
pub fn check_socket_path(path: &str) -> (r: Result<(), StartError>)
    ensures
        match r {
            Ok(_) => byte_len(path@) <= MAX_SOCKET_PATH,
            Err(e) => byte_len(path@) > MAX_SOCKET_PATH && e is TooLong && e->TooLong_bytes
                == byte_len(path@) && e->path@ == path@,
        },
{
    let bytes: usize = bytes_in(path);
    if bytes > MAX_SOCKET_PATH {
        return Err(StartError::TooLong { bytes, path: owned(path) });
    }
    Ok(())
}

/// A warning for a system that allows few open files.
pub fn file_limit_warning(limit: u64) -> (r: Option<String>)
    ensures
        opt_text(r) == (if limit < FEW_FILES {
            Some(
                "this system caps horde at "@ + decimal(limit as nat)
                    + " open files; a large session may fail to upgrade"@,
            )
        } else {
            None
        }),
{
    if limit < FEW_FILES {
        let mut m = owned("this system caps horde at ");
        m.append(number(limit).as_str());
        m.append(" open files; a large session may fail to upgrade");
        Some(m)
    } else {
        None
    }
}

/// Whether a shutdown removes the socket: a daemon that handed over must not, as its successor
/// is listening on it.
pub fn removes_socket(handed_over: bool) -> (r: bool)
    ensures
        r == !handed_over,
{
    !handed_over
}

/// Whether a request ends the daemon: one to stop does, and one to hand over does if that
/// worked.
pub fn stops(method: &str, handed_over: bool) -> (r: bool)
    ensures
        r == (method@ == "server.stop"@ || (method@ == "server.handoff"@ && handed_over)),
{
    same(method, "server.stop") || (same(method, "server.handoff") && handed_over)
}

/// Whether as many terminals came along as panes were handed over, and what to say if not.
pub fn check_descriptors(panes: usize, fds: usize) -> (r: Result<(), String>)
    ensures
        match r {
            Ok(_) => panes == fds,
            Err(m) => panes != fds && m@ == "manifest lists "@ + decimal(panes as nat)
                + " panes but "@ + decimal(fds as nat) + " descriptors arrived"@,
        },
{
    if panes == fds {
        return Ok(());
    }
    let mut m = owned("manifest lists ");
    m.append(number(panes as u64).as_str());
    m.append(" panes but ");
    m.append(number(fds as u64).as_str());
    m.append(" descriptors arrived");
    Err(m)
}

/// What to say about messages that outlived a restart.
pub open spec fn orphans_text(n: nat) -> Option<Seq<char>> {
    if n == 0 {
        None
    } else {
        Some(
            decimal(n) + " message"@ + (if n == 1 {
                ""@
            } else {
                "s"@
            }) + " from before the restart "@ + (if n == 1 {
                "is"@
            } else {
                "are"@
            }) + " waiting to be delivered"@,
        )
    }
}

/// What to say about messages that outlived a restart.
pub fn orphans_notice(n: usize) -> (r: Option<String>)
    ensures
        opt_text(r) == orphans_text(n as nat),
{
    if n == 0 {
        return None;
    }
    let mut m = number(n as u64);
    m.append(" message");
    m.append(
        if n == 1 {
            ""
        } else {
            "s"
        },
    );
    m.append(" from before the restart ");
    m.append(
        if n == 1 {
            "is"
        } else {
            "are"
        },
    );
    m.append(" waiting to be delivered");
    Some(m)
}

// -- attaching ---------------------------------------------------------------

/// What a connection that asks to attach is told.
#[derive(Debug, Clone, PartialEq, Eq)]
pub enum Greeting {
    /// It is attached, with this size.
    Welcome { cols: u16, rows: u16 },
    /// It is turned away, for this reason.
    Bye(String),
}

/// What to do about two versions that do not match. A daemon on a socket of its own is named,
/// so that stopping it does not stop another.
pub open spec fn fix_text(own_socket: Option<Seq<char>>) -> Seq<char> {
    match own_socket {
        Some(path) => "Stop this one with `HORDE_SOCKET="@ + path
            + " horde stop`, then start it again."@,
        None => "Run `horde stop`, then `horde`."@,
    }
}

/// Why a client of another version is turned away.
pub open spec fn mismatch_text(theirs: nat, ours: nat, own_socket: Option<Seq<char>>) -> Seq<char> {
    "protocol mismatch: client speaks v"@ + decimal(theirs) + ", daemon speaks v"@ + decimal(ours)
        + ". "@ + fix_text(own_socket)
}

/// A number that was asked for, or the usual one, as far as it fits.
pub open spec fn low_bits(n: Option<u64>, usual: u64, modulus: int) -> int {
    (match n {
        Some(x) => x as int,
        None => usual as int,
    }) % modulus
}

/// What a connection that asks to attach is told. What it did not say is taken as the usual.
pub fn greet(
    protocol: Option<u64>,
    cols: Option<u64>,
    rows: Option<u64>,
    ours: u32,
    own_socket: Option<&str>,
) -> (r: Greeting)
    ensures
        match r {
            Greeting::Welcome { cols: c, rows: w } => {
                &&& low_bits(protocol, 0, 0x1_0000_0000) == ours
                &&& c == low_bits(cols, 120, 0x1_0000)
                &&& w == low_bits(rows, 40, 0x1_0000)
            },
            Greeting::Bye(m) => {
                &&& low_bits(protocol, 0, 0x1_0000_0000) != ours
                &&& m@ == mismatch_text(
                    low_bits(protocol, 0, 0x1_0000_0000) as nat,
                    ours as nat,
                    opt_str(own_socket),
                )
            },
        },
{
    let theirs: u64 = (match protocol {
        Some(p) => p,
        None => 0,
    }) % 0x1_0000_0000;
    if theirs != ours as u64 {
        let fix = match own_socket {
            Some(path) => {
                let mut f = owned("Stop this one with `HORDE_SOCKET=");
                f.append(path);
                f.append(" horde stop`, then start it again.");
                f
            },
            None => owned("Run `horde stop`, then `horde`."),
        };
        let mut m = owned("protocol mismatch: client speaks v");
        m.append(number(theirs).as_str());
        m.append(", daemon speaks v");
        m.append(number(ours as u64).as_str());
        m.append(". ");
        m.append(fix.as_str());
        return Greeting::Bye(m);
    }
    let c: u64 = (match cols {
        Some(c) => c,
        None => 120,
    }) % 0x1_0000;
    let w: u64 = (match rows {
        Some(w) => w,
        None => 40,
    }) % 0x1_0000;
    Greeting::Welcome { cols: c as u16, rows: w as u16 }
}

/// What came in on a connection.
#[derive(Debug, Clone, PartialEq, Eq)]
pub enum Incoming {
    /// Nothing will come any more.
    Closed,
    Blank,
    Text(String),
}

/// What came in on a connection: a line that was read, of so many bytes.
pub fn incoming(bytes: usize, line: &str) -> (r: Incoming)
    ensures
        match r {
            Incoming::Closed => bytes == 0,
            Incoming::Blank => bytes > 0 && trimmed(line@).len() == 0,
            Incoming::Text(t) => bytes > 0 && trimmed(line@).len() > 0 && t@ == trimmed(line@),
        },
{
    if bytes == 0 {
        return Incoming::Closed;
    }
    let t = trim(line);
    if t.as_str().is_empty() {
        Incoming::Blank
    } else {
        Incoming::Text(t)
    }
}

/// What is done about a line.
#[derive(Debug, Clone, PartialEq, Eq)]
pub enum Turn {
    /// It is no request: say so, and go on.
    Refuse(Fault),
    /// The connection asks to be a window.
    Greet(Greeting),
    /// It is a request for the engine.
    Ask,
}

/// What is done about a line that was read as a request, or could not be.
pub fn turn(parsed: Result<&Request, &str>, ours: u32, own_socket: Option<&str>) -> (r: Turn)
    ensures
        match parsed {
            Err(e) => r matches Turn::Refuse(f) && f@ == bad_of("invalid JSON: "@ + e@),
            Ok(q) => if q@.method == "attach"@ {
                r matches Turn::Greet(g) && greets(g, q@, ours, opt_str(own_socket))
            } else {
                r is Ask
            },
        },
{
    match parsed {
        Err(e) => {
            let mut m = owned("invalid JSON: ");
            m.append(e);
            Turn::Refuse(bad(m.as_str()))
        },
        Ok(q) => if same(q.method.as_str(), "attach") {
            Turn::Greet(
                greet(
                    q.u64_arg("protocol"),
                    q.u64_arg("cols"),
                    q.u64_arg("rows"),
                    ours,
                    own_socket,
                ),
            )
        } else {
            Turn::Ask
        },
    }
}

/// Whether a greeting is right for a request to attach.
pub open spec fn greets(g: Greeting, q: RequestView, ours: u32, own_socket: Option<Seq<char>>) -> bool {
    let theirs = low_bits(q.whole("protocol"@), 0, 0x1_0000_0000);
    match g {
        Greeting::Welcome { cols, rows } => theirs == ours && cols == low_bits(
            q.whole("cols"@),
            120,
            0x1_0000,
        ) && rows == low_bits(q.whole("rows"@), 40, 0x1_0000),
        Greeting::Bye(m) => theirs != ours && m@ == mismatch_text(
            theirs as nat,
            ours as nat,
            own_socket,
        ),
    }
}

// -- names and times ---------------------------------------------------------

/// `HH:MM:SS` in UTC.
pub open spec fn clock_of(now: u64) -> Seq<char> {
    let secs = (now / 1000) as nat;
    two_places((secs / 3600) % 24) + ":"@ + two_places((secs / 60) % 60) + ":"@ + two_places(
        secs % 60,
    )
}

/// `HH:MM:SS` in UTC, of a moment in unix millis.
pub fn clock_string(now: u64) -> (r: String)
    ensures
        r@ == clock_of(now),
{
    let secs: u64 = now / 1000;
    let mut s = padded((secs / 3600) % 24);
    s.append(":");
    s.append(padded((secs / 60) % 60).as_str());
    s.append(":");
    s.append(padded(secs % 60).as_str());
    s
}

/// A text without any number of repetitions of `p` at its end.
pub open spec fn without_suffixes(s: Seq<char>, p: Seq<char>) -> Seq<char>
    decreases s.len(),
{
    if p.len() > 0 && ends(s, p) {
        without_suffixes(s.take(s.len() - p.len()), p)
    } else {
        s
    }
}

/// A machine's short name: lowered, without a trailing `.local`.
pub open spec fn short_name(raw: Seq<char>) -> Seq<char> {
    lowercase(without_suffixes(trimmed(raw), ".local"@))
}

/// This machine's short name, from what the system says or else from the environment.
pub fn hostname(system: Option<&str>, environment: Option<&str>) -> (r: Option<String>)
    ensures
        opt_text(r) == ({
            let raw = if system is Some {
                opt_str(system)
            } else {
                opt_str(environment)
            };
            match raw {
                Some(n) if short_name(n).len() > 0 => Some(short_name(n)),
                _ => None,
            }
        }),
{
    let raw = match system {
        Some(n) => n,
        None => match environment {
            Some(n) => n,
            None => {
                return None;
            },
        },
    };
    let mut name = trim(raw);
    let ghost whole = name@;
    proof {
        reveal_strlit(".local");
    }
    loop
        invariant
            without_suffixes(whole, ".local"@) == without_suffixes(name@, ".local"@),
            ".local"@.len() == 6,
        ensures
            name@ == without_suffixes(whole, ".local"@),
        decreases name@.len(),
    {
        match strip_suffix(name.as_str(), ".local") {
            Some(less) => {
                name = less;
            },
            None => {
                break;
            },
        }
    }
    let low = to_lower(name.as_str());
    if low.as_str().is_empty() {
        None
    } else {
        Some(low)
    }
}

/// The name that goes on a comment you wrote: as configured, or `user@host`.
pub fn local_user(author: Option<&str>, user: Option<&str>, login: Option<&str>, host: Option<&str>) -> (r:
    String)
    ensures
        r@ == (match author {
            Some(a) => a@,
            None => {
                let who = match (user, login) {
                    (Some(u), _) => u@,
                    (None, Some(l)) => l@,
                    (None, None) => "user"@,
                };
                match host {
                    Some(h) => who + "@"@ + h@,
                    None => who,
                }
            },
        }),
{
    if let Some(a) = author {
        return owned(a);
    }
    let mut who = match user {
        Some(u) => owned(u),
        None => match login {
            Some(l) => owned(l),
            None => owned("user"),
        },
    };
    if let Some(h) = host {
        who.append("@");
        who.append(h);
    }
    who
}

} // verus!
