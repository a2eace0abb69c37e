//! How a client learns which server to trust, and how it keeps its session up.

use crate::error::{Error, Result};
use crate::link::{Link, LinkEnd};
use crate::proto::{Frame, Message, SESSION_ID_LEN};
use crate::session::{Session, SessionState};
use crate::text::{
    decimal, decimal_value, last_nonblank, last_nonblank_line, line_len, lines, split_whitespace, to_decimal,
    without_cr, words,
};
use crate::tls::{parse_fingerprint, parsed_fingerprint, reports, Parsed, FINGERPRINT_LEN};
use vstd::prelude::*;
use vstd::utf8::{decode_utf8, encode_utf8, valid_utf8};

verus! {

/// How to fetch the fingerprint over SSH.
#[derive(Debug)]
pub struct Bootstrap {
    pub ssh_target: String,
    pub ssh_port: u16,
    pub command: String,
}

/// The bootstrap for a target, if there is one.
pub open spec fn bootstrap_for(
    ssh_target: Option<String>,
    ssh_port: u16,
    command: String,
) -> Option<Bootstrap> {
    match ssh_target {
        Some(ssh_target) => Some(Bootstrap { ssh_target, ssh_port, command }),
        None => None,
    }
}

/// There is a bootstrap just when there is a target, and it runs the command that
/// was given there, on the port that was given.
pub proof fn law_bootstrap_is_for_its_target(target: String, ssh_port: u16, command: String)
    ensures
        bootstrap_for(None, ssh_port, command) is None,
        bootstrap_for(Some(target), ssh_port, command) matches Some(b) && decimal_value(
            b.arguments()[2],
        ) == ssh_port && b.arguments()[7] == target@ && b.arguments().skip(8) == words(command@),
{
    let b = bootstrap_for(Some(target), ssh_port, command)->0;
    law_bootstrap_connects_to_its_target(b, b);
    law_bootstrap_does_not_recurse(b);
}

impl Bootstrap {
    /// The bootstrap for a target, if there is one.
    pub fn for_target(ssh_target: Option<String>, ssh_port: u16, command: String) -> (b: Option<
        Bootstrap,
    >)
        ensures
            b == match ssh_target {
                Some(ssh_target) => Some(Bootstrap { ssh_target, ssh_port, command }),
                None => None,
            },
            b == bootstrap_for(ssh_target, ssh_port, command),
    {
        match ssh_target {
            Some(ssh_target) => Some(Bootstrap { ssh_target, ssh_port, command }),
            None => None,
        }
    }

    /// The arguments of the `ssh` that fetches the fingerprint. It is told to
    /// use no `ProxyCommand`, so that it does not run the client again, and no
    /// forwardings.
    pub open spec fn arguments(self) -> Seq<Seq<char>> {
        seq![
            "-T"@,
            "-p"@,
            decimal(self.ssh_port as nat),
            "-o"@,
            "ProxyCommand=none"@,
            "-o"@,
            "ClearAllForwardings=yes"@,
            self.ssh_target@,
        ] + words(self.command@)
    }

    pub fn ssh_args(&self) -> (args: Vec<String>)
        ensures
            args@.map_values(|a: String| a@) == self.arguments(),
    {
        let mut args: Vec<String> = Vec::new();
        args.push("-T".to_owned());
        args.push("-p".to_owned());
        args.push(to_decimal(self.ssh_port));
        args.push("-o".to_owned());
        args.push("ProxyCommand=none".to_owned());
        args.push("-o".to_owned());
        args.push("ClearAllForwardings=yes".to_owned());
        args.push(self.ssh_target.clone());
        let mut command = split_whitespace(self.command.as_str());
        let ghost fixed = args@;
        let ghost rest = command@;
        args.append(&mut command);
        proof {
            let view = |a: String| a@;
            assert(args@ =~= fixed + rest);
            assert(args@.map_values(view) =~= fixed.map_values(view) + rest.map_values(view));
            assert(fixed.map_values(view) =~= self.arguments().take(8));
            assert(args@.map_values(view) =~= self.arguments());
        }
        args
    }
}

/// The bootstrap does not recurse: `ssh` is told to use no `ProxyCommand` before
/// it is told the target, whatever the target and the command are, and the
/// command is what it runs there.
pub proof fn law_bootstrap_does_not_recurse(b: Bootstrap)
    ensures
        ({
            let args = b.arguments();
            &&& args[3] == "-o"@
            &&& args[4] == "ProxyCommand=none"@
            &&& args[7] == b.ssh_target@
            &&& args.skip(8) == words(b.command@)
        }),
{
    assert(b.arguments().skip(8) =~= words(b.command@));
}

/// The arguments say where to connect: the port in decimal digits, which spell it
/// without a zero in front, and the target. So bootstraps for different ports, or
/// for different targets, have different arguments. The rest is fixed: no terminal,
/// no proxy command, no forwardings.
pub proof fn law_bootstrap_connects_to_its_target(b: Bootstrap, other: Bootstrap)
    ensures
        ({
            let args = b.arguments();
            &&& args.len() >= 8
            &&& args[0] == "-T"@
            &&& args[1] == "-p"@
            &&& decimal_value(args[2]) == b.ssh_port
            &&& args[2].len() > 0
            &&& forall|i: int|
                0 <= i < args[2].len() ==> '0' as int <= (#[trigger] args[2][i]) as int
                    <= '9' as int
            &&& args[2].len() > 1 ==> args[2][0] != '0'
            &&& args[3] == "-o"@
            &&& args[4] == "ProxyCommand=none"@
            &&& args[5] == "-o"@
            &&& args[6] == "ClearAllForwardings=yes"@
            &&& args[7] == b.ssh_target@
        }),
        b.arguments() == other.arguments() ==> b.ssh_port == other.ssh_port && b.ssh_target@
            == other.ssh_target@ && words(b.command@) == words(other.command@),
{
    crate::text::law_decimal(b.ssh_port as nat);
    crate::text::law_decimal(other.ssh_port as nat);
    law_bootstrap_does_not_recurse(b);
    law_bootstrap_does_not_recurse(other);
    assert(b.arguments()[2] == decimal(b.ssh_port as nat));
    assert(other.arguments()[2] == decimal(other.ssh_port as nat));
}

/// The words of the command stand behind the target as they are, each an argument
/// of its own.
pub proof fn law_bootstrap_runs_its_command(
    b: Bootstrap,
    other: Bootstrap,
    before: Seq<char>,
    word: Seq<char>,
)
    requires
        forall|i: int|
            0 <= i < before.len() ==> crate::text::white_space(#[trigger] before[i]),
        forall|i: int|
            0 <= i < word.len() ==> !crate::text::white_space(#[trigger] word[i]),
        word.len() > 0,
        other.command@.len() > 0 ==> crate::text::white_space(other.command@[0]),
        b.command@ == before + word + other.command@,
    ensures
        b.arguments().skip(8) == seq![word] + other.arguments().skip(8),
{
    crate::text::law_words(before, word, other.command@);
    law_bootstrap_does_not_recurse(b);
    law_bootstrap_does_not_recurse(other);
}

/// How the server is authenticated.
#[derive(Debug)]
pub enum Authentication {
    /// By the fingerprint that was given.
    Pinned([u8; FINGERPRINT_LEN]),
    /// By the fingerprint that the bootstrap fetches.
    Fetch(Bootstrap),
}

/// The result says how the server is authenticated.
pub open spec fn authenticates(
    fingerprint: Option<Seq<char>>,
    bootstrap: Option<Bootstrap>,
    r: Result<Authentication>,
) -> bool {
    match fingerprint {
        Some(text) => match parsed_fingerprint(text) {
            Parsed::Fingerprint { bytes } => r matches Ok(Authentication::Pinned(fp)) && fp@
                == bytes,
            Parsed::NotHex { error } => r matches Err(Error::InvalidFingerprint(e)) && e == error,
            Parsed::WrongLength { len } => r matches Err(Error::FingerprintLength(n)) && n == len,
        },
        None => match bootstrap {
            Some(b) => r == Ok::<Authentication, Error>(Authentication::Fetch(b)),
            None => r == Err::<Authentication, Error>(Error::MissingAuthentication),
        },
    }
}

/// A server is authenticated by the fingerprint that was given in hexadecimal,
/// whatever bootstrap there is; by the bootstrap that was given, as it is, if there
/// is no fingerprint; and not at all without either. A text that is no fingerprint
/// never falls back to the bootstrap.
pub proof fn law_authentication(
    fingerprint: Seq<u8>,
    before: Seq<char>,
    after: Seq<char>,
    text: Seq<char>,
    bootstrap: Option<Bootstrap>,
    b: Bootstrap,
    r: Result<Authentication>,
)
    requires
        fingerprint.len() == 32,
        forall|i: int|
            0 <= i < before.len() ==> crate::text::white_space(#[trigger] before[i]),
        forall|i: int| 0 <= i < after.len() ==> crate::text::white_space(#[trigger] after[i]),
    ensures
        authenticates(
            Some(before + crate::hexdigits::hex_encoded(fingerprint) + after),
            bootstrap,
            r,
        ) ==> (r matches Ok(Authentication::Pinned(fp)) && fp@ == fingerprint),
        authenticates(Some(text), bootstrap, r) ==> !(r matches Ok(Authentication::Fetch(_))),
        authenticates(None, Some(b), r) ==> r == Ok::<Authentication, Error>(
            Authentication::Fetch(b),
        ),
        authenticates(None, None, r) ==> r == Err::<Authentication, Error>(
            Error::MissingAuthentication,
        ),
{
    crate::tls::law_fingerprint_reads_back(before, fingerprint, after);
}

/// Decides how the server is authenticated. A fingerprint that was given goes
/// before a bootstrap; without either, nothing is trusted.
pub fn authentication(fingerprint: Option<String>, bootstrap: Option<Bootstrap>) -> (r: Result<
    Authentication,
>)
    ensures
        authenticates(
            match fingerprint {
                Some(text) => Some(text@),
                None => None,
            },
            bootstrap,
            r,
        ),
        match fingerprint {
            Some(text) => match parsed_fingerprint(text@) {
                Parsed::Fingerprint { bytes } => r matches Ok(Authentication::Pinned(fp)) && fp@
                    == bytes,
                Parsed::NotHex { error } => r matches Err(Error::InvalidFingerprint(e)) && e
                    == error,
                Parsed::WrongLength { len } => r matches Err(Error::FingerprintLength(n)) && n
                    == len,
            },
            None => match bootstrap {
                Some(b) => r == Ok::<Authentication, Error>(Authentication::Fetch(b)),
                None => r == Err::<Authentication, Error>(Error::MissingAuthentication),
            },
        },
{
    match fingerprint {
        Some(text) => match parse_fingerprint(text.as_str()) {
            Ok(fp) => Ok(Authentication::Pinned(fp)),
            Err(e) => Err(e),
        },
        None => match bootstrap {
            Some(b) => Ok(Authentication::Fetch(b)),
            None => Err(Error::MissingAuthentication),
        },
    }
}

/// The text that `String::from_utf8_lossy` makes of bytes that are not UTF-8.
pub uninterp spec fn utf8_replaced(bytes: Seq<u8>) -> Seq<char>;

/// The text that bytes spell in UTF-8, with replacements where they do not.
pub open spec fn lossy_text(bytes: Seq<u8>) -> Seq<char> {
    if valid_utf8(bytes) {
        decode_utf8(bytes)
    } else {
        utf8_replaced(bytes)
    }
}

/// `String::from_utf8_lossy`: the text that the bytes spell in UTF-8. What
/// stands in the place of bytes that are not UTF-8 is left to the name.
#[verifier::external_body]
fn from_utf8_lossy(bytes: &[u8]) -> (text: String)
    ensures
        valid_utf8(bytes@) ==> text@ == decode_utf8(bytes@),
        !valid_utf8(bytes@) ==> text@ == utf8_replaced(bytes@),
{
    String::from_utf8_lossy(bytes).into_owned()
}

/// What the output of the bootstrap command gives: the fingerprint in its last
/// line that is not blank, so that a banner before it does no harm.
pub open spec fn fetched(text: Seq<char>) -> Option<Parsed> {
    match last_nonblank(lines(text)) {
        Some(line) => Some(parsed_fingerprint(line)),
        None => None,
    }
}

/// Reads the fingerprint from the text that the bootstrap command printed.
pub fn fingerprint_in(text: &str) -> (r: Result<[u8; FINGERPRINT_LEN]>)
    ensures
        match fetched(text@) {
            Some(parsed) => reports(r, parsed),
            None => r == Err::<[u8; FINGERPRINT_LEN], Error>(Error::BootstrapEmpty),
        },
{
    match last_nonblank_line(text) {
        Some(line) => parse_fingerprint(line),
        None => Err(Error::BootstrapEmpty),
    }
}

/// The result says what the bootstrap command came to.
pub open spec fn fetches(
    succeeded: bool,
    stdout: Seq<u8>,
    r: Result<[u8; FINGERPRINT_LEN]>,
) -> bool {
    if !succeeded {
        r == Err::<[u8; FINGERPRINT_LEN], Error>(Error::BootstrapExit)
    } else {
        match fetched(lossy_text(stdout)) {
            Some(parsed) => reports(r, parsed),
            None => r == Err::<[u8; FINGERPRINT_LEN], Error>(Error::BootstrapEmpty),
        }
    }
}

/// What the bootstrap command came to: whether it succeeded, and what it printed.
pub fn fetch_fingerprint(succeeded: bool, stdout: &[u8]) -> (r: Result<[u8; FINGERPRINT_LEN]>)
    ensures
        fetches(succeeded, stdout@, r),
        !succeeded ==> r == Err::<[u8; FINGERPRINT_LEN], Error>(Error::BootstrapExit),
        succeeded ==> match fetched(lossy_text(stdout@)) {
            Some(parsed) => reports(r, parsed),
            None => r == Err::<[u8; FINGERPRINT_LEN], Error>(Error::BootstrapEmpty),
        },
{
    if !succeeded {
        return Err(Error::BootstrapExit);
    }
    fingerprint_in(from_utf8_lossy(stdout).as_str())
}

/// The first wait before another attempt, in milliseconds.
pub const INITIAL_BACKOFF: u64 = 250;

/// The longest wait before another attempt, in milliseconds.
pub const MAX_BACKOFF: u64 = 5_000;

/// Keep retrying for this long, in nanoseconds, without a link before giving
/// up, so a transient network handover is transparent but a dead server still
/// surfaces an error to SSH instead of hanging forever.
pub const MAX_RECONNECT_WINDOW: u128 = 600_000_000_000;

/// What happened to the client's link. Times are nanoseconds on a clock that
/// never goes back.
#[derive(Debug)]
pub enum ProxyEvent {
    /// No connection.
    ConnectFailed { stdin_finished: bool, now: u128 },
    /// The server welcomed the session.
    HandshakeDone,
    /// The server does not know the session; `fresh_id` is for a new one.
    HandshakeRejected { fresh_id: [u8; SESSION_ID_LEN] },
    /// The handshake failed otherwise.
    HandshakeFailed { now: u128 },
    /// The link was serviced to its end.
    LinkEnded { end: LinkEnd, now: u128 },
    /// Servicing the link failed.
    LinkFailed { error: Error },
}

/// What the client does next.
#[derive(Debug, Clone, Copy, PartialEq, Eq)]
pub enum ProxyAction {
    /// Connect again at once.
    Connect,
    /// Connect again after this many milliseconds.
    ConnectAfter { millis: u64 },
    /// Service the link.
    RunLink,
    /// The session is over.
    Finish,
}

/// How a client keeps its session up across links.
#[derive(Debug)]
pub struct ProxyLoop {
    pub session_id: [u8; SESSION_ID_LEN],
    /// Whether the server should know the session.
    pub resume: bool,
    /// The wait before the next attempt, in milliseconds.
    pub backoff: u64,
    /// When to stop retrying.
    pub give_up_at: u128,
}

/// The wait after one of `backoff`.
pub open spec fn doubled(backoff: u64) -> u64 {
    if 2 * backoff <= MAX_BACKOFF {
        (2 * backoff) as u64
    } else {
        MAX_BACKOFF
    }
}

impl ProxyLoop {
    pub open spec fn wf(self) -> bool {
        INITIAL_BACKOFF <= self.backoff <= MAX_BACKOFF
    }

    /// The state before the first attempt.
    pub open spec fn initial(session_id: [u8; SESSION_ID_LEN], now: u128) -> ProxyLoop {
        ProxyLoop {
            session_id,
            resume: false,
            backoff: INITIAL_BACKOFF,
            give_up_at: (now + MAX_RECONNECT_WINDOW) as u128,
        }
    }

    /// The hello that starts a link.
    pub open spec fn greeting(self, session: Session) -> Message {
        Message::Hello {
            session_id: self.session_id@,
            applied: session.recv.applied as u64,
            resume: self.resume,
        }
    }

    pub open spec fn retried(self, now: u128) -> (ProxyLoop, Result<ProxyAction>) {
        if now >= self.give_up_at {
            (self, Err(Error::ReconnectGaveUp))
        } else {
            (
                ProxyLoop { backoff: doubled(self.backoff), ..self },
                Ok(ProxyAction::ConnectAfter { millis: self.backoff }),
            )
        }
    }

    /// The state after something happened, and what to do next, or the error that
    /// the client fails with.
    pub open spec fn after(self, event: ProxyEvent) -> (ProxyLoop, Result<ProxyAction>) {
        match event {
            ProxyEvent::ConnectFailed { stdin_finished, now } => if stdin_finished {
                (self, Ok(ProxyAction::Finish))
            } else {
                self.retried(now)
            },
            ProxyEvent::HandshakeDone => (
                ProxyLoop { backoff: INITIAL_BACKOFF, ..self },
                Ok(ProxyAction::RunLink),
            ),
            ProxyEvent::HandshakeRejected { fresh_id } => (
                ProxyLoop { session_id: fresh_id, resume: false, ..self },
                Ok(ProxyAction::Connect),
            ),
            ProxyEvent::HandshakeFailed { now } => self.retried(now),
            ProxyEvent::LinkEnded { end: LinkEnd::PeerFin, .. } => (self, Ok(ProxyAction::Finish)),
            ProxyEvent::LinkEnded { end: LinkEnd::Disconnected, now } => (
                ProxyLoop {
                    resume: true,
                    give_up_at: (now + MAX_RECONNECT_WINDOW) as u128,
                    ..self
                },
                Ok(ProxyAction::Connect),
            ),
            ProxyEvent::LinkFailed { error } => (self, Err(error)),
        }
    }

    /// The session after something happened: it starts over when the server
    /// rejected it, and is kept otherwise.
    pub open spec fn session_after(session: Session, event: ProxyEvent) -> Session {
        match event {
            ProxyEvent::HandshakeRejected { .. } => session.started_over(),
            _ => session,
        }
    }

    pub fn new(session_id: [u8; SESSION_ID_LEN], now: u128) -> (p: ProxyLoop)
        requires
            now + MAX_RECONNECT_WINDOW <= u128::MAX,
        ensures
            p == ProxyLoop::initial(session_id, now),
            p.wf(),
    {
        ProxyLoop {
            session_id,
            resume: false,
            backoff: INITIAL_BACKOFF,
            give_up_at: now + MAX_RECONNECT_WINDOW,
        }
    }

    /// The hello to start a link with.
    pub fn hello(&self, state: &SessionState) -> (hello: Frame)
        ensures
            hello@ == self.greeting(state@),
    {
        Link::hello(state, &self.session_id, self.resume)
    }

    fn retry(&mut self, now: u128) -> (action: Result<ProxyAction>)
        requires
            old(self).wf(),
        ensures
            (*final(self), action) == old(self).retried(now),
            final(self).wf(),
    {
        if now >= self.give_up_at {
            return Err(Error::ReconnectGaveUp);
        }
        let millis: u64 = self.backoff;
        self.backoff = if self.backoff * 2 <= MAX_BACKOFF {
            self.backoff * 2
        } else {
            MAX_BACKOFF
        };
        Ok(ProxyAction::ConnectAfter { millis })
    }

    /// Takes what happened and says what to do next.
    ///
    /// A rejected session is one that the server forgot (restart or idle reap).
    /// A fresh one starts; bytes already sent cannot be recovered, but the SSH
    /// layer will notice and reconnect.
    pub fn proxy_loop(&mut self, state: &mut SessionState, event: ProxyEvent) -> (action: Result<
        ProxyAction,
    >)
        requires
            old(self).wf(),
            old(state)@.wf(),
            event matches ProxyEvent::LinkEnded { now, .. } ==> now + MAX_RECONNECT_WINDOW
                <= u128::MAX,
        ensures
            (*final(self), action) == old(self).after(event),
            final(state)@ == ProxyLoop::session_after(old(state)@, event),
            final(self).wf(),
            final(state)@.wf(),
    {
        match event {
            ProxyEvent::ConnectFailed { stdin_finished, now } => {
                if stdin_finished {
                    Ok(ProxyAction::Finish)
                } else {
                    self.retry(now)
                }
            },
            ProxyEvent::HandshakeDone => {
                self.backoff = INITIAL_BACKOFF;
                Ok(ProxyAction::RunLink)
            },
            ProxyEvent::HandshakeRejected { fresh_id } => {
                self.session_id = fresh_id;
                self.resume = false;
                state.start_over();
                Ok(ProxyAction::Connect)
            },
            ProxyEvent::HandshakeFailed { now } => self.retry(now),
            ProxyEvent::LinkEnded { end: LinkEnd::PeerFin, .. } => Ok(ProxyAction::Finish),
            ProxyEvent::LinkEnded { end: LinkEnd::Disconnected, now } => {
                self.resume = true;
                self.give_up_at = now + MAX_RECONNECT_WINDOW;
                Ok(ProxyAction::Connect)
            },
            ProxyEvent::LinkFailed { error } => Err(error),
        }
    }
}

/// The wait before attempt `n + 1` after `n` attempts in a row failed.
pub open spec fn wait_after(n: nat) -> u64
    decreases n,
{
    if n == 0 {
        INITIAL_BACKOFF
    } else {
        doubled(wait_after((n - 1) as nat))
    }
}

/// 2 to the power of `n`.
pub open spec fn two_to(n: nat) -> nat
    decreases n,
{
    if n == 0 {
        1
    } else {
        2 * two_to((n - 1) as nat)
    }
}

/// The waits between failed attempts double from a quarter of a second up to
/// five seconds.
pub proof fn law_waits_double(n: nat)
    ensures
        wait_after(n) == if INITIAL_BACKOFF * two_to(n) <= MAX_BACKOFF {
            INITIAL_BACKOFF * two_to(n)
        } else {
            MAX_BACKOFF as int
        },
        INITIAL_BACKOFF <= wait_after(n) <= MAX_BACKOFF,
    decreases n,
{
    if n > 0 {
        law_waits_double((n - 1) as nat);
        assert(INITIAL_BACKOFF * two_to(n) == 2 * (INITIAL_BACKOFF * two_to((n - 1) as nat)))
            by (nonlinear_arith)
            requires
                two_to(n) == 2 * two_to((n - 1) as nat),
        ;
    }
}

/// The state after a run of events, and what each of them asked for.
pub open spec fn after_all(p: ProxyLoop, events: Seq<ProxyEvent>) -> (
    ProxyLoop,
    Seq<Result<ProxyAction>>,
)
    decreases events.len(),
{
    if events.len() == 0 {
        (p, Seq::empty())
    } else {
        let (before, actions) = after_all(p, events.drop_last());
        let (after, action) = before.after(events.last());
        (after, actions.push(action))
    }
}

/// A failed attempt: no connection, or no welcome, while there is still
/// something to carry.
pub open spec fn failed_at(event: ProxyEvent) -> Option<u128> {
    match event {
        ProxyEvent::ConnectFailed { stdin_finished: false, now } => Some(now),
        ProxyEvent::HandshakeFailed { now } => Some(now),
        _ => None,
    }
}

/// Attempts that fail one after the other wait longer and longer, as
/// [`wait_after`] says, from the first wait that a new client or a link that
/// came up starts with.
pub proof fn law_failures_wait(p: ProxyLoop, events: Seq<ProxyEvent>)
    requires
        p.backoff == INITIAL_BACKOFF,
        forall|i: int|
            0 <= i < events.len() ==> (failed_at(#[trigger] events[i]) matches Some(now) && now
                < p.give_up_at),
    ensures
        after_all(p, events).0 == (ProxyLoop { backoff: wait_after(events.len()), ..p }),
        after_all(p, events).1.len() == events.len(),
        forall|i: int|
            0 <= i < events.len() ==> #[trigger] after_all(p, events).1[i]
                == Ok::<ProxyAction, Error>(
                ProxyAction::ConnectAfter { millis: wait_after(i as nat) },
            ),
    decreases events.len(),
{
    if events.len() > 0 {
        let shorter = events.drop_last();
        assert forall|i: int| 0 <= i < shorter.len() implies (failed_at(
            #[trigger] shorter[i],
        ) matches Some(now) && now < p.give_up_at) by {
            assert(shorter[i] == events[i]);
        }
        law_failures_wait(p, shorter);
        assert(failed_at(events[events.len() - 1]) is Some);
    }
}

/// Retries stop once there was no link for the reconnect window, and not
/// before: whatever failed since the client started or its last link was lost,
/// an attempt that fails at or past the end of the window gives up, and one
/// that fails before it is followed by another. A session that the server
/// rejected does not extend the window.
pub proof fn law_retries_stop(p: ProxyLoop, since: u128, events: Seq<ProxyEvent>, last: ProxyEvent)
    requires
        p.give_up_at == since + MAX_RECONNECT_WINDOW,
        forall|i: int| 0 <= i < events.len() ==> !(#[trigger] events[i] is LinkEnded),
        failed_at(last) is Some,
    ensures
        after_all(p, events).0.give_up_at == p.give_up_at,
        failed_at(last)->0 >= since + MAX_RECONNECT_WINDOW ==> after_all(p, events).0.after(last).1
            == Err::<ProxyAction, Error>(Error::ReconnectGaveUp),
        failed_at(last)->0 < since + MAX_RECONNECT_WINDOW ==> (after_all(p, events).0.after(
            last,
        ).1 matches Ok(action) && action is ConnectAfter),
    decreases events.len(),
{
    if events.len() > 0 {
        let shorter = events.drop_last();
        assert forall|i: int| 0 <= i < shorter.len() implies !(#[trigger] shorter[
            i
        ] is LinkEnded) by {
            assert(shorter[i] == events[i]);
        }
        law_retries_stop(p, since, shorter, last);
        assert(!(events[events.len() - 1] is LinkEnded));
    }
}

/// A client that lost its link asks to resume the same session, with both
/// streams as they were, and has ten minutes from then on, whatever came before; one that was rejected starts a new session with fresh
/// streams, which no server rejects.
pub proof fn law_reconnects(
    p: ProxyLoop,
    session: Session,
    fresh_id: [u8; SESSION_ID_LEN],
    now: u128,
    server: crate::server::Sessions,
)
    ensures
        ({
            let lost = ProxyEvent::LinkEnded { end: LinkEnd::Disconnected, now };
            let (after, action) = p.after(lost);
            &&& action == Ok::<ProxyAction, Error>(ProxyAction::Connect)
            &&& after.resume
            &&& after.session_id == p.session_id
            &&& ProxyLoop::session_after(session, lost) == session
            &&& now + 600_000_000_000 <= u128::MAX ==> after.give_up_at == now + 600_000_000_000
        }),
        ({
            let rejected = ProxyEvent::HandshakeRejected { fresh_id };
            let (after, action) = p.after(rejected);
            let anew = ProxyLoop::session_after(session, rejected);
            &&& action == Ok::<ProxyAction, Error>(ProxyAction::Connect)
            &&& after.session_id == fresh_id
            &&& server.chosen(after.session_id@, after.resume)
                != crate::server::SessionChoice::Reject
            &&& anew.send == crate::session::Outbound::initial()
            &&& anew.recv == crate::session::Inbound::initial()
            &&& anew.send.next_offset == 0 && anew.send.acked == 0 && anew.send.sent == 0
            &&& anew.send.chunks.len() == 0
            &&& anew.recv.applied == 0 && anew.recv.pending.dom().len() == 0
            &&& anew.fin == session.fin
        }),
{
}

/// The link was serviced until the transport failed.
pub open spec fn lost(event: ProxyEvent) -> bool {
    event matches ProxyEvent::LinkEnded { end, .. } && end is Disconnected
}

/// The session after a run of events.
pub open spec fn session_after_all(session: Session, events: Seq<ProxyEvent>) -> Session
    decreases events.len(),
{
    if events.len() == 0 {
        session
    } else {
        ProxyLoop::session_after(
            session_after_all(session, events.drop_last()),
            events.last(),
        )
    }
}

/// Unless the server rejects the session, it stays the same through any course
/// of links, drops and failed attempts: every hello carries the same id and what
/// is applied by then, and asks to resume just when some link was lost before.
/// The streams are left alone. As soon as a link ends because the peer finished,
/// the client is done, and an error of servicing a link is what the client fails
/// with, at once.
pub proof fn law_session_outlives_links(
    id: [u8; SESSION_ID_LEN],
    start: u128,
    events: Seq<ProxyEvent>,
    session: Session,
    error: Error,
    now: u128,
)
    requires
        forall|i: int| 0 <= i < events.len() ==> !(#[trigger] events[i] is HandshakeRejected),
    ensures
        ({
            let p = after_all(ProxyLoop::initial(id, start), events).0;
            let finished = ProxyEvent::LinkEnded { end: LinkEnd::PeerFin, now };
            &&& p.session_id == id
            &&& p.resume <==> exists|i: int| 0 <= i < events.len() && lost(#[trigger] events[i])
            &&& p.greeting(session) == (Message::Hello {
                session_id: id@,
                applied: session.recv.applied as u64,
                resume: exists|i: int| 0 <= i < events.len() && lost(#[trigger] events[i]),
            })
            &&& session_after_all(session, events) == session
            &&& p.after(finished).1 == Ok::<ProxyAction, Error>(ProxyAction::Finish)
            &&& p.after(ProxyEvent::LinkFailed { error }).1 == Err::<ProxyAction, Error>(error)
        }),
    decreases events.len(),
{
    if events.len() > 0 {
        let shorter = events.drop_last();
        let last = events[events.len() - 1];
        assert forall|i: int| 0 <= i < shorter.len() implies !(#[trigger] shorter[
            i
        ] is HandshakeRejected) by {
            assert(shorter[i] == events[i]);
        }
        law_session_outlives_links(id, start, shorter, session, error, now);
        assert(!(last is HandshakeRejected));
        if exists|i: int| 0 <= i < shorter.len() && lost(#[trigger] shorter[i]) {
            let i = choose|i: int| 0 <= i < shorter.len() && lost(#[trigger] shorter[i]);
            assert(lost(events[i]));
        }
        if exists|i: int| 0 <= i < events.len() && lost(#[trigger] events[i]) {
            let i = choose|i: int| 0 <= i < events.len() && lost(#[trigger] events[i]);
            if i < shorter.len() {
                assert(lost(shorter[i]));
            }
        }
    }
}

/// Lines before a line feed do not depend on what follows it.
proof fn lemma_lines_append(a: Seq<char>, b: Seq<char>)
    requires
        a.len() == 0 || a.last() == '\n',
    ensures
        lines(a + b) == lines(a) + lines(b),
    decreases a.len(),
{
    if a.len() == 0 {
        assert(a + b =~= b);
        assert(lines(a) + lines(b) =~= lines(b));
    } else {
        lemma_line_len_prefix(a, b);
        let n = line_len(a) as int;
        let rest = a.skip(n + 1);
        assert((a + b).take(n) =~= a.take(n));
        assert((a + b).skip(n + 1) =~= rest + b);
        if rest.len() > 0 {
            assert(rest.last() == a.last());
        }
        lemma_lines_append(rest, b);
        assert(lines(a + b) =~= lines(a) + lines(b));
    }
}

/// A text that ends with a line feed has its first line feed inside.
proof fn lemma_line_len_prefix(a: Seq<char>, b: Seq<char>)
    requires
        a.len() > 0,
        a.last() == '\n',
    ensures
        line_len(a) < a.len(),
        line_len(a + b) == line_len(a),
    decreases a.len(),
{
    assert((a + b)[0] == a[0]);
    if a[0] != '\n' {
        assert((a + b).skip(1) =~= a.skip(1) + b);
        assert(a.skip(1).last() == a.last());
        lemma_line_len_prefix(a.skip(1), b);
    }
}

/// A line that is followed by a line feed and nothing else.
proof fn lemma_one_line(line: Seq<char>, at: int)
    requires
        forall|i: int| 0 <= i < line.len() ==> #[trigger] line[i] != '\n',
        0 <= at <= line.len(),
    ensures
        line_len(line.skip(at) + seq!['\n']) == line.len() - at,
    decreases line.len() - at,
{
    let s = line.skip(at) + seq!['\n'];
    if at < line.len() {
        assert(s[0] == line[at]);
        assert(s.skip(1) =~= line.skip(at + 1) + seq!['\n']);
        lemma_one_line(line, at + 1);
    } else {
        assert(s[0] == '\n');
    }
}

/// A client reads from its bootstrap command the very fingerprint that the
/// server printed on a line of its own, whatever lines came before it.
pub proof fn law_bootstrap_reads_back(banner: Seq<char>, fingerprint: Seq<u8>)
    requires
        fingerprint.len() == FINGERPRINT_LEN,
        banner.len() == 0 || banner.last() == '\n',
    ensures
        fetched(
            lossy_text(
                encode_utf8(
                    banner + crate::hexdigits::hex_encoded(fingerprint) + seq!['\n'],
                ),
            ),
        ) == Some(Parsed::Fingerprint { bytes: fingerprint }),
{
    let hex = crate::hexdigits::hex_encoded(fingerprint);
    let line = hex + seq!['\n'];
    let text = banner + hex + seq!['\n'];
    vstd::utf8::encode_utf8_valid_utf8(text);
    vstd::utf8::encode_utf8_decode_utf8(text);
    assert forall|i: int| 0 <= i < hex.len() implies #[trigger] hex[i] != '\n' by {
        crate::tls::lemma_hex_has_no_white_space(fingerprint, i);
    }
    lemma_one_line(hex, 0);
    assert(hex.skip(0) =~= hex);
    assert(line.take(hex.len() as int) =~= hex);
    crate::tls::lemma_hex_has_no_white_space(fingerprint, hex.len() - 1);
    crate::tls::lemma_hex_has_no_white_space(fingerprint, 0);
    assert(without_cr(hex) == hex);
    assert(line.skip(hex.len() as int + 1) =~= Seq::empty());
    assert(lines(line) =~= seq![hex]) by {
        assert(lines(line.skip(hex.len() as int + 1)) =~= Seq::empty());
    }
    assert(text =~= banner + line);
    lemma_lines_append(banner, line);
    let none = Seq::<char>::empty();
    crate::tls::lemma_trimmed_padded(none, hex, none);
    assert(none + hex + none =~= hex);
    crate::tls::law_fingerprint_reads_back(none, fingerprint, none);
    let all = lines(banner) + seq![hex];
    assert(all.last() == hex);
}

/// The fingerprint is read from the last line of the output that is not blank,
/// whatever stands before it, and there is none just when all lines are blank.
pub proof fn law_last_line_is_read(text: Seq<char>)
    ensures
        match fetched(text) {
            Some(parsed) => exists|i: int|
                0 <= i < lines(text).len() && parsed == parsed_fingerprint(
                    #[trigger] lines(text)[i],
                ) && !blank(lines(text)[i]) && forall|j: int|
                    i < j < lines(text).len() ==> blank(#[trigger] lines(text)[j]),
            None => forall|j: int| 0 <= j < lines(text).len() ==> blank(#[trigger] lines(text)[j]),
        },
{
    let all = lines(text);
    crate::text::law_last_nonblank(all);
    assert forall|j: int| 0 <= j < all.len() implies blank(#[trigger] all[j]) == (
    crate::text::trimmed(all[j]).len() == 0) by {
        crate::text::law_blank(all[j]);
    }
}

/// The line is all white space.
pub open spec fn blank(line: Seq<char>) -> bool {
    forall|i: int| 0 <= i < line.len() ==> crate::text::white_space(#[trigger] line[i])
}

/// When the client was last without a link since: when its latest link was lost, or
/// `start` if none was.
pub open spec fn down_since(start: u128, events: Seq<ProxyEvent>) -> u128
    decreases events.len(),
{
    if events.len() == 0 {
        start
    } else {
        match events.last() {
            ProxyEvent::LinkEnded { end: LinkEnd::Disconnected, now } => now,
            _ => down_since(start, events.drop_last()),
        }
    }
}

/// How many attempts failed since a link last came up.
pub open spec fn failures(events: Seq<ProxyEvent>) -> nat
    decreases events.len(),
{
    if events.len() == 0 {
        0
    } else {
        match events.last() {
            ProxyEvent::HandshakeDone => 0,
            ProxyEvent::ConnectFailed { stdin_finished: false, .. } => failures(
                events.drop_last(),
            ) + 1,
            ProxyEvent::HandshakeFailed { .. } => failures(events.drop_last()) + 1,
            _ => failures(events.drop_last()),
        }
    }
}

/// The id that the client uses: the one it drew when the server last rejected it,
/// or `id` if that never happened.
pub open spec fn latest_id(id: [u8; SESSION_ID_LEN], events: Seq<ProxyEvent>) -> [u8;
    SESSION_ID_LEN]
    decreases events.len(),
{
    if events.len() == 0 {
        id
    } else {
        match events.last() {
            ProxyEvent::HandshakeRejected { fresh_id } => fresh_id,
            _ => latest_id(id, events.drop_last()),
        }
    }
}

/// A link was lost since the server last rejected the client.
pub open spec fn lost_since_rejection(events: Seq<ProxyEvent>) -> bool
    decreases events.len(),
{
    if events.len() == 0 {
        false
    } else {
        match events.last() {
            ProxyEvent::LinkEnded { end: LinkEnd::Disconnected, .. } => true,
            ProxyEvent::HandshakeRejected { .. } => false,
            _ => lost_since_rejection(events.drop_last()),
        }
    }
}

/// What a client does over any course of events that it survived. An attempt that
/// fails gives up just when ten minutes or more have passed since the latest link
/// was lost, or since the start if none was; before that it is tried again, after a
/// quarter of a second, doubled for each attempt that failed since a link last came
/// up, and at most five seconds. With nothing left to carry, a failed attempt ends
/// the client instead. A link that came up is serviced; one that was lost, and a
/// session that was rejected, are followed by another attempt at once; a peer that
/// finished ends the client, and so does an error, which is what it fails with. The
/// next hello carries the id of the session that the server last agreed to or
/// rejected, asks to resume just when a link was lost since, and says what was
/// applied.
pub proof fn law_course_of_a_client(
    id: [u8; SESSION_ID_LEN],
    start: u128,
    events: Seq<ProxyEvent>,
    session: Session,
    next: ProxyEvent,
)
    requires
        start + MAX_RECONNECT_WINDOW <= u128::MAX,
        forall|i: int|
            0 <= i < events.len() ==> (#[trigger] events[i] matches ProxyEvent::LinkEnded {
                now,
                ..
            } ==> now + MAX_RECONNECT_WINDOW <= u128::MAX),
        forall|i: int|
            0 <= i < events.len() ==> #[trigger] after_all(
                ProxyLoop::initial(id, start),
                events,
            ).1[i] is Ok,
    ensures
        ({
            let p = after_all(ProxyLoop::initial(id, start), events).0;
            let wait = 250 * two_to(failures(events));
            let r = p.after(next).1;
            &&& p.give_up_at == down_since(start, events) + 600_000_000_000
            &&& p.backoff == if wait <= 5_000 { wait as int } else { 5_000 }
            &&& p.session_id == latest_id(id, events)
            &&& p.resume <==> lost_since_rejection(events)
            &&& p.greeting(session) matches Message::Hello { session_id, applied, resume }
                && session_id == latest_id(id, events)@ && applied == session.recv.applied as u64
                && resume == lost_since_rejection(events)
            &&& failed_at(next) matches Some(now) ==> if now >= down_since(start, events)
                + 600_000_000_000 {
                r == Err::<ProxyAction, Error>(Error::ReconnectGaveUp)
            } else {
                r matches Ok(ProxyAction::ConnectAfter { millis }) && millis == if wait <= 5_000 {
                    wait as int
                } else {
                    5_000
                }
            }
            &&& match next {
                ProxyEvent::ConnectFailed { stdin_finished: true, .. } => r == Ok::<
                    ProxyAction,
                    Error,
                >(ProxyAction::Finish),
                ProxyEvent::HandshakeDone => r == Ok::<ProxyAction, Error>(ProxyAction::RunLink),
                ProxyEvent::HandshakeRejected { .. } => r == Ok::<ProxyAction, Error>(
                    ProxyAction::Connect,
                ),
                ProxyEvent::LinkEnded { end: LinkEnd::Disconnected, .. } => r == Ok::<
                    ProxyAction,
                    Error,
                >(ProxyAction::Connect),
                ProxyEvent::LinkEnded { end: LinkEnd::PeerFin, .. } => r == Ok::<
                    ProxyAction,
                    Error,
                >(ProxyAction::Finish),
                ProxyEvent::LinkFailed { error } => r == Err::<ProxyAction, Error>(error),
                _ => failed_at(next) is Some,
            }
        }),
{
    law_waits_double(failures(events));
    lemma_course(id, start, events);
}

proof fn lemma_course(id: [u8; SESSION_ID_LEN], start: u128, events: Seq<ProxyEvent>)
    requires
        start + MAX_RECONNECT_WINDOW <= u128::MAX,
        forall|i: int|
            0 <= i < events.len() ==> (#[trigger] events[i] matches ProxyEvent::LinkEnded {
                now,
                ..
            } ==> now + MAX_RECONNECT_WINDOW <= u128::MAX),
        forall|i: int|
            0 <= i < events.len() ==> #[trigger] after_all(
                ProxyLoop::initial(id, start),
                events,
            ).1[i] is Ok,
    ensures
        ({
            let p = after_all(ProxyLoop::initial(id, start), events).0;
            &&& p.give_up_at == down_since(start, events) + MAX_RECONNECT_WINDOW
            &&& p.backoff == wait_after(failures(events))
            &&& p.session_id == latest_id(id, events)
            &&& p.resume <==> lost_since_rejection(events)
            &&& after_all(ProxyLoop::initial(id, start), events).1.len() == events.len()
        }),
    decreases events.len(),
{
    let first = ProxyLoop::initial(id, start);
    if events.len() > 0 {
        let shorter = events.drop_last();
        let last = events[events.len() - 1];
        lemma_actions_len(first, shorter);
        assert forall|i: int| 0 <= i < shorter.len() implies (
        #[trigger] shorter[i] matches ProxyEvent::LinkEnded { now, .. } ==> now
            + MAX_RECONNECT_WINDOW <= u128::MAX) by {
            assert(shorter[i] == events[i]);
        }
        assert forall|i: int| 0 <= i < shorter.len() implies #[trigger] after_all(
            first,
            shorter,
        ).1[i] is Ok by {
            assert(after_all(first, events).1[i] == after_all(first, shorter).1[i]);
        }
        lemma_course(id, start, shorter);
        assert(after_all(first, events).1[events.len() - 1] is Ok);
        assert(last == events.last());
    }
}

proof fn lemma_actions_len(p: ProxyLoop, events: Seq<ProxyEvent>)
    ensures
        after_all(p, events).1.len() == events.len(),
    decreases events.len(),
{
    if events.len() > 0 {
        lemma_actions_len(p, events.drop_last());
    }
}

/// A command that failed is never trusted, whatever it printed. One that succeeded
/// gives the very fingerprint that it printed on a line of its own, whatever lines
/// came before it; and if it printed nothing but blank lines there is none.
pub proof fn law_fetched_fingerprint(
    banner: Seq<char>,
    fingerprint: Seq<u8>,
    stdout: Seq<u8>,
    r: Result<[u8; FINGERPRINT_LEN]>,
)
    requires
        fingerprint.len() == 32,
        banner.len() == 0 || banner.last() == '\n',
    ensures
        fetches(false, stdout, r) ==> r == Err::<[u8; FINGERPRINT_LEN], Error>(
            Error::BootstrapExit,
        ),
        fetches(
            true,
            encode_utf8(banner + crate::hexdigits::hex_encoded(fingerprint) + seq!['\n']),
            r,
        ) ==> (r matches Ok(fp) && fp@ == fingerprint),
        fetches(true, stdout, r) && (forall|i: int|
            0 <= i < lines(lossy_text(stdout)).len() ==> blank(
                #[trigger] lines(lossy_text(stdout))[i],
            )) ==> r == Err::<[u8; FINGERPRINT_LEN], Error>(Error::BootstrapEmpty),
        fetches(true, stdout, r) && r is Ok ==> exists|i: int|
            0 <= i < lines(lossy_text(stdout)).len() && reports(
                r,
                parsed_fingerprint(#[trigger] lines(lossy_text(stdout))[i]),
            ) && forall|j: int|
                i < j < lines(lossy_text(stdout)).len() ==> blank(
                    #[trigger] lines(lossy_text(stdout))[j],
                ),
{
    law_bootstrap_reads_back(banner, fingerprint);
    law_last_line_is_read(lossy_text(stdout));
}

} // verus!
