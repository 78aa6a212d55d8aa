//! The exchange with the user interface: tables go out to every connected client, new
//! settings come in.

use crate::double::Double;
use crate::governor::GovernorConfig;
use crate::text;
use vstd::prelude::*;

verus! {

/// The name under which the service is registered.
pub const XPC_SERVICE_NAME: &'static str = "com.andrewzheng.allocate.daemon";

/// Whether clients are served, by the value of the environment variable
/// `ALLOCATE_XPC_ENABLE`: only where it is 1. Elsewhere the registration of the service
/// would end the program.
pub fn listener_enabled(value: Option<&str>) -> (r: bool)
    ensures
        r == (value matches Some(v) && v@ == "1"@),
{
    match value {
        Some(v) => text::same_text(v, "1"),
        None => false,
    }
}

/// A message from a client.
pub struct ConfigMessage {
    /// What kind of message it is, where it says so.
    pub kind: Option<String>,
    pub throttle_threshold: Double,
    pub release_threshold: Double,
}

/// Whether a message changes the settings: it is of that kind, both thresholds are
/// positive, and the release threshold lies below the throttle threshold.
pub open spec fn is_accepted(message: ConfigMessage) -> bool {
    let zero = Double { bits: 0 };
    &&& message.kind matches Some(kind) && kind@ == "config"@
    &&& zero.lt(message.throttle_threshold)
    &&& zero.lt(message.release_threshold)
    &&& message.release_threshold.lt(message.throttle_threshold)
}

/// The settings after a message.
pub open spec fn after_message(before: GovernorConfig, message: ConfigMessage) -> GovernorConfig {
    if is_accepted(message) {
        GovernorConfig {
            throttle_threshold: message.throttle_threshold,
            release_threshold: message.release_threshold,
            ..before
        }
    } else {
        before
    }
}

/// Takes new thresholds over from a message. A message of another kind or with
/// thresholds that make no sense is ignored. Returns whether the settings were
/// written.
pub fn handle_config_message(message: &ConfigMessage, config: &mut GovernorConfig) -> (updated: bool)
    ensures
        updated == is_accepted(*message),
        *final(config) == after_message(*old(config), *message),
        old(config).has_gap() ==> final(config).has_gap(),
        updated <==> {
            let zero = Double { bits: 0 };
            &&& message.kind is Some
            &&& message.kind.unwrap()@ == "config"@
            &&& zero.lt(message.throttle_threshold)
            &&& zero.lt(message.release_threshold)
            &&& message.release_threshold.lt(message.throttle_threshold)
        },
        updated ==> final(config).throttle_threshold == message.throttle_threshold
            && final(config).release_threshold == message.release_threshold,
        !updated ==> final(config).throttle_threshold == old(config).throttle_threshold
            && final(config).release_threshold == old(config).release_threshold,
        final(config).is_paused == old(config).is_paused,
        final(config).forced_e_pids == old(config).forced_e_pids,
        final(config).forced_p_pids == old(config).forced_p_pids,
{
    let is_config: bool = match &message.kind {
        Some(kind) => text::same_text(kind.as_str(), "config"),
        None => false,
    };
    if !is_config {
        return false;
    }
    let zero = Double::zero();
    if zero.less_than(message.throttle_threshold) && zero.less_than(message.release_threshold)
        && message.release_threshold.less_than(message.throttle_threshold) {
        config.throttle_threshold = message.throttle_threshold;
        config.release_threshold = message.release_threshold;
        true
    } else {
        false
    }
}

/// What is logged of new thresholds.
pub fn config_notice(throttle: Double, release: Double) -> (s: String)
    ensures
        s@ == "[IPC] Config updated: throttle="@ + throttle.one_decimal() + "% release="@
            + release.one_decimal() + "%"@,
{
    let mut s = String::new();
    s.append("[IPC] Config updated: throttle=");
    s.append(throttle.to_one_decimal().as_str());
    s.append("% release=");
    s.append(release.to_one_decimal().as_str());
    s.append("%");
    assert(s@ =~= "[IPC] Config updated: throttle="@ + throttle.one_decimal() + "% release="@
        + release.one_decimal() + "%"@);
    s
}

/// The character that takes the place of one that cannot be sent.
pub const REPLACEMENT: char = '\u{FFFD}';

/// A text with every NUL replaced.
pub open spec fn sanitized(payload: Seq<char>) -> Seq<char> {
    payload.map_values(
        |c: char|
            if c == '\0' {
                REPLACEMENT
            } else {
                c
            },
    )
}

/// A text with every NUL replaced, so that it can be sent as a C string.
pub fn sanitize(payload: &str) -> (safe: String)
    ensures
        safe@ == sanitized(payload@),
        !safe@.contains('\0'),
        safe@.len() == payload@.len(),
        forall|i: int|
            0 <= i < payload@.len() ==> #[trigger] safe@[i] == (if payload@[i] == '\0' {
                '\u{FFFD}'
            } else {
                payload@[i]
            }),
{
    let chars = text::chars_of(payload);
    let mut safe = String::new();
    let mut i: usize = 0;
    while i < chars.len()
        invariant
            chars@ == payload@,
            i <= chars@.len(),
            safe@ == sanitized(payload@).take(i as int),
        decreases chars@.len() - i,
    {
        let c: char = chars[i];
        if c == '\0' {
            safe.push(REPLACEMENT);
        } else {
            safe.push(c);
        }
        assert(sanitized(payload@).take(i + 1) =~= sanitized(payload@).take(i as int).push(
            sanitized(payload@)[i as int],
        ));
        i += 1;
    }
    assert(sanitized(payload@).take(i as int) =~= sanitized(payload@));
    safe
}

/// A message to clients.
pub struct Broadcast {
    pub payload: String,
    /// The connections that it goes to, in the order in which they were made.
    pub recipients: Vec<u64>,
}

/// What the listening connection can be told.
pub enum ListenerEvent {
    /// A client has connected.
    Connection(u64),
    /// Anything else.
    Other,
}

/// What the connection to a client can be told.
pub enum ClientEvent {
    /// The connection is gone for good.
    Invalid,
    /// Another error.
    OtherError,
    /// The client has sent a message.
    Message(ConfigMessage),
    /// Anything else.
    Other,
}

/// What an event of a client led to.
#[derive(Clone, Copy, Debug, PartialEq, Eq, Structural)]
pub enum ClientOutcome {
    /// The connection was forgotten and is to be released.
    Released,
    /// The settings were written.
    Configured,
    /// Nothing.
    Ignored,
}

/// The connected clients.
pub struct IpcBroadcaster {
    clients: Vec<u64>,
}

impl View for IpcBroadcaster {
    type V = Seq<u64>;

    /// The connections, in the order in which they were made.
    closed spec fn view(&self) -> Seq<u64> {
        self.clients@
    }
}

impl IpcBroadcaster {
    /// No client is connected yet.
    pub fn new() -> (b: IpcBroadcaster)
        ensures
            b@ == Seq::<u64>::empty(),
    {
        IpcBroadcaster { clients: Vec::new() }
    }

    /// The message that carries `payload` to every client; `None` where there is no
    /// client.
    pub fn broadcast(&self, payload: &str) -> (message: Option<Broadcast>)
        ensures
            message is Some <==> self@.len() > 0,
            message matches Some(m) ==> {
                &&& m.payload@ == sanitized(payload@)
                &&& m.recipients@ == self@
                &&& m.payload@.len() == payload@.len()
                &&& forall|i: int|
                    0 <= i < payload@.len() ==> #[trigger] m.payload@[i] == (if payload@[i]
                        == '\0' {
                        '\u{FFFD}'
                    } else {
                        payload@[i]
                    })
            },
    {
        if self.clients.len() == 0 {
            return None;
        }
        let mut recipients: Vec<u64> = Vec::new();
        let mut i: usize = 0;
        while i < self.clients.len()
            invariant
                i <= self.clients@.len(),
                recipients@ == self.clients@.take(i as int),
            decreases self.clients@.len() - i,
        {
            recipients.push(self.clients[i]);
            i += 1;
        }
        assert(recipients@ =~= self.clients@);
        Some(Broadcast { payload: sanitize(payload), recipients })
    }

    /// Takes a new client in. Returns whether the event was a connection.
    pub fn accept(&mut self, event: &ListenerEvent) -> (accepted: bool)
        ensures
            accepted == (event is Connection),
            final(self)@ == (match *event {
                ListenerEvent::Connection(handle) => old(self)@.push(handle),
                ListenerEvent::Other => old(self)@,
            }),
    {
        match event {
            ListenerEvent::Connection(handle) => {
                self.clients.push(*handle);
                true
            },
            ListenerEvent::Other => false,
        }
    }

    /// Forgets a connection.
    fn disconnect(&mut self, handle: u64)
        ensures
            final(self)@ == old(self)@.filter(|h: u64| h != handle),
    {
        let ghost others = |h: u64| h != handle;
        let mut kept: Vec<u64> = Vec::new();
        let mut i: usize = 0;
        proof {
            reveal(Seq::filter);
            assert(self.clients@.take(0) =~= Seq::<u64>::empty());
        }
        while i < self.clients.len()
            invariant
                i <= self.clients@.len(),
                others == (|h: u64| h != handle),
                kept@ == self.clients@.take(i as int).filter(others),
            decreases self.clients@.len() - i,
        {
            proof {
                reveal(Seq::filter);
                assert(self.clients@.take(i + 1).drop_last() =~= self.clients@.take(i as int));
            }
            if self.clients[i] != handle {
                kept.push(self.clients[i]);
            }
            i += 1;
        }
        assert(self.clients@.take(i as int) =~= self.clients@);
        self.clients = kept;
    }

    /// Deals with an event of the client behind a connection: one whose connection is
    /// gone is forgotten, and a message may change the settings.
    pub fn client_event(
        &mut self,
        handle: u64,
        event: &ClientEvent,
        config: &mut GovernorConfig,
    ) -> (outcome: ClientOutcome)
        ensures
            final(self)@ == (if *event is Invalid {
                old(self)@.filter(|h: u64| h != handle)
            } else {
                old(self)@
            }),
            *final(config) == (match *event {
                ClientEvent::Message(message) => after_message(*old(config), message),
                _ => *old(config),
            }),
            outcome == (match *event {
                ClientEvent::Invalid => ClientOutcome::Released,
                ClientEvent::Message(message) => if is_accepted(message) {
                    ClientOutcome::Configured
                } else {
                    ClientOutcome::Ignored
                },
                _ => ClientOutcome::Ignored,
            }),
    {
        match event {
            ClientEvent::Invalid => {
                self.disconnect(handle);
                ClientOutcome::Released
            },
            ClientEvent::Message(message) => {
                if handle_config_message(message, config) {
                    ClientOutcome::Configured
                } else {
                    ClientOutcome::Ignored
                }
            },
            ClientEvent::OtherError => ClientOutcome::Ignored,
            ClientEvent::Other => ClientOutcome::Ignored,
        }
    }
}

/// Whatever a client sends, thresholds that leave a gap leave one afterwards.
pub proof fn law_messages_keep_gap(config: GovernorConfig, message: ConfigMessage)
    requires
        config.has_gap(),
    ensures
        after_message(config, message).has_gap(),
{
}

/// A message changes the two thresholds only.
pub proof fn law_messages_change_thresholds_only(config: GovernorConfig, message: ConfigMessage)
    ensures
        after_message(config, message).is_paused == config.is_paused,
        after_message(config, message).forced_e_pids == config.forced_e_pids,
        after_message(config, message).forced_p_pids == config.forced_p_pids,
{
}

/// A client whose connection is gone gets no further message, and the others keep
/// getting them.
pub proof fn law_gone_client_is_dropped(clients: Seq<u64>, gone: u64, other: u64)
    ensures
        !clients.filter(|h: u64| h != gone).contains(gone),
        other != gone ==> (clients.filter(|h: u64| h != gone).contains(other)
            <==> clients.contains(other)),
    decreases clients.len(),
{
    reveal(Seq::filter);
    if clients.len() > 0 {
        let rest = clients.drop_last();
        let last = clients.last();
        law_gone_client_is_dropped(rest, gone, other);
        crate::pids::lemma_push_contains(rest, last);
        crate::pids::lemma_push_contains(rest.filter(|h: u64| h != gone), last);
        assert(rest.push(last) =~= clients);
        assert(clients.contains(other) <==> rest.contains(other) || other == last);
    }
}

/// What is sent holds no NUL, so no message is cut short.
pub proof fn law_sanitized_has_no_nul(payload: Seq<char>)
    ensures
        !sanitized(payload).contains('\0'),
        sanitized(payload).len() == payload.len(),
        !payload.contains('\0') ==> sanitized(payload) == payload,
{
    assert forall|i: int| 0 <= i < payload.len() implies sanitized(payload)[i] != '\0' by {}
    if !payload.contains('\0') {
        assert forall|i: int| 0 <= i < payload.len() implies sanitized(payload)[i] == payload[i] by {
            assert(payload.contains(payload[i]));
        }
        assert(sanitized(payload) =~= payload);
    }
}

/// A message takes effect exactly if it is of the kind `config`, both of its thresholds
/// are positive, and the one for release lies below the one for throttling. It then sets
/// the two thresholds to its own; otherwise they stay as they are.
pub proof fn law_message_takes_effect(config: GovernorConfig, message: ConfigMessage)
    ensures
        ({
            let zero = Double { bits: 0 };
            let valid = {
                &&& message.kind is Some
                &&& message.kind.unwrap()@ == "config"@
                &&& zero.lt(message.throttle_threshold)
                &&& zero.lt(message.release_threshold)
                &&& message.release_threshold.lt(message.throttle_threshold)
            };
            let after = after_message(config, message);
            &&& is_accepted(message) <==> valid
            &&& valid ==> after.throttle_threshold == message.throttle_threshold
                && after.release_threshold == message.release_threshold
            &&& !valid ==> after == config
        }),
{
}

/// The same message twice has the effect of the message once, and of two messages that
/// take effect the second one counts.
pub proof fn law_latest_message_counts(
    config: GovernorConfig,
    first: ConfigMessage,
    second: ConfigMessage,
)
    ensures
        after_message(after_message(config, first), first) == after_message(config, first),
        is_accepted(second) ==> after_message(after_message(config, first), second)
            == after_message(config, second),
        !is_accepted(second) ==> after_message(after_message(config, first), second)
            == after_message(config, first),
{
}

} // verus!
