//! The decisions of going online: which relay to use, whether to host or
//! join, and which LAN world to share.
use crate::central::RelayInfo;
use crate::lan::LanServer;
use vstd::prelude::*;
use vstd::string::StringSliceAdditionalSpecFns;

verus! {

/// How the user picked a relay.
#[derive(Debug, PartialEq, Eq)]
pub enum RelaySelection {
    /// `__auto__` or nothing: the first relay that the central server lists.
    Auto,
    /// An address with a `:`: that relay, not looked up.
    Custom,
    /// Anything else: the listed relay with that id.
    ById,
}

/// Reads the user's relay choice.
pub fn relay_selection(selected: &str) -> (sel: RelaySelection)
    ensures
        selected@ == "__auto__"@ || selected@.len() == 0 ==> sel == RelaySelection::Auto,
        !(selected@ == "__auto__"@ || selected@.len() == 0) ==> (if selected.spec_bytes().contains(
            0x3Au8,
        ) {
            sel == RelaySelection::Custom
        } else {
            sel == RelaySelection::ById
        }),
{
    let chosen = selected.to_owned();
    let auto = "__auto__".to_owned();
    if chosen == auto || selected.is_empty() {
        return RelaySelection::Auto;
    }
    let bytes = selected.as_bytes();
    let mut i: usize = 0;
    while i < bytes.len()
        invariant
            i <= bytes@.len(),
            bytes@ == selected.spec_bytes(),
            !(selected@ == "__auto__"@ || selected@.len() == 0),
            forall|j: int| 0 <= j < i ==> bytes@[j] != 0x3Au8,
        decreases bytes@.len() - i,
    {
        if bytes[i] == 0x3A {
            return RelaySelection::Custom;
        }
        i = i + 1;
    }
    RelaySelection::ById
}

/// The listed relay to use: the first one for `Auto`, the first with id
/// `selected` for `ById`; `None` when there is none (or for `Custom`).
pub fn listed_relay(relays: &[RelayInfo], selection: &RelaySelection, selected: &str) -> (res: Option<usize>)
    ensures
        match *selection {
            RelaySelection::Auto => if relays@.len() > 0 {
                res == Some(0usize)
            } else {
                res is None
            },
            RelaySelection::Custom => res is None,
            RelaySelection::ById => match res {
                Some(i) => i < relays@.len() && relays@[i as int].id@ == selected@ && forall|j: int|
                    0 <= j < i ==> relays@[j].id@ != selected@,
                None => forall|j: int| 0 <= j < relays@.len() ==> relays@[j].id@ != selected@,
            },
        },
{
    match selection {
        RelaySelection::Auto => {
            if relays.len() > 0 {
                Some(0)
            } else {
                None
            }
        },
        RelaySelection::Custom => None,
        RelaySelection::ById => {
            let wanted = selected.to_owned();
            let mut i: usize = 0;
            while i < relays.len()
                invariant
                    i <= relays@.len(),
                    wanted@ == selected@,
                    *selection is ById,
                    forall|j: int| 0 <= j < i ==> relays@[j].id@ != selected@,
                decreases relays@.len() - i,
            {
                if relays[i].id == wanted {
                    return Some(i);
                }
                i = i + 1;
            }
            None
        },
    }
}

/// Whether this client hosts the room: it does when the room does not exist yet.
pub fn hosts_room(room_exists: bool) -> (host: bool)
    ensures
        host == !room_exists,
{
    !room_exists
}

/// The LAN world to share: the port and MOTD of the first scanned server,
/// `None` when there is none or its port is 0.
pub fn lan_world(servers: &[LanServer]) -> (res: Option<(u16, String)>)
    ensures
        match res {
            Some((port, motd)) => servers@.len() > 0 && servers@[0].port != 0 && port
                == servers@[0].port && motd@ == servers@[0].motd@,
            None => servers@.len() == 0 || servers@[0].port == 0,
        },
{
    if servers.len() == 0 || servers[0].port == 0 {
        return None;
    }
    Some((servers[0].port, servers[0].motd.clone()))
}

/// The next step of the search for a free local port, which tries one port
/// after another up to 65535.
#[derive(Debug, PartialEq, Eq)]
pub enum PortProbe {
    /// The port could be bound: listen on it.
    Listen(u16),
    /// The port was taken: try this one next.
    Try(u16),
    /// The port was taken and it was the last one: no port is free.
    GiveUp,
}

/// Decides the port search's next step after trying to bind `port`.
pub fn probe_step(port: u16, bind_ok: bool) -> (step: PortProbe)
    ensures
        bind_ok ==> step == PortProbe::Listen(port),
        !bind_ok && port < 65535 ==> step == PortProbe::Try((port + 1) as u16),
        !bind_ok && port == 65535 ==> step == PortProbe::GiveUp,
{
    if bind_ok {
        PortProbe::Listen(port)
    } else if port < 65535 {
        PortProbe::Try(port + 1)
    } else {
        PortProbe::GiveUp
    }
}

/// The text of the string field `key` that `serde_json` reads from a JSON
/// object, `None` when the text is not JSON or has no string field `key`.
pub uninterp spec fn json_field(text: Seq<char>, key: Seq<char>) -> Option<Seq<char>>;

/// Calls `serde_json::from_str::<serde_json::Value>` and takes the field
/// `key` when it is a string. Trusted: the result is `json_field` of the text
/// and the key; what the crate's parser accepts is not stated.
#[verifier::external_body]
fn json_string_field(text: &str, key: &str) -> (m: Option<String>)
    ensures
        match m {
            Some(t) => json_field(text@, key@) == Some(t@),
            None => json_field(text@, key@) is None,
        },
{
    match serde_json::from_str::<serde_json::Value>(text) {
        Ok(v) => v.get(key).and_then(|x| x.as_str()).map(|x| x.to_string()),
        Err(_) => None,
    }
}

/// The text shown for a failed lookup whose error reads `error_text`, given
/// the `message` found in it: that message, or the error text itself.
pub fn shown_error(error_text: &str, message: Option<String>) -> (shown: String)
    ensures
        shown@ == match message {
            Some(m) => m@,
            None => error_text@,
        },
{
    match message {
        Some(m) => m,
        None => error_text.to_owned(),
    }
}

/// The text shown for a failed IP-information lookup: the `message` of the
/// error when the error reads as JSON with one, otherwise the error text.
pub fn ip_info_error_text(error_text: &str) -> (shown: String)
    ensures
        shown@ == match json_field(error_text@, "message"@) {
            Some(m) => m,
            None => error_text@,
        },
{
    let message = json_string_field(error_text, "message");
    shown_error(error_text, message)
}

} // verus!
