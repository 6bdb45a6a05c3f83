//! Power sockets: their on/off state, the commands of the line protocol
//! that a network socket understands, and how a client reads the replies.
use vstd::prelude::*;

use crate::error::{DeviceError, DeviceResult};
use crate::text::{ascii_uppercase, same_text, to_ascii_uppercase, trim, trimmed};
use crate::timing::{duration_from_millis, millis_duration};

verus! {

/// Whether a socket delivers power.
#[derive(Clone, Copy, Debug, PartialEq, Eq, Structural)]
pub enum SocketState {
    On,
    Off,
}

/// The text of a state on the wire and in reports.
pub open spec fn state_label(state: SocketState) -> Seq<char> {
    match state {
        SocketState::On => "ON"@,
        SocketState::Off => "OFF"@,
    }
}

/// What a state text denotes: surrounding white space and the case of ASCII
/// letters do not count; anything but `ON` and `OFF` is rejected with a
/// message that quotes the text as it was compared.
pub open spec fn state_from_text(text: Seq<char>) -> Result<SocketState, Seq<char>> {
    let word = ascii_uppercase(trimmed(text));
    if word == "ON"@ {
        Ok(SocketState::On)
    } else if word == "OFF"@ {
        Ok(SocketState::Off)
    } else {
        Err("unknown socket state '"@ + word + "'"@)
    }
}

impl SocketState {
    /// The text of the state: `ON` or `OFF`.
    pub fn label(&self) -> (t: &'static str)
        ensures
            t@ == state_label(*self),
    {
        match self {
            SocketState::On => "ON",
            SocketState::Off => "OFF",
        }
    }

    /// Reads a state from its text.
    pub fn parse_text(value: &str) -> (r: DeviceResult<SocketState>)
        ensures
            match state_from_text(value@) {
                Ok(state) => r == Ok::<SocketState, DeviceError>(state),
                Err(message) => r matches Err(DeviceError::Protocol(m)) && m@ == message,
            },
    {
        let word = to_ascii_uppercase(trim(value));
        if same_text(word.as_str(), "ON") {
            Ok(SocketState::On)
        } else if same_text(word.as_str(), "OFF") {
            Ok(SocketState::Off)
        } else {
            let mut m = String::from_str("unknown socket state '");
            m.append(word.as_str());
            m.append("'");
            Err(DeviceError::Protocol(m))
        }
    }
}

impl std::str::FromStr for SocketState {
    type Err = DeviceError;

    fn from_str(value: &str) -> (r: Result<SocketState, DeviceError>)
        ensures
            match state_from_text(value@) {
                Ok(state) => r == Ok::<SocketState, DeviceError>(state),
                Err(message) => r matches Err(DeviceError::Protocol(m)) && m@ == message,
            },
    {
        SocketState::parse_text(value)
    }
}

/// A command of the socket line protocol.
#[derive(Clone, Copy, Debug, PartialEq, Eq, Structural)]
pub enum SocketCommand {
    TurnOn,
    TurnOff,
    QueryState,
    QueryPower,
}

/// The text of a command on the wire.
pub open spec fn command_label(command: SocketCommand) -> Seq<char> {
    match command {
        SocketCommand::TurnOn => "ON"@,
        SocketCommand::TurnOff => "OFF"@,
        SocketCommand::QueryState => "STATE"@,
        SocketCommand::QueryPower => "POWER"@,
    }
}

/// The command that a received word names, if any.
pub open spec fn command_named(word: Seq<char>) -> Option<SocketCommand> {
    if word == "ON"@ {
        Some(SocketCommand::TurnOn)
    } else if word == "OFF"@ {
        Some(SocketCommand::TurnOff)
    } else if word == "STATE"@ {
        Some(SocketCommand::QueryState)
    } else if word == "POWER"@ {
        Some(SocketCommand::QueryPower)
    } else {
        None
    }
}

impl SocketCommand {
    /// The text of the command on the wire.
    pub fn label(&self) -> (t: &'static str)
        ensures
            t@ == command_label(*self),
    {
        match self {
            SocketCommand::TurnOn => "ON",
            SocketCommand::TurnOff => "OFF",
            SocketCommand::QueryState => "STATE",
            SocketCommand::QueryPower => "POWER",
        }
    }

    /// The command named by `word`, compared exactly.
    pub fn named(word: &str) -> (c: Option<SocketCommand>)
        ensures
            c == command_named(word@),
    {
        if same_text(word, "ON") {
            Some(SocketCommand::TurnOn)
        } else if same_text(word, "OFF") {
            Some(SocketCommand::TurnOff)
        } else if same_text(word, "STATE") {
            Some(SocketCommand::QueryState)
        } else if same_text(word, "POWER") {
            Some(SocketCommand::QueryPower)
        } else {
            None
        }
    }
}

/// What a command that expects `OK` makes of the reply to it: the reply's
/// failure is passed on, `OK` is success, and any other text is a protocol
/// error that names the command and quotes the reply.
pub open spec fn ok_reply_accepted(command: Seq<char>, reply: DeviceResult<String>, r: DeviceResult<()>) -> bool {
    match reply {
        Err(e) => r == Err::<(), DeviceError>(e),
        Ok(text) => if text@ == "OK"@ {
            r is Ok
        } else {
            r matches Err(DeviceError::Protocol(m)) && m@ == "command "@ + command + " returned '"@
                + text@ + "'"@
        },
    }
}

/// A socket reached over TCP, one command per connection.
#[derive(Clone, Debug)]
pub struct NetworkPowerSocket {
    address: String,
    timeout: std::time::Duration,
}

impl NetworkPowerSocket {
    /// The address the socket is reached at.
    pub closed spec fn address_text(&self) -> Seq<char> {
        self.address@
    }

    /// How long a read or a write on the connection may take.
    pub closed spec fn timeout_span(&self) -> std::time::Duration {
        self.timeout
    }

    /// A socket at `address`, with a timeout of two seconds.
    pub fn new(address: String) -> (s: Self)
        ensures
            s.address_text() == address@,
            s.timeout_span() == millis_duration(2000),
    {
        NetworkPowerSocket { address, timeout: duration_from_millis(2000) }
    }

    /// A socket at `address`, with the given timeout.
    pub fn with_timeout(address: String, timeout: std::time::Duration) -> (s: Self)
        ensures
            s.address_text() == address@,
            s.timeout_span() == timeout,
    {
        NetworkPowerSocket { address, timeout }
    }

    /// The address the socket is reached at.
    pub fn address(&self) -> (a: &str)
        ensures
            a@ == self.address_text(),
    {
        self.address.as_str()
    }

    /// The timeout of a read or a write on the connection.
    pub fn timeout(&self) -> (t: std::time::Duration)
        ensures
            t == self.timeout_span(),
    {
        self.timeout
    }

    /// The reply to a command, from the line read back: an empty read is a
    /// protocol error, a line is the reply without surrounding white space.
    pub fn reply_from_line(bytes_read: usize, line: String) -> (r: DeviceResult<String>)
        ensures
            bytes_read == 0 ==> (r matches Err(DeviceError::Protocol(m)) && m@
                == "empty socket response"@),
            bytes_read != 0 ==> (r matches Ok(text) && text@ == trimmed(line@)),
    {
        if bytes_read == 0 {
            return Err(DeviceError::Protocol(String::from_str("empty socket response")));
        }
        Ok(trim(line.as_str()).to_owned())
    }

    /// What a command that expects `OK` makes of the reply to it.
    pub fn expect_ok(command: &'static str, reply: DeviceResult<String>) -> (r: DeviceResult<()>)
        ensures
            ok_reply_accepted(command@, reply, r),
    {
        match reply {
            Err(e) => Err(e),
            Ok(text) => {
                if same_text(text.as_str(), "OK") {
                    Ok(())
                } else {
                    let mut m = String::from_str("command ");
                    m.append(command);
                    m.append(" returned '");
                    m.append(text.as_str());
                    m.append("'");
                    Err(DeviceError::Protocol(m))
                }
            },
        }
    }

    /// The outcome of switching the socket on, from the reply to `ON`.
    pub fn turn_on(&self, reply: DeviceResult<String>) -> (r: DeviceResult<()>)
        ensures
            ok_reply_accepted("ON"@, reply, r),
    {
        Self::expect_ok(SocketCommand::TurnOn.label(), reply)
    }

    /// The outcome of switching the socket off, from the reply to `OFF`.
    pub fn turn_off(&self, reply: DeviceResult<String>) -> (r: DeviceResult<()>)
        ensures
            ok_reply_accepted("OFF"@, reply, r),
    {
        Self::expect_ok(SocketCommand::TurnOff.label(), reply)
    }

    /// The socket's state, from the reply to `STATE`.
    pub fn get_state(&self, reply: DeviceResult<String>) -> (r: DeviceResult<SocketState>)
        ensures
            match reply {
                Err(e) => r == Err::<SocketState, DeviceError>(e),
                Ok(text) => match state_from_text(text@) {
                    Ok(state) => r == Ok::<SocketState, DeviceError>(state),
                    Err(message) => r matches Err(DeviceError::Protocol(m)) && m@ == message,
                },
            },
    {
        match reply {
            Err(e) => Err(e),
            Ok(text) => SocketState::parse_text(text.as_str()),
        }
    }
}

} // verus!
