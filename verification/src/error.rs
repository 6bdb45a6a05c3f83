//! What can go wrong with devices and with finding them in a home.
use vstd::prelude::*;

verus! {

/// `std::io::Error`, carried through as it is.
#[verifier::external_type_specification]
#[verifier::external_body]
pub struct ExIoError(std::io::Error);

/// Failure of a device operation.
#[derive(Debug)]
#[allow(inconsistent_fields)]
pub enum DeviceError {
    Io { operation: &'static str, source: std::io::Error },
    Protocol(String),
    InvalidConfig(String),
    NoTemperature,
    LockPoisoned(&'static str),
    Report { target: String, source: Box<DeviceError> },
}

/// The result of a device operation.
pub type DeviceResult<T> = Result<T, DeviceError>;

/// Whether `text` is the description of `e`. The description of an I/O
/// failure ends with the system's text for the failure, which is not fixed
/// here: only its `"<operation>: "` start is.
pub open spec fn describes(e: DeviceError, text: Seq<char>) -> bool
    decreases e,
{
    match e {
        DeviceError::Io { operation, source } => {
            &&& text.len() >= operation@.len() + 2
            &&& text.subrange(0, (operation@.len() + 2) as int) == operation@ + ": "@
        },
        DeviceError::Protocol(message) => text == "protocol error: "@ + message@,
        DeviceError::InvalidConfig(message) => text == "invalid config: "@ + message@,
        DeviceError::NoTemperature => text == "temperature has not been received yet"@,
        DeviceError::LockPoisoned(target) => text == "shared state lock poisoned: "@ + target@,
        DeviceError::Report { target, source } => {
            &&& text.len() >= target@.len() + 2
            &&& text.subrange(0, (target@.len() + 2) as int) == target@ + ": "@
            &&& describes(*source, text.subrange((target@.len() + 2) as int, text.len() as int))
        },
    }
}

/// Calls `Display::fmt` of `std::io::Error` through `to_string`. The text
/// comes from the system and is not stated.
#[verifier::external_body]
fn io_error_text(e: &std::io::Error) -> String {
    e.to_string()
}

/// The description of an I/O failure during `operation` whose system text
/// is `detail`: `<operation>: <detail>`.
pub fn io_description(operation: &str, detail: &str) -> (m: String)
    ensures
        m@ == operation@ + ": "@ + detail@,
{
    let mut m = String::from_str(operation);
    m.append(": ");
    m.append(detail);
    m
}

impl DeviceError {
    /// An I/O failure during `operation`.
    pub fn io(operation: &'static str, source: std::io::Error) -> (e: Self)
        ensures
            e == (DeviceError::Io { operation, source }),
    {
        DeviceError::Io { operation, source }
    }

    /// A failure while building the report of `target`.
    pub fn report(target: String, source: DeviceError) -> (e: Self)
        ensures
            e == (DeviceError::Report { target, source: Box::new(source) }),
    {
        DeviceError::Report { target, source: Box::new(source) }
    }

    /// The human-readable description of the failure.
    pub fn message(&self) -> (m: String)
        ensures
            describes(*self, m@),
        decreases self,
    {
        match self {
            DeviceError::Io { operation, source } => {
                let detail = io_error_text(source);
                let m = io_description(operation, detail.as_str());
                proof {
                    reveal_strlit(": ");
                    assert(m@.subrange(0, (operation@.len() + 2) as int) =~= operation@ + ": "@);
                }
                m
            },
            DeviceError::Protocol(message) => {
                let mut m = String::from_str("protocol error: ");
                m.append(message.as_str());
                m
            },
            DeviceError::InvalidConfig(message) => {
                let mut m = String::from_str("invalid config: ");
                m.append(message.as_str());
                m
            },
            DeviceError::NoTemperature => String::from_str("temperature has not been received yet"),
            DeviceError::LockPoisoned(target) => {
                let mut m = String::from_str("shared state lock poisoned: ");
                m.append(target);
                m
            },
            DeviceError::Report { target, source } => {
                let mut m = target.clone();
                m.append(": ");
                let ghost head = m@;
                proof {
                    reveal_strlit(": ");
                }
                let inner = source.message();
                m.append(inner.as_str());
                assert(m@.subrange(0, (target@.len() + 2) as int) =~= head);
                assert(m@.subrange((target@.len() + 2) as int, m@.len() as int) =~= inner@);
                m
            },
        }
    }
}

/// Failure to find a room or a device of a home.
#[derive(Debug)]
pub enum HomeError {
    RoomNotFound(String),
    DeviceNotFound(String),
}

impl HomeError {
    /// The human-readable description of the failure.
    pub fn message(&self) -> (m: String)
        ensures
            m@ == match *self {
                HomeError::RoomNotFound(room) => "room not found: "@ + room@,
                HomeError::DeviceNotFound(device) => "device not found: "@ + device@,
            },
    {
        match self {
            HomeError::RoomNotFound(room) => {
                let mut m = String::from_str("room not found: ");
                m.append(room.as_str());
                m
            },
            HomeError::DeviceNotFound(device) => {
                let mut m = String::from_str("device not found: ");
                m.append(device.as_str());
                m
            },
        }
    }
}

} // verus!
