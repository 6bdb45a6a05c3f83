//! The settings of the smart home program, from the values its environment
//! gives (or does not give) for them.
use vstd::prelude::*;

use crate::text::{parse_u64, u64_value};
use crate::timing::{duration_from_millis, millis_duration};

verus! {

/// The address to use: the configured one; else, when the program starts
/// its own simulators, the local address whose number the system chooses;
/// else the default.
pub fn configured_addr(setting: Option<String>, start_simulators: bool, default_addr: &str) -> (a:
    String)
    ensures
        a@ == match setting {
            Some(value) => value@,
            None => if start_simulators {
                "127.0.0.1:0"@
            } else {
                default_addr@
            },
        },
{
    match setting {
        Some(value) => value,
        None => {
            if start_simulators {
                String::from_str("127.0.0.1:0")
            } else {
                default_addr.to_owned()
            }
        },
    }
}

/// The milliseconds to wait for a first temperature, from the setting: a
/// number above zero counts, anything else means two seconds.
pub open spec fn wait_millis(setting: Option<Seq<char>>) -> u64 {
    match setting {
        Some(value) => match u64_value(value) {
            Some(ms) => if ms > 0 {
                ms
            } else {
                2000
            },
            None => 2000,
        },
        None => 2000,
    }
}

/// How long to wait for a first temperature.
pub fn temperature_wait_timeout(setting: Option<&str>) -> (d: std::time::Duration)
    ensures
        d == millis_duration(
            wait_millis(
                match setting {
                    Some(value) => Some(value@),
                    None => None,
                },
            ),
        ),
        match setting {
            Some(value) => match u64_value(value@) {
                Some(ms) => ms > 0 ==> d == millis_duration(ms),
                None => true,
            },
            None => true,
        },
{
    let mut ms: u64 = 2000;
    if let Some(value) = setting {
        if let Some(parsed) = parse_u64(value) {
            if parsed > 0 {
                ms = parsed;
            }
        }
    }
    duration_from_millis(ms)
}

} // verus!
