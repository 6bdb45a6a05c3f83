//! The thermometer simulator's configuration: a key/value text format.
//!
//! Each line holds `key = value`; blank lines and lines that start with `#`
//! are skipped. The keys are `target_addr` (or `address`) and `period_ms`.
use vstd::prelude::*;

use crate::error::{DeviceError, DeviceResult};
use crate::text::{
    decimal_text, lines, lines_of, parse_u64, push_decimal, same_text, split_at_first,
    split_once_char, trim, trimmed, u64_value,
};
use crate::timing::{duration_from_millis, millis_duration};

verus! {

/// Where the simulator sends temperatures, and how often.
#[derive(Clone, Debug, Eq, PartialEq)]
pub struct ThermometerSimulatorConfig {
    pub target_addr: String,
    pub period: std::time::Duration,
}

/// What the lines read so far have set: the target address and the period.
pub type ConfigFields = (Option<Seq<char>>, Option<u64>);

/// The message of an error found on line `number` (counted from 1).
pub open spec fn line_error(number: nat, detail: Seq<char>) -> Seq<char> {
    "line "@ + decimal_text(number) + detail
}

/// Whether a line is skipped: blank, or a comment starting with `#`.
pub open spec fn is_skipped_line(line: Seq<char>) -> bool {
    let t = trimmed(line);
    t.len() == 0 || t[0] == '#'
}

/// The effect of one line on `fields`: the new fields, or what is wrong with
/// the line (the end of its message, after the line number).
pub open spec fn config_line_step(line: Seq<char>, fields: ConfigFields) -> Result<
    ConfigFields,
    Seq<char>,
> {
    if is_skipped_line(line) {
        Ok(fields)
    } else {
        match split_at_first(trimmed(line), '=') {
            None => Err(" must have key=value format"@),
            Some(parts) => {
                let key = trimmed(parts.0);
                let value = trimmed(parts.1);
                if key == "target_addr"@ || key == "address"@ {
                    Ok((Some(value), fields.1))
                } else if key == "period_ms"@ {
                    match u64_value(value) {
                        Some(ms) => Ok((fields.0, Some(ms))),
                        None => Err(" has invalid period_ms"@),
                    }
                } else {
                    Err(" has unknown key '"@ + key + "'"@)
                }
            },
        }
    }
}

/// The fields set by the first `n` lines, or the index (counted from 0) of
/// the first line among them that is rejected, with what is wrong with it.
pub open spec fn config_scan(lines: Seq<Seq<char>>, n: nat) -> Result<ConfigFields, (nat, Seq<char>)>
    decreases n,
{
    if n == 0 || n > lines.len() {
        Ok((None, None))
    } else {
        match config_scan(lines, (n - 1) as nat) {
            Err(failure) => Err(failure),
            Ok(fields) => match config_line_step(lines[n - 1], fields) {
                Ok(next) => Ok(next),
                Err(detail) => Err(((n - 1) as nat, detail)),
            },
        }
    }
}

/// What the lines configure: the target address and the period in
/// milliseconds; or why they are rejected, with the index of the line at
/// fault when one is.
pub open spec fn config_result(lines: Seq<Seq<char>>) -> Result<
    (Seq<char>, u64),
    (Option<nat>, Seq<char>),
> {
    match config_scan(lines, lines.len()) {
        Err(failure) => Err((Some(failure.0), failure.1)),
        Ok(fields) => match fields.0 {
            None => Err((None, "missing target_addr value"@)),
            Some(addr) => match fields.1 {
                None => Err((None, "missing period_ms value"@)),
                Some(ms) => if ms == 0 {
                    Err((None, "period_ms must be greater than zero"@))
                } else {
                    Ok((addr, ms))
                },
            },
        },
    }
}

/// The message of a rejection: a line's number (counted from 1) and what is
/// wrong with it, or the message alone.
pub open spec fn config_message(failure: (Option<nat>, Seq<char>)) -> Seq<char> {
    match failure.0 {
        Some(index) => line_error(index + 1, failure.1),
        None => failure.1,
    }
}

/// What `content` configures: the target address and the period in
/// milliseconds, or the message that rejects it.
pub open spec fn config_outcome(content: Seq<char>) -> Result<(Seq<char>, u64), Seq<char>> {
    match config_result(lines_of(content)) {
        Ok(config) => Ok(config),
        Err(failure) => Err(config_message(failure)),
    }
}

pub open spec fn text_of(o: Option<String>) -> Option<Seq<char>> {
    match o {
        Some(s) => Some(s@),
        None => None,
    }
}

proof fn lemma_scan_error_stays(lines: Seq<Seq<char>>, i: nat, j: nat)
    requires
        i <= j <= lines.len(),
        config_scan(lines, i) is Err,
    ensures
        config_scan(lines, j) == config_scan(lines, i),
    decreases j - i,
{
    if i < j {
        lemma_scan_error_stays(lines, i, (j - 1) as nat);
    }
}

/// The message `line <number><detail>`.
fn line_message(number: usize, detail: &str) -> (m: String)
    ensures
        m@ == line_error(number as nat, detail@),
{
    let mut m = String::from_str("line ");
    push_decimal(&mut m, number);
    m.append(detail);
    m
}

impl ThermometerSimulatorConfig {
    /// Reads a configuration from its text.
    pub fn parse(content: &str) -> (r: DeviceResult<Self>)
        ensures
            match config_outcome(content@) {
                Ok(config) => r matches Ok(c) && c.target_addr@ == config.0 && c.period
                    == millis_duration(config.1),
                Err(message) => r matches Err(DeviceError::InvalidConfig(m)) && m@ == message,
            },
    {
        let all = lines(content);
        let ghost ls = lines_of(content@);
        let mut target_addr: Option<String> = None;
        let mut period_ms: Option<u64> = None;
        let mut i: usize = 0;
        while i < all.len()
            invariant
                all@.len() == ls.len(),
                ls == lines_of(content@),
                forall|j: int| 0 <= j < all@.len() ==> (#[trigger] all@[j])@ == ls[j],
                i <= all@.len(),
                config_scan(ls, i as nat) == Ok::<ConfigFields, (nat, Seq<char>)>(
                    (text_of(target_addr), period_ms),
                ),
            decreases all@.len() - i,
        {
            let ghost before = (text_of(target_addr), period_ms);
            let line = trim(all[i]);
            assert(config_scan(ls, (i + 1) as nat) == match config_line_step(ls[i as int], before) {
                Ok(next) => Ok(next),
                Err(detail) => Err::<ConfigFields, (nat, Seq<char>)>((i as nat, detail)),
            });
            if line.unicode_len() != 0 && line.get_char(0) != '#' {
                match split_once_char(line, '=') {
                    None => {
                        let m = line_message(i + 1, " must have key=value format");
                        proof {
                            lemma_scan_error_stays(ls, (i + 1) as nat, ls.len());
                        }
                        return Err(DeviceError::InvalidConfig(m));
                    },
                    Some(parts) => {
                        let key = trim(parts.0);
                        let value = trim(parts.1);
                        if same_text(key, "target_addr") || same_text(key, "address") {
                            target_addr = Some(value.to_owned());
                        } else if same_text(key, "period_ms") {
                            match parse_u64(value) {
                                Some(ms) => {
                                    period_ms = Some(ms);
                                },
                                None => {
                                    let m = line_message(i + 1, " has invalid period_ms");
                                    proof {
                                        lemma_scan_error_stays(ls, (i + 1) as nat, ls.len());
                                    }
                                    return Err(DeviceError::InvalidConfig(m));
                                },
                            }
                        } else {
                            let mut m = line_message(i + 1, " has unknown key '");
                            m.append(key);
                            m.append("'");
                            proof {
                                lemma_scan_error_stays(ls, (i + 1) as nat, ls.len());
                                assert(m@ =~= line_error((i + 1) as nat, " has unknown key '"@ + key@ + "'"@));
                                assert(" has unknown key '"@ + key@ + "'"@ =~= " has unknown key '"@ + key@ + "'"@);
                            }
                            return Err(DeviceError::InvalidConfig(m));
                        }
                    },
                }
            }
            i = i + 1;
        }
        match target_addr {
            None => Err(DeviceError::InvalidConfig(String::from_str("missing target_addr value"))),
            Some(addr) => match period_ms {
                None => Err(DeviceError::InvalidConfig(String::from_str("missing period_ms value"))),
                Some(ms) => {
                    if ms == 0 {
                        Err(
                            DeviceError::InvalidConfig(
                                String::from_str("period_ms must be greater than zero"),
                            ),
                        )
                    } else {
                        Ok(ThermometerSimulatorConfig { target_addr: addr, period: duration_from_millis(ms) })
                    }
                },
            },
        }
    }
}

} // verus!
