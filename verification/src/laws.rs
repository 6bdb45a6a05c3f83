//! What holds across the library's operations: reading back what was
//! written into rooms and homes, what their reports list, the socket
//! protocol's round trips and command handling, the configuration format's
//! rules, and the wait setting.
use vstd::prelude::*;

use crate::error::{DeviceError, DeviceResult};
use crate::home::{
    assembles_home_report, home_text, indented_lines, is_home_report, room_block, room_target,
    SmartHome,
};
use crate::naming::names_of;
use crate::report::{all_ok, fails_first_at, ok_text, wraps_failure, Report};
use crate::room::{assembles_room_report, device_target, is_room_report, room_text, SmartRoom};
use crate::simulators::socket::{
    command_word, line_end, received_text, reply_line, reply_text, run_commands,
    state_after_command,
};
use crate::simulators::thermometer::{
    config_line_step, config_outcome, config_result, config_scan, is_skipped_line, ConfigFields,
};
use crate::smart_device::socket::{
    command_label, command_named, ok_reply_accepted, state_from_text, state_label, SocketCommand,
    SocketState,
};
use crate::settings::wait_millis;
use crate::text::{
    ascii_uppercase, decimal_text, decimal_value, digit_char, digit_value, is_ascii_digit,
    lines_of, split_at_first, trim_end, trim_start, trimmed, u64_value,
};

verus! {

/// After `add_device(key, device)`, `get_device(key)` gives `device`.
pub proof fn law_room_get_after_add<D>(room: SmartRoom<D>, key: Seq<char>, device: D)
    ensures
        room.device_map().insert(key, device).dom().contains(key),
        room.device_map().insert(key, device)[key] == device,
{
}

/// After `remove_device(key)`, `get_device(key)` gives nothing.
pub proof fn law_room_get_after_remove<D>(room: SmartRoom<D>, key: Seq<char>)
    ensures
        !room.device_map().remove(key).dom().contains(key),
{
}

/// Adding or removing a device under one name leaves the device under any
/// other name as it was.
pub proof fn law_room_other_names_kept<D>(room: SmartRoom<D>, key: Seq<char>, other: Seq<char>, device: D)
    requires
        key != other,
    ensures
        room.device_map().insert(key, device).dom().contains(other) == room.device_map().dom().contains(
            other,
        ),
        room.device_map().remove(key).dom().contains(other) == room.device_map().dom().contains(
            other,
        ),
        room.device_map().dom().contains(other) ==> {
            &&& room.device_map().insert(key, device)[other] == room.device_map()[other]
            &&& room.device_map().remove(key)[other] == room.device_map()[other]
        },
{
}

/// After `add_room(key, room)`, `get_device(key, name)` finds every device of
/// `room`, and nothing else, under the room's name.
pub proof fn law_home_device_after_add_room<D>(
    home: SmartHome<D>,
    key: Seq<char>,
    room: SmartRoom<D>,
    name: Seq<char>,
)
    ensures
        home.room_map().insert(key, room).dom().contains(key),
        home.room_map().insert(key, room)[key].device_map().dom().contains(name)
            == room.device_map().dom().contains(name),
        room.device_map().dom().contains(name) ==> home.room_map().insert(key, room)[key].device_map()[name]
            == room.device_map()[name],
{
}

proof fn lemma_plain_word(s: Seq<char>)
    requires
        s.len() > 0,
        forall|i: int| 0 <= i < s.len() ==> 'A' <= #[trigger] s[i] && s[i] <= 'Z',
    ensures
        trimmed(s) == s,
        ascii_uppercase(s) == s,
        command_word(s) == s,
{
    assert(trim_start(s) == s);
    assert(trim_end(s) == s);
    assert(ascii_uppercase(s) =~= s);
}

/// A state read back from its own text is the state itself.
pub proof fn law_state_text_round_trip(state: SocketState)
    ensures
        state_from_text(state_label(state)) == Ok::<SocketState, Seq<char>>(state),
{
    reveal_strlit("ON");
    reveal_strlit("OFF");
    lemma_plain_word(state_label(state));
}

/// The simulator recognises every command a client sends.
pub proof fn law_command_recognised(command: SocketCommand)
    ensures
        command_named(command_word(command_label(command))) == Some(command),
{
    reveal_strlit("ON");
    reveal_strlit("OFF");
    reveal_strlit("STATE");
    reveal_strlit("POWER");
    lemma_plain_word(command_label(command));
}

/// Whatever its state, a simulated socket acknowledges a switch command with
/// `OK`, which the client takes as success, and is then in the state the
/// command names; a later state query reads that state back.
pub proof fn law_switch_then_query(state: SocketState, on: bool)
    ensures
        ({
            let command = if on {
                SocketCommand::TurnOn
            } else {
                SocketCommand::TurnOff
            };
            let target = if on {
                SocketState::On
            } else {
                SocketState::Off
            };
            &&& reply_line(state, command_label(command)) == Some("OK"@)
            &&& state_after_command(state, command_label(command)) == target
            &&& reply_line(target, command_label(SocketCommand::QueryState)) == Some(
                state_label(target),
            )
            &&& state_from_text(state_label(target)) == Ok::<SocketState, Seq<char>>(target)
        }),
{
    law_command_recognised(SocketCommand::TurnOn);
    law_command_recognised(SocketCommand::TurnOff);
    law_command_recognised(SocketCommand::QueryState);
    law_state_text_round_trip(SocketState::On);
    law_state_text_round_trip(SocketState::Off);
}

/// A command that expects `OK` succeeds exactly when the reply is `OK`.
pub proof fn law_ok_reply_succeeds(command: Seq<char>, reply: DeviceResult<String>, r: DeviceResult<()>)
    requires
        ok_reply_accepted(command, reply, r),
    ensures
        r is Ok <==> (reply matches Ok(text) && text@ == "OK"@),
{
}

/// Blank lines and lines that start with `#` change nothing.
pub proof fn law_config_skips_comments(line: Seq<char>, fields: ConfigFields)
    requires
        is_skipped_line(line),
    ensures
        config_line_step(line, fields) == Ok::<ConfigFields, Seq<char>>(fields),
{
}

/// An accepted configuration has a period above zero.
pub proof fn law_config_period_positive(content: Seq<char>)
    ensures
        config_outcome(content) matches Ok(config) ==> config.1 > 0,
{
}

/// Whether `longer` is `lines` with skipped lines put in anywhere: line `j`
/// of `lines` stands at `at[j]` of `longer`, in the same order, and every
/// other line of `longer` is blank or a comment.
pub open spec fn with_skipped_lines_inserted(
    lines: Seq<Seq<char>>,
    longer: Seq<Seq<char>>,
    at: Seq<int>,
) -> bool {
    &&& at.len() == lines.len()
    &&& forall|j: int| 0 <= j < at.len() ==> 0 <= #[trigger] at[j] < longer.len() && longer[at[j]] == lines[j]
    &&& forall|j: int, k: int| 0 <= j < k < at.len() ==> #[trigger] at[j] < #[trigger] at[k]
    &&& forall|i: int|
        0 <= i < longer.len() && (forall|j: int| 0 <= j < at.len() ==> at[j] != i) ==> is_skipped_line(
            #[trigger] longer[i],
        )
}

/// Skipped lines leave the scan as it was.
proof fn lemma_scan_over_skipped(lines: Seq<Seq<char>>, a: nat, b: nat)
    requires
        a <= b <= lines.len(),
        forall|i: int| a <= i < b ==> is_skipped_line(#[trigger] lines[i]),
    ensures
        config_scan(lines, b) == config_scan(lines, a),
    decreases b - a,
{
    if a < b {
        lemma_scan_over_skipped(lines, a, (b - 1) as nat);
        assert(is_skipped_line(lines[b - 1]));
    }
}

/// Where the scan of `longer` stands once it has passed line `j - 1` of
/// `lines`.
spec fn passed(at: Seq<int>, j: int) -> int {
    if j == 0 {
        0
    } else {
        at[j - 1] + 1
    }
}

proof fn lemma_scan_with_inserted(lines: Seq<Seq<char>>, longer: Seq<Seq<char>>, at: Seq<int>, j: nat)
    requires
        with_skipped_lines_inserted(lines, longer, at),
        j <= lines.len(),
    ensures
        0 <= passed(at, j as int) <= longer.len(),
        j < lines.len() ==> passed(at, j as int) <= at[j as int],
        match config_scan(lines, j) {
            Ok(fields) => config_scan(longer, passed(at, j as int) as nat) == Ok::<
                ConfigFields,
                (nat, Seq<char>),
            >(fields),
            Err(failure) => failure.0 < j && config_scan(longer, passed(at, j as int) as nat) == Err::<
                ConfigFields,
                (nat, Seq<char>),
            >((at[failure.0 as int] as nat, failure.1)),
        },
    decreases j,
{
    if j > 0 {
        let i = (j - 1) as nat;
        lemma_scan_with_inserted(lines, longer, at, i);
        let from = passed(at, i as int);
        let to = at[i as int];
        if i > 0 {
            assert(at[i - 1] < at[i as int]);
        }
        assert forall|k: int| from <= k < to implies is_skipped_line(#[trigger] longer[k]) by {
            assert forall|m: int| 0 <= m < at.len() implies at[m] != k by {
                if m < i {
                    assert(at[m] < at[i - 1] || m == i - 1);
                    if m < i - 1 {
                        assert(at[m] < at[i - 1]);
                    }
                } else if m > i {
                    assert(at[i as int] < at[m]);
                }
            }
        }
        lemma_scan_over_skipped(longer, from as nat, to as nat);
        assert(longer[to] == lines[i as int]);
        if j < lines.len() {
            assert(at[i as int] < at[j as int]);
        }
    }
}

/// Putting blank or comment lines anywhere into a configuration changes
/// nothing but the line numbers in messages: what is accepted stays
/// accepted with the same values, and a rejected line is named by its new
/// position.
pub proof fn law_config_ignores_inserted_skipped_lines(
    content: Seq<char>,
    longer: Seq<char>,
    at: Seq<int>,
)
    requires
        with_skipped_lines_inserted(lines_of(content), lines_of(longer), at),
    ensures
        match config_result(lines_of(content)) {
            Ok(config) => config_result(lines_of(longer)) == Ok::<
                (Seq<char>, u64),
                (Option<nat>, Seq<char>),
            >(config) && config_outcome(longer) == config_outcome(content),
            Err(failure) => match failure.0 {
                None => config_result(lines_of(longer)) == Err::<
                    (Seq<char>, u64),
                    (Option<nat>, Seq<char>),
                >(failure) && config_outcome(longer) == config_outcome(content),
                Some(j) => config_result(lines_of(longer)) == Err::<
                    (Seq<char>, u64),
                    (Option<nat>, Seq<char>),
                >((Some(at[j as int] as nat), failure.1)),
            },
        },
{
    let l1 = lines_of(content);
    let l2 = lines_of(longer);
    lemma_scan_with_inserted(l1, l2, at, l1.len());
    let end = passed(at, l1.len() as int);
    assert forall|k: int| end <= k < l2.len() implies is_skipped_line(#[trigger] l2[k]) by {
        assert forall|m: int| 0 <= m < at.len() implies at[m] != k by {
            if m < at.len() - 1 {
                assert(at[m] < at[at.len() - 1]);
            }
        }
    }
    lemma_scan_over_skipped(l2, end as nat, l2.len());
}

/// Whether `line` sets the target address to `addr`: a line that is not
/// blank or a comment, whose key is `target_addr` or `address` and whose
/// value is `addr`.
pub open spec fn sets_address(line: Seq<char>, addr: Seq<char>) -> bool {
    &&& !is_skipped_line(line)
    &&& split_at_first(trimmed(line), '=') matches Some(parts)
    &&& trimmed(parts.0) == "target_addr"@ || trimmed(parts.0) == "address"@
    &&& trimmed(parts.1) == addr
}

/// Whether `line` sets the period to `ms` milliseconds: a line that is not
/// blank or a comment, whose key is `period_ms` and whose value reads as
/// `ms`.
pub open spec fn sets_period(line: Seq<char>, ms: u64) -> bool {
    &&& !is_skipped_line(line)
    &&& split_at_first(trimmed(line), '=') matches Some(parts)
    &&& trimmed(parts.0) == "period_ms"@
    &&& u64_value(trimmed(parts.1)) == Some(ms)
}

/// The two keys are independent: a line that sets the address leaves the
/// period read so far as it was, and a line that sets the period leaves the
/// address as it was.
pub proof fn law_config_keys_independent(
    line: Seq<char>,
    fields: ConfigFields,
    addr: Seq<char>,
    ms: u64,
)
    ensures
        sets_address(line, addr) ==> config_line_step(line, fields) == Ok::<
            ConfigFields,
            Seq<char>,
        >((Some(addr), fields.1)),
        sets_period(line, ms) ==> config_line_step(line, fields) == Ok::<ConfigFields, Seq<char>>(
            (fields.0, Some(ms)),
        ),
        !(sets_address(line, addr) && sets_period(line, ms)),
{
    reveal_strlit("target_addr");
    reveal_strlit("address");
    reveal_strlit("period_ms");
    assert("period_ms"@ != "target_addr"@) by {
        assert("period_ms"@.len() != "target_addr"@.len());
    }
    assert("period_ms"@ != "address"@) by {
        assert("period_ms"@.len() != "address"@.len());
    }
}

/// The scan of a configuration made of one address line at `a`, one period
/// line at `p`, and skipped lines, after its first `n` lines.
proof fn lemma_scan_two_keys(
    lines: Seq<Seq<char>>,
    a: int,
    p: int,
    addr: Seq<char>,
    ms: u64,
    n: nat,
)
    requires
        0 <= a < lines.len(),
        0 <= p < lines.len(),
        a != p,
        sets_address(lines[a], addr),
        sets_period(lines[p], ms),
        forall|k: int|
            0 <= k < lines.len() && k != a && k != p ==> is_skipped_line(#[trigger] lines[k]),
        n <= lines.len(),
    ensures
        config_scan(lines, n) == Ok::<ConfigFields, (nat, Seq<char>)>(
            (
                if a < n {
                    Some(addr)
                } else {
                    None
                },
                if p < n {
                    Some(ms)
                } else {
                    None
                },
            ),
        ),
    decreases n,
{
    if n > 0 {
        let k = n - 1;
        lemma_scan_two_keys(lines, a, p, addr, ms, k as nat);
        let before: ConfigFields = (
            if a < k {
                Some(addr)
            } else {
                None
            },
            if p < k {
                Some(ms)
            } else {
                None
            },
        );
        law_config_keys_independent(lines[k], before, addr, ms);
        if k != a && k != p {
            assert(is_skipped_line(lines[k]));
        }
    }
}

/// The order of the keys does not matter: a configuration of one address
/// line and one period line above zero, in either order, among any blank
/// and comment lines, configures that address and that period.
pub proof fn law_config_keys_in_any_order(
    content: Seq<char>,
    a: int,
    p: int,
    addr: Seq<char>,
    ms: u64,
)
    requires
        0 <= a < lines_of(content).len(),
        0 <= p < lines_of(content).len(),
        sets_address(lines_of(content)[a], addr),
        sets_period(lines_of(content)[p], ms),
        ms > 0,
        forall|k: int|
            0 <= k < lines_of(content).len() && k != a && k != p ==> is_skipped_line(
                #[trigger] lines_of(content)[k],
            ),
    ensures
        config_result(lines_of(content)) == Ok::<(Seq<char>, u64), (Option<nat>, Seq<char>)>(
            (addr, ms),
        ),
        config_outcome(content) == Ok::<(Seq<char>, u64), Seq<char>>((addr, ms)),
{
    let ls = lines_of(content);
    law_config_keys_independent(ls[a], (None, None), addr, ms);
    lemma_scan_two_keys(ls, a, p, addr, ms, ls.len());
}

/// The lines of a room's part in a home report: each line of the room's
/// report, indented under the room's heading.
pub open spec fn indented_items(lines: Seq<Seq<char>>) -> Seq<Seq<char>> {
    Seq::new(lines.len(), |j: int| "    - "@ + lines[j] + "\n"@)
}

/// The blocks of a home report, one per room in order: the room's heading,
/// then the lines of its report, indented.
pub open spec fn room_blocks(names: Seq<Seq<char>>, outcomes: Seq<DeviceResult<String>>) -> Seq<
    Seq<char>,
> {
    Seq::new(
        names.len(),
        |k: int|
            " - Room '"@ + names[k] + "':\n"@ + indented_items(lines_of(ok_text(outcomes[k]))).flatten(),
    )
}

/// Whether `text` lists the rooms named `names`, which reported `outcomes`:
/// every report succeeded, and the text is the heading followed by the
/// block of each room, in order.
pub open spec fn lists_rooms(
    text: Seq<char>,
    names: Seq<Seq<char>>,
    outcomes: Seq<DeviceResult<String>>,
) -> bool {
    &&& outcomes.len() == names.len()
    &&& all_ok(outcomes, names.len() as int)
    &&& text == "Home:\n"@ + room_blocks(names, outcomes).flatten()
}

proof fn lemma_indented_lines_items(lines: Seq<Seq<char>>, n: nat)
    requires
        n <= lines.len(),
    ensures
        indented_lines(lines, n) == indented_items(lines).take(n as int).flatten(),
    decreases n,
{
    let items = indented_items(lines);
    if n == 0 {
        assert(items.take(0) =~= Seq::<Seq<char>>::empty());
    } else {
        lemma_indented_lines_items(lines, (n - 1) as nat);
        assert(items.take(n as int) =~= items.take(n - 1).push(items[n - 1]));
        items.take(n - 1).lemma_flatten_push(items[n - 1]);
        assert(indented_lines(lines, (n - 1) as nat) + "    - "@ + lines[n - 1] + "\n"@
            =~= indented_lines(lines, (n - 1) as nat) + ("    - "@ + lines[n - 1] + "\n"@));
    }
}

proof fn lemma_home_text_blocks(
    names: Seq<Seq<char>>,
    outcomes: Seq<DeviceResult<String>>,
    n: nat,
)
    requires
        n <= names.len(),
    ensures
        home_text(names, outcomes, n) == "Home:\n"@ + room_blocks(names, outcomes).take(
            n as int,
        ).flatten(),
    decreases n,
{
    let blocks = room_blocks(names, outcomes);
    if n == 0 {
        assert(blocks.take(0) =~= Seq::<Seq<char>>::empty());
        assert("Home:\n"@ + Seq::<char>::empty() =~= "Home:\n"@);
    } else {
        lemma_home_text_blocks(names, outcomes, (n - 1) as nat);
        let ls = lines_of(ok_text(outcomes[n - 1]));
        lemma_indented_lines_items(ls, ls.len());
        assert(indented_items(ls).take(ls.len() as int) =~= indented_items(ls));
        assert(room_block(names[n - 1], ok_text(outcomes[n - 1])) == blocks[n - 1]);
        assert(blocks.take(n as int) =~= blocks.take(n - 1).push(blocks[n - 1]));
        blocks.take(n - 1).lemma_flatten_push(blocks[n - 1]);
        assert(("Home:\n"@ + blocks.take(n - 1).flatten()) + blocks[n - 1] =~= "Home:\n"@ + (
        blocks.take(n - 1).flatten() + blocks[n - 1]));
    }
}

/// When not all of the first `n` reports succeeded, one of them is the
/// first that failed.
proof fn lemma_first_failure(outcomes: Seq<DeviceResult<String>>, n: int)
    requires
        0 <= n <= outcomes.len(),
        !all_ok(outcomes, n),
    ensures
        exists|k: int| #[trigger] fails_first_at(outcomes, k),
    decreases n,
{
    if all_ok(outcomes, n - 1) {
        assert(fails_first_at(outcomes, n - 1));
    } else {
        lemma_first_failure(outcomes, n - 1);
    }
}

/// A home's successful report lists every room of the home: it is the
/// heading followed by the block of each room, in the home's order, each
/// block made of the room's name and the lines of a report that room gave.
pub proof fn law_home_report_lists_every_room<D: Report>(home: SmartHome<D>, text: String)
    requires
        is_home_report(home, Ok::<String, DeviceError>(text)),
    ensures
        exists|outcomes: Seq<DeviceResult<String>>|
            #[trigger] lists_rooms(text@, names_of(home.entries()), outcomes) && forall|k: int|
                0 <= k < outcomes.len() ==> is_room_report(
                    home.entries()[k].1,
                    #[trigger] outcomes[k],
                ),
{
    let names = names_of(home.entries());
    let r = Ok::<String, DeviceError>(text);
    let outcomes = choose|outcomes: Seq<DeviceResult<String>>| #[trigger]
        assembles_home_report(names, outcomes, r) && forall|k: int|
            0 <= k < outcomes.len() && all_ok(outcomes, k) ==> is_room_report(
                home.entries()[k].1,
                #[trigger] outcomes[k],
            );
    if !all_ok(outcomes, names.len() as int) {
        lemma_first_failure(outcomes, names.len() as int);
        let k = choose|k: int| #[trigger] fails_first_at(outcomes, k);
        assert(wraps_failure(r, room_target(names[k]), outcomes[k]));
    }
    lemma_home_text_blocks(names, outcomes, names.len());
    assert(room_blocks(names, outcomes).take(names.len() as int) =~= room_blocks(names, outcomes));
    assert forall|k: int| 0 <= k < outcomes.len() implies is_room_report(
        home.entries()[k].1,
        #[trigger] outcomes[k],
    ) by {
        assert(all_ok(outcomes, k));
    }
    assert(lists_rooms(text@, names, outcomes));
}

/// The lines of a room report, one per device in order: the device's name
/// and the text of its report.
pub open spec fn device_lines(names: Seq<Seq<char>>, outcomes: Seq<DeviceResult<String>>) -> Seq<
    Seq<char>,
> {
    Seq::new(
        names.len(),
        |k: int| "Device '"@ + names[k] + "': "@ + ok_text(outcomes[k]) + "\n"@,
    )
}

/// Whether `text` lists the devices named `names`, which reported
/// `outcomes`: every report succeeded, and the text is the line of each
/// device, in order.
pub open spec fn lists_devices(
    text: Seq<char>,
    names: Seq<Seq<char>>,
    outcomes: Seq<DeviceResult<String>>,
) -> bool {
    &&& outcomes.len() == names.len()
    &&& all_ok(outcomes, names.len() as int)
    &&& text == device_lines(names, outcomes).flatten()
}

proof fn lemma_room_text_lines(
    names: Seq<Seq<char>>,
    outcomes: Seq<DeviceResult<String>>,
    n: nat,
)
    requires
        n <= names.len(),
    ensures
        room_text(names, outcomes, n) == device_lines(names, outcomes).take(n as int).flatten(),
    decreases n,
{
    let items = device_lines(names, outcomes);
    if n == 0 {
        assert(items.take(0) =~= Seq::<Seq<char>>::empty());
    } else {
        lemma_room_text_lines(names, outcomes, (n - 1) as nat);
        assert(items.take(n as int) =~= items.take(n - 1).push(items[n - 1]));
        items.take(n - 1).lemma_flatten_push(items[n - 1]);
    }
}

/// A room's successful report lists every device of the room: one line
/// per device, in the room's order, each with the device's name and the
/// text of a report that device gave.
pub proof fn law_room_report_lists_every_device<D: Report>(room: SmartRoom<D>, text: String)
    requires
        is_room_report(room, Ok::<String, DeviceError>(text)),
    ensures
        exists|outcomes: Seq<DeviceResult<String>>|
            #[trigger] lists_devices(text@, names_of(room.entries()), outcomes) && forall|k: int|
                0 <= k < outcomes.len() ==> call_ensures(
                    D::report,
                    (&room.entries()[k].1,),
                    #[trigger] outcomes[k],
                ),
{
    let names = names_of(room.entries());
    let r = Ok::<String, DeviceError>(text);
    let outcomes = choose|outcomes: Seq<DeviceResult<String>>| #[trigger]
        assembles_room_report(names, outcomes, r) && forall|k: int|
            0 <= k < outcomes.len() && all_ok(outcomes, k) ==> call_ensures(
                D::report,
                (&room.entries()[k].1,),
                #[trigger] outcomes[k],
            );
    if !all_ok(outcomes, names.len() as int) {
        lemma_first_failure(outcomes, names.len() as int);
        let k = choose|k: int| #[trigger] fails_first_at(outcomes, k);
        assert(wraps_failure(r, device_target(names[k]), outcomes[k]));
    }
    lemma_room_text_lines(names, outcomes, names.len());
    assert(device_lines(names, outcomes).take(names.len() as int) =~= device_lines(names, outcomes));
    assert forall|k: int| 0 <= k < outcomes.len() implies call_ensures(
        D::report,
        (&room.entries()[k].1,),
        #[trigger] outcomes[k],
    ) by {
        assert(all_ok(outcomes, k));
    }
    assert(lists_devices(text@, names, outcomes));
}

/// Where the first `\n` of `bytes` stands: at the index `line_end` gives,
/// or nowhere when that is -1.
proof fn lemma_line_end_place(bytes: Seq<u8>)
    ensures
        -1 <= line_end(bytes) < bytes.len(),
        line_end(bytes) >= 0 ==> bytes[line_end(bytes)] == 10u8,
        line_end(bytes) < 0 ==> !bytes.contains(10u8),
    decreases bytes.len(),
{
    if bytes.len() > 0 {
        lemma_line_end_place(bytes.drop_first());
        if line_end(bytes) < 0 {
            assert forall|k: int| 0 <= k < bytes.len() implies bytes[k] != 10u8 by {
                if k > 0 {
                    assert(bytes[k] == bytes.drop_first()[k - 1]);
                }
            }
        }
    }
}

/// Handling commands leaves no complete line behind, whatever the lines
/// say (an unknown command stops nothing): what is left of the input is
/// the part after its last `\n`, all of it when it has none.
pub proof fn law_run_commands_leaves_no_line(
    state: SocketState,
    input: Seq<u8>,
    on_reading: Seq<char>,
    off_reading: Seq<char>,
)
    ensures
        ({
            let left = run_commands(state, input, on_reading, off_reading).2;
            &&& !left.contains(10u8)
            &&& left.len() <= input.len()
            &&& input.subrange(input.len() - left.len(), input.len() as int) == left
            &&& left.len() < input.len() ==> input[input.len() - left.len() - 1] == 10u8
        }),
    decreases input.len(),
{
    lemma_line_end_place(input);
    let end = line_end(input);
    if end >= 0 {
        let command = trimmed(received_text(input.subrange(0, end + 1)));
        let next = state_after_command(state, command);
        let tail = input.subrange(end + 1, input.len() as int);
        law_run_commands_leaves_no_line(next, tail, on_reading, off_reading);
        let left = run_commands(next, tail, on_reading, off_reading).2;
        assert(run_commands(state, input, on_reading, off_reading).2 == left);
        assert(input.subrange(input.len() - left.len(), input.len() as int) =~= tail.subrange(
            tail.len() - left.len(),
            tail.len() as int,
        ));
        if left.len() < tail.len() {
            assert(input[input.len() - left.len() - 1] == tail[tail.len() - left.len() - 1]);
        }
    } else {
        assert(input.subrange(0, input.len() as int) =~= input);
    }
}

/// A wait setting that reads as a number above zero is the wait in
/// milliseconds, whatever its size.
pub proof fn law_wait_setting_used(value: Seq<char>, ms: u64)
    requires
        u64_value(value) == Some(ms),
        ms > 0,
    ensures
        wait_millis(Some(value)) == ms,
{
}

/// Only a missing setting, one that does not read as a number, or zero
/// waits the default two seconds.
pub proof fn law_wait_default(value: Seq<char>)
    ensures
        wait_millis(None) == 2000,
        u64_value(value) is None ==> wait_millis(Some(value)) == 2000,
        u64_value(value) == Some(0u64) ==> wait_millis(Some(value)) == 2000,
{
}

/// The decimal digits of `n` read back as `n`.
proof fn lemma_decimal_text_value(n: nat)
    ensures
        decimal_text(n).len() > 0,
        forall|i: int| 0 <= i < decimal_text(n).len() ==> is_ascii_digit(#[trigger] decimal_text(n)[i]),
        decimal_value(decimal_text(n)) == n,
    decreases n,
{
    let d = (n % 10) as nat;
    assert(digit_value(digit_char(d)) == d);
    assert(is_ascii_digit(digit_char(d)));
    if n >= 10 {
        lemma_decimal_text_value(n / 10);
        let s = decimal_text(n / 10);
        assert(decimal_text(n) == s.push(digit_char(d)));
        assert(s.push(digit_char(d)).drop_last() =~= s);
        assert(decimal_value(decimal_text(n)) == decimal_value(s) * 10 + d);
        assert((n / 10) * 10 + d == n) by (nonlinear_arith)
            requires
                d == n % 10,
        ;
        assert(decimal_value(decimal_text(n)) == n);
    } else {
        assert(d == n);
        assert(decimal_text(n) == seq![digit_char(n)]);
        assert(seq![digit_char(n)].drop_last() =~= Seq::<char>::empty());
        assert(decimal_value(Seq::<char>::empty()) == 0);
        assert(seq![digit_char(n)].last() == digit_char(n));
        assert(decimal_value(seq![digit_char(n)]) == n);
    }
}

/// A wait setting of any number above zero, written in decimal, waits that
/// many milliseconds.
pub proof fn law_wait_setting_in_decimal(ms: u64)
    requires
        ms > 0,
    ensures
        wait_millis(Some(decimal_text(ms as nat))) == ms,
{
    lemma_decimal_text_value(ms as nat);
    let t = decimal_text(ms as nat);
    assert(is_ascii_digit(t[0]));
    assert(u64_value(t) == Some(ms));
}

/// A line found at the front of `x` stays the first line when more bytes
/// follow.
proof fn lemma_line_end_extended(x: Seq<u8>, y: Seq<u8>)
    requires
        line_end(x) >= 0,
    ensures
        line_end(x + y) == line_end(x),
    decreases x.len(),
{
    if x[0] != 10u8 {
        assert((x + y).drop_first() =~= x.drop_first() + y);
        lemma_line_end_extended(x.drop_first(), y);
    }
}

/// Commands received in two pieces are handled as if received at once:
/// handling `first`, then what was left of it followed by `second`, gives
/// the same state, the same replies in the same order, and the same bytes
/// left over as handling `first + second` in one go.
pub proof fn law_run_commands_in_pieces(
    state: SocketState,
    first: Seq<u8>,
    second: Seq<u8>,
    on_reading: Seq<char>,
    off_reading: Seq<char>,
)
    ensures
        ({
            let a = run_commands(state, first, on_reading, off_reading);
            let b = run_commands(a.0, a.2 + second, on_reading, off_reading);
            run_commands(state, first + second, on_reading, off_reading) == (b.0, a.1 + b.1, b.2)
        }),
    decreases first.len(),
{
    lemma_line_end_place(first);
    let end = line_end(first);
    let whole = first + second;
    if end >= 0 {
        lemma_line_end_extended(first, second);
        lemma_line_end_place(whole);
        assert(whole.subrange(0, end + 1) =~= first.subrange(0, end + 1));
        let command = trimmed(received_text(first.subrange(0, end + 1)));
        let next = state_after_command(state, command);
        let tail = first.subrange(end + 1, first.len() as int);
        assert(whole.subrange(end + 1, whole.len() as int) =~= tail + second);
        law_run_commands_in_pieces(next, tail, second, on_reading, off_reading);
        let head = vstd::utf8::encode_utf8(reply_text(state, command, on_reading, off_reading)).push(
            10u8,
        );
        let a1 = run_commands(next, tail, on_reading, off_reading);
        let b = run_commands(a1.0, a1.2 + second, on_reading, off_reading);
        assert(head + (a1.1 + b.1) =~= (head + a1.1) + b.1);
    } else {
        let b = run_commands(state, first + second, on_reading, off_reading);
        assert(Seq::<u8>::empty() + b.1 =~= b.1);
    }
}

} // verus!
