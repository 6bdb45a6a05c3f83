//! The socket simulator's side of the line protocol: cutting commands out of
//! the bytes a client sent, and answering each command.
use vstd::prelude::*;

use crate::smart_device::socket::{command_named, state_label, SocketCommand, SocketState};
use crate::text::{ascii_uppercase, to_ascii_uppercase, trim, trimmed};

verus! {

/// The answer to a command: a line of text, or a power reading for the
/// given state, which the simulator's owner writes out in watts.
#[derive(Debug)]
pub enum CommandReply {
    Line(String),
    PowerReading(SocketState),
}

/// The word of a received command: without surrounding white space, with
/// ASCII letters in upper case.
pub open spec fn command_word(command: Seq<char>) -> Seq<char> {
    ascii_uppercase(trimmed(command))
}

/// The simulated socket's state after it handled `command` in `state`.
pub open spec fn state_after_command(state: SocketState, command: Seq<char>) -> SocketState {
    match command_named(command_word(command)) {
        Some(SocketCommand::TurnOn) => SocketState::On,
        Some(SocketCommand::TurnOff) => SocketState::Off,
        _ => state,
    }
}

/// The line that answers `command` in `state`; none for a power query,
/// which is answered with a reading.
pub open spec fn reply_line(state: SocketState, command: Seq<char>) -> Option<Seq<char>> {
    let word = command_word(command);
    match command_named(word) {
        Some(SocketCommand::TurnOn) => Some("OK"@),
        Some(SocketCommand::TurnOff) => Some("OK"@),
        Some(SocketCommand::QueryState) => Some(state_label(state)),
        Some(SocketCommand::QueryPower) => None,
        None => Some("ERR unknown command '"@ + word + "'"@),
    }
}

/// The text of a power reading in `state`, given the texts for the two
/// states.
pub open spec fn power_text(state: SocketState, on_reading: Seq<char>, off_reading: Seq<char>) -> Seq<
    char,
> {
    match state {
        SocketState::On => on_reading,
        SocketState::Off => off_reading,
    }
}

/// The text that answers `command` in `state`, a power reading written as
/// given.
pub open spec fn reply_text(
    state: SocketState,
    command: Seq<char>,
    on_reading: Seq<char>,
    off_reading: Seq<char>,
) -> Seq<char> {
    match reply_line(state, command) {
        Some(line) => line,
        None => power_text(state, on_reading, off_reading),
    }
}

/// The on/off state of a simulated socket.
#[derive(Debug)]
pub struct SimulatorSocketState {
    state: SocketState,
}

impl SimulatorSocketState {
    /// The state of the simulated socket.
    pub closed spec fn socket_state(&self) -> SocketState {
        self.state
    }

    /// A simulated socket that is switched off.
    pub fn new() -> (s: Self)
        ensures
            s.socket_state() == SocketState::Off,
    {
        SimulatorSocketState { state: SocketState::Off }
    }

    /// The state of the simulated socket.
    pub fn state(&self) -> (s: SocketState)
        ensures
            s == self.socket_state(),
    {
        self.state
    }

    /// Carries out one command and gives its answer.
    pub fn handle_command(&mut self, command: &str) -> (r: CommandReply)
        ensures
            final(self).socket_state() == state_after_command(old(self).socket_state(), command@),
            match reply_line(old(self).socket_state(), command@) {
                Some(line) => r matches CommandReply::Line(text) && text@ == line,
                None => r == CommandReply::PowerReading(old(self).socket_state()),
            },
    {
        let word = to_ascii_uppercase(trim(command));
        match SocketCommand::named(word.as_str()) {
            Some(SocketCommand::TurnOn) => {
                self.state = SocketState::On;
                CommandReply::Line(String::from_str("OK"))
            },
            Some(SocketCommand::TurnOff) => {
                self.state = SocketState::Off;
                CommandReply::Line(String::from_str("OK"))
            },
            Some(SocketCommand::QueryState) => CommandReply::Line(
                String::from_str(self.state.label()),
            ),
            Some(SocketCommand::QueryPower) => CommandReply::PowerReading(self.state),
            None => {
                let mut m = String::from_str("ERR unknown command '");
                m.append(word.as_str());
                m.append("'");
                CommandReply::Line(m)
            },
        }
    }
}

/// The text that `String::from_utf8_lossy` makes of `bytes`.
pub uninterp spec fn lossy_text(bytes: Seq<u8>) -> Seq<char>;

/// The text of received bytes: their UTF-8 decoding when they are valid
/// UTF-8, else what `String::from_utf8_lossy` makes of them.
pub open spec fn received_text(bytes: Seq<u8>) -> Seq<char> {
    if vstd::utf8::valid_utf8(bytes) {
        vstd::utf8::decode_utf8(bytes)
    } else {
        lossy_text(bytes)
    }
}

/// Calls `String::from_utf8_lossy`: it decodes `bytes`, putting U+FFFD in
/// place of invalid sequences, so valid UTF-8 comes out as it decodes.
#[verifier::external_body]
fn decode_lossy(bytes: &[u8]) -> (s: String)
    ensures
        s@ == lossy_text(bytes@),
        vstd::utf8::valid_utf8(bytes@) ==> s@ == vstd::utf8::decode_utf8(bytes@),
{
    String::from_utf8_lossy(bytes).into_owned()
}

/// The index of the first `\n` byte in `bytes`, or -1 when there is none.
pub open spec fn line_end(bytes: Seq<u8>) -> int
    decreases bytes.len(),
{
    if bytes.len() == 0 {
        -1
    } else if bytes[0] == 10u8 {
        0
    } else if line_end(bytes.drop_first()) < 0 {
        -1
    } else {
        line_end(bytes.drop_first()) + 1
    }
}

proof fn lemma_line_end_found(bytes: Seq<u8>, i: int)
    requires
        0 <= i < bytes.len(),
        bytes[i] == 10u8,
        forall|k: int| 0 <= k < i ==> bytes[k] != 10u8,
    ensures
        line_end(bytes) == i,
    decreases i,
{
    if i > 0 {
        lemma_line_end_found(bytes.drop_first(), i - 1);
    }
}

proof fn lemma_line_end_absent(bytes: Seq<u8>)
    requires
        forall|k: int| 0 <= k < bytes.len() ==> bytes[k] != 10u8,
    ensures
        line_end(bytes) == -1,
    decreases bytes.len(),
{
    if bytes.len() > 0 {
        lemma_line_end_absent(bytes.drop_first());
    }
}

/// Cuts the first line, with its `\n`, off the front of `input`.
pub fn take_line(input: &mut Vec<u8>) -> (line: Option<Vec<u8>>)
    ensures
        match line {
            None => {
                &&& !old(input)@.contains(10u8)
                &&& line_end(old(input)@) == -1
                &&& final(input)@ == old(input)@
            },
            Some(l) => {
                &&& l@.len() > 0
                &&& l@.last() == 10u8
                &&& !l@.drop_last().contains(10u8)
                &&& old(input)@ == l@ + final(input)@
                &&& 0 <= line_end(old(input)@) < old(input)@.len()
                &&& l@ == old(input)@.subrange(0, line_end(old(input)@) + 1)
                &&& final(input)@ == old(input)@.subrange(
                    line_end(old(input)@) + 1,
                    old(input)@.len() as int,
                )
            },
        },
{
    let n = input.len();
    let mut i: usize = 0;
    while i < n
        invariant
            n == input@.len(),
            input@ == old(input)@,
            i <= n,
            forall|k: int| 0 <= k < i ==> input@[k] != 10u8,
        decreases n - i,
    {
        if input[i] == 10u8 {
            let ghost before = input@;
            proof {
                lemma_line_end_found(before, i as int);
            }
            let mut head = input.split_off(i + 1);
            std::mem::swap(&mut head, input);
            assert(head@.drop_last() =~= before.subrange(0, i as int));
            assert(before =~= head@ + input@);
            assert(!head@.drop_last().contains(10u8)) by {
                assert forall|k: int| 0 <= k < head@.drop_last().len() implies head@.drop_last()[k]
                    != 10u8 by {
                    assert(head@.drop_last()[k] == before[k]);
                }
            }
            return Some(head);
        }
        i = i + 1;
    }
    assert(!input@.contains(10u8)) by {
        assert forall|k: int| 0 <= k < input@.len() implies input@[k] != 10u8 by {}
    }
    proof {
        lemma_line_end_absent(input@);
    }
    None
}

/// Takes the next complete command line off the front of `input`, decoded
/// as `String::from_utf8_lossy` decodes it.
pub fn next_command(input: &mut Vec<u8>) -> (command: Option<String>)
    ensures
        match command {
            None => line_end(old(input)@) == -1 && final(input)@ == old(input)@,
            Some(c) => {
                &&& 0 <= line_end(old(input)@) < old(input)@.len()
                &&& c@ == received_text(old(input)@.subrange(0, line_end(old(input)@) + 1))
                &&& final(input)@ == old(input)@.subrange(
                    line_end(old(input)@) + 1,
                    old(input)@.len() as int,
                )
            },
        },
{
    match take_line(input) {
        None => None,
        Some(line) => Some(decode_lossy(line.as_slice())),
    }
}

/// What handling every complete command line at the front of `input`, in
/// order, comes to: the socket's state after them, the reply bytes (each
/// reply in UTF-8 with a `\n`), and the bytes left over.
pub open spec fn run_commands(
    state: SocketState,
    input: Seq<u8>,
    on_reading: Seq<char>,
    off_reading: Seq<char>,
) -> (SocketState, Seq<u8>, Seq<u8>)
    decreases input.len(),
{
    let end = line_end(input);
    if end < 0 || end >= input.len() {
        (state, Seq::empty(), input)
    } else {
        let command = trimmed(received_text(input.subrange(0, end + 1)));
        let rest = run_commands(
            state_after_command(state, command),
            input.subrange(end + 1, input.len() as int),
            on_reading,
            off_reading,
        );
        (
            rest.0,
            vstd::utf8::encode_utf8(reply_text(state, command, on_reading, off_reading)).push(10u8)
                + rest.1,
            rest.2,
        )
    }
}

/// The bytes exchanged with one client of the simulator: what it sent and
/// is not yet handled, what is yet to be written back, and whether its side
/// of the connection has closed.
#[derive(Debug)]
pub struct ClientBuffers {
    input: Vec<u8>,
    output: Vec<u8>,
    closed: bool,
}

impl ClientBuffers {
    /// Received bytes not yet cut into commands.
    pub closed spec fn pending_input(&self) -> Seq<u8> {
        self.input@
    }

    /// Reply bytes not yet written to the client.
    pub closed spec fn pending_output(&self) -> Seq<u8> {
        self.output@
    }

    /// Whether the client's side of the connection has ended.
    pub closed spec fn hung_up(&self) -> bool {
        self.closed
    }

    /// Buffers of a newly accepted client.
    pub fn new() -> (b: Self)
        ensures
            b.pending_input() == Seq::<u8>::empty(),
            b.pending_output() == Seq::<u8>::empty(),
            !b.hung_up(),
    {
        ClientBuffers { input: Vec::new(), output: Vec::new(), closed: false }
    }

    /// Whether the client is done with: it hung up and every reply was
    /// written.
    pub fn is_closed(&self) -> (r: bool)
        ensures
            r == (self.hung_up() && self.pending_output().len() == 0),
    {
        self.closed && self.output.len() == 0
    }

    /// Notes that the client's side of the connection has ended.
    pub fn mark_closed(&mut self)
        ensures
            final(self).hung_up(),
            final(self).pending_input() == old(self).pending_input(),
            final(self).pending_output() == old(self).pending_output(),
    {
        self.closed = true;
    }

    /// Adds received bytes to the input.
    pub fn receive(&mut self, bytes: &[u8])
        ensures
            final(self).pending_input() == old(self).pending_input() + bytes@,
            final(self).pending_output() == old(self).pending_output(),
            final(self).hung_up() == old(self).hung_up(),
    {
        let n = bytes.len();
        let mut i: usize = 0;
        let ghost start = self.input@;
        while i < n
            invariant
                n == bytes@.len(),
                i <= n,
                self.input@ == start + bytes@.subrange(0, i as int),
                self.output@ == old(self).output@,
                self.closed == old(self).closed,
                start == old(self).input@,
            decreases n - i,
        {
            self.input.push(bytes[i]);
            assert(bytes@.subrange(0, i + 1) =~= bytes@.subrange(0, i as int).push(bytes@[i as int]));
            i = i + 1;
        }
        assert(bytes@.subrange(0, n as int) =~= bytes@);
    }

    /// Takes the next complete command line off the input.
    pub fn next_command(&mut self) -> (command: Option<String>)
        ensures
            final(self).pending_output() == old(self).pending_output(),
            final(self).hung_up() == old(self).hung_up(),
            match command {
                None => line_end(old(self).pending_input()) == -1 && final(self).pending_input()
                    == old(self).pending_input(),
                Some(c) => {
                    &&& 0 <= line_end(old(self).pending_input()) < old(self).pending_input().len()
                    &&& c@ == received_text(
                        old(self).pending_input().subrange(0, line_end(old(self).pending_input()) + 1),
                    )
                    &&& final(self).pending_input() == old(self).pending_input().subrange(
                        line_end(old(self).pending_input()) + 1,
                        old(self).pending_input().len() as int,
                    )
                },
            },
    {
        next_command(&mut self.input)
    }

    /// Appends a reply line, in UTF-8 with a `\n`, to the output.
    pub fn queue_reply(&mut self, reply: &str)
        ensures
            final(self).pending_output() == old(self).pending_output() + vstd::utf8::encode_utf8(reply@).push(10u8),
            final(self).pending_input() == old(self).pending_input(),
            final(self).hung_up() == old(self).hung_up(),
    {
        let bytes = reply.as_bytes();
        let n = bytes.len();
        let mut i: usize = 0;
        let ghost start = self.output@;
        while i < n
            invariant
                n == bytes@.len(),
                bytes@ == vstd::utf8::encode_utf8(reply@),
                i <= n,
                self.output@ == start + bytes@.subrange(0, i as int),
                self.input@ == old(self).input@,
                self.closed == old(self).closed,
                start == old(self).output@,
            decreases n - i,
        {
            self.output.push(bytes[i]);
            assert(bytes@.subrange(0, i + 1) =~= bytes@.subrange(0, i as int).push(bytes@[i as int]));
            i = i + 1;
        }
        self.output.push(10u8);
        assert(bytes@.subrange(0, n as int) =~= bytes@);
        assert(self.output@ =~= start + vstd::utf8::encode_utf8(reply@).push(10u8));
    }

    /// The reply bytes yet to be written.
    pub fn output(&self) -> (o: &[u8])
        ensures
            o@ == self.pending_output(),
    {
        self.output.as_slice()
    }

    /// Drops the first `written` bytes of the output, which reached the
    /// client.
    pub fn consume_output(&mut self, written: usize)
        requires
            written <= old(self).pending_output().len(),
        ensures
            final(self).pending_output() == old(self).pending_output().subrange(
                written as int,
                old(self).pending_output().len() as int,
            ),
            final(self).pending_input() == old(self).pending_input(),
            final(self).hung_up() == old(self).hung_up(),
    {
        let rest = self.output.split_off(written);
        self.output = rest;
    }

    /// Handles every complete command line received so far, in order, and
    /// queues the replies; a power query is answered with `on_reading` or
    /// `off_reading`, as the socket is on or off.
    pub fn process_commands(
        &mut self,
        state: &mut SimulatorSocketState,
        on_reading: &str,
        off_reading: &str,
    )
        ensures
            ({
                let outcome = run_commands(
                    old(state).socket_state(),
                    old(self).pending_input(),
                    on_reading@,
                    off_reading@,
                );
                &&& final(state).socket_state() == outcome.0
                &&& final(self).pending_output() == old(self).pending_output() + outcome.1
                &&& final(self).pending_input() == outcome.2
                &&& final(self).hung_up() == old(self).hung_up()
            }),
    {
        let ghost total = run_commands(
            state.socket_state(),
            self.input@,
            on_reading@,
            off_reading@,
        );
        loop
            invariant
                total == run_commands(old(state).socket_state(), old(self).input@, on_reading@, off_reading@),
                total.0 == run_commands(state.socket_state(), self.input@, on_reading@, off_reading@).0,
                total.2 == run_commands(state.socket_state(), self.input@, on_reading@, off_reading@).2,
                old(self).output@ + total.1 == self.output@ + run_commands(
                    state.socket_state(),
                    self.input@,
                    on_reading@,
                    off_reading@,
                ).1,
                self.closed == old(self).closed,
            ensures
                state.socket_state() == total.0,
                self.input@ == total.2,
                self.output@ == old(self).output@ + total.1,
                self.closed == old(self).closed,
            decreases self.input@.len(),
        {
            let ghost st = state.socket_state();
            let ghost inp = self.input@;
            let ghost out = self.output@;
            match self.next_command() {
                None => {
                    assert(out + Seq::<u8>::empty() =~= out);
                    break;
                },
                Some(command) => {
                    let t = trim(command.as_str());
                    let reply = state.handle_command(t);
                    let text = match reply {
                        CommandReply::Line(line) => line,
                        CommandReply::PowerReading(reading) => match reading {
                            SocketState::On => on_reading.to_owned(),
                            SocketState::Off => off_reading.to_owned(),
                        },
                    };
                    self.queue_reply(text.as_str());
                    proof {
                        let next = run_commands(state.socket_state(), self.input@, on_reading@, off_reading@);
                        let head = vstd::utf8::encode_utf8(
                            reply_text(st, t@, on_reading@, off_reading@),
                        ).push(10u8);
                        assert(run_commands(st, inp, on_reading@, off_reading@) == (next.0, head + next.1, next.2));
                        assert(out + (head + next.1) =~= (out + head) + next.1);
                    }
                },
            }
        }
    }
}

} // verus!
