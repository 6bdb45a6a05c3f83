use std::time::Duration;

use lib::error::DeviceError;
use lib::simulators::socket::{next_command, take_line};
use lib::simulators::{ClientBuffers, CommandReply, SimulatorSocketState};
use lib::smart_device::{NetworkPowerSocket, SocketCommand, SocketState};

fn reply_text(reply: CommandReply) -> String {
    match reply {
        CommandReply::Line(text) => text,
        CommandReply::PowerReading(state) => panic!("unexpected power reading in {state:?}"),
    }
}

#[test]
fn socket_state_parses_and_prints() {
    assert_eq!(" on\n".parse::<SocketState>().unwrap(), SocketState::On);
    assert_eq!(SocketState::parse_text("Off").unwrap(), SocketState::Off);
    assert_eq!(SocketState::On.label(), "ON");
    assert_eq!(SocketState::Off.label(), "OFF");
    match SocketState::parse_text(" maybe ") {
        Err(DeviceError::Protocol(message)) => assert_eq!(message, "unknown socket state 'MAYBE'"),
        other => panic!("unexpected {other:?}"),
    }
}

#[test]
fn network_socket_keeps_address_and_timeout() {
    let socket = NetworkPowerSocket::new("127.0.0.1:4000".to_string());
    assert_eq!(socket.address(), "127.0.0.1:4000");
    assert_eq!(socket.timeout(), Duration::from_secs(2));
    let socket = NetworkPowerSocket::with_timeout("h:1".to_string(), Duration::from_millis(100));
    assert_eq!(socket.address(), "h:1");
    assert_eq!(socket.timeout(), Duration::from_millis(100));
}

#[test]
fn network_socket_reads_replies() {
    let socket = NetworkPowerSocket::new("h:1".to_string());
    assert!(socket.turn_on(Ok("OK".to_string())).is_ok());
    assert!(socket.turn_off(Ok("OK".to_string())).is_ok());
    match socket.turn_on(Ok("ERR busy".to_string())) {
        Err(DeviceError::Protocol(message)) => assert_eq!(message, "command ON returned 'ERR busy'"),
        other => panic!("unexpected {other:?}"),
    }
    match socket.turn_off(Err(DeviceError::NoTemperature)) {
        Err(DeviceError::NoTemperature) => {}
        other => panic!("unexpected {other:?}"),
    }
    assert_eq!(socket.get_state(Ok("ON".to_string())).unwrap(), SocketState::On);
    assert!(matches!(
        socket.get_state(Ok("??".to_string())),
        Err(DeviceError::Protocol(_))
    ));
}

#[test]
fn reply_lines_are_trimmed_and_empty_reads_fail() {
    assert_eq!(
        NetworkPowerSocket::reply_from_line(4, "OK\r\n".to_string()).unwrap(),
        "OK"
    );
    match NetworkPowerSocket::reply_from_line(0, String::new()) {
        Err(DeviceError::Protocol(message)) => assert_eq!(message, "empty socket response"),
        other => panic!("unexpected {other:?}"),
    }
}

#[test]
fn simulator_answers_every_command() {
    let mut simulator = SimulatorSocketState::new();
    assert_eq!(simulator.state(), SocketState::Off);
    assert_eq!(reply_text(simulator.handle_command(" on ")), "OK");
    assert_eq!(simulator.state(), SocketState::On);
    assert_eq!(reply_text(simulator.handle_command("state")), "ON");
    assert!(matches!(
        simulator.handle_command("POWER"),
        CommandReply::PowerReading(SocketState::On)
    ));
    assert_eq!(reply_text(simulator.handle_command("OFF")), "OK");
    assert_eq!(reply_text(simulator.handle_command("STATE")), "OFF");
    assert_eq!(
        reply_text(simulator.handle_command("dance")),
        "ERR unknown command 'DANCE'"
    );
    assert_eq!(simulator.state(), SocketState::Off);
}

#[test]
fn two_clients_share_the_simulated_socket() {
    let mut simulator = SimulatorSocketState::new();
    let first_client = NetworkPowerSocket::new("sim".to_string());
    let second_client = NetworkPowerSocket::new("sim".to_string());

    let reply = reply_text(simulator.handle_command(SocketCommand::TurnOn.label()));
    first_client.turn_on(Ok(reply)).unwrap();
    let reply = reply_text(simulator.handle_command(SocketCommand::QueryState.label()));
    assert_eq!(second_client.get_state(Ok(reply)).unwrap(), SocketState::On);

    let reply = reply_text(simulator.handle_command(SocketCommand::TurnOff.label()));
    second_client.turn_off(Ok(reply)).unwrap();
    let reply = reply_text(simulator.handle_command(SocketCommand::QueryState.label()));
    assert_eq!(first_client.get_state(Ok(reply)).unwrap(), SocketState::Off);
}

#[test]
fn commands_are_cut_from_the_input_buffer() {
    let mut input = b"ON\nsta".to_vec();
    assert_eq!(take_line(&mut input), Some(b"ON\n".to_vec()));
    assert_eq!(input, b"sta".to_vec());
    assert_eq!(take_line(&mut input), None);
    input.extend_from_slice(b"te\r\n\xffX\n");
    assert_eq!(next_command(&mut input).unwrap(), "state\r\n");
    assert_eq!(next_command(&mut input).unwrap(), "\u{fffd}X\n");
    assert!(input.is_empty());
    assert_eq!(next_command(&mut input), None);
}

#[test]
fn command_names_round_trip() {
    for command in [
        SocketCommand::TurnOn,
        SocketCommand::TurnOff,
        SocketCommand::QueryState,
        SocketCommand::QueryPower,
    ] {
        assert_eq!(SocketCommand::named(command.label()), Some(command));
    }
    assert_eq!(SocketCommand::named("on"), None);
}

#[test]
fn client_commands_are_answered_in_order() {
    let mut buffers = ClientBuffers::new();
    let mut simulator = SimulatorSocketState::new();
    buffers.receive(b" on \nPOWER\nstate\r\nbogus\nPOW");
    buffers.process_commands(&mut simulator, "115.00", "0.00");
    assert_eq!(simulator.state(), SocketState::On);
    assert_eq!(
        buffers.output(),
        b"OK\n115.00\nON\nERR unknown command 'BOGUS'\n"
    );
    buffers.receive(b"ER\noff\npower\n");
    buffers.process_commands(&mut simulator, "115.00", "0.00");
    assert_eq!(simulator.state(), SocketState::Off);
    assert_eq!(
        buffers.output(),
        b"OK\n115.00\nON\nERR unknown command 'BOGUS'\n115.00\nOK\n0.00\n"
    );
    buffers.consume_output(3);
    assert_eq!(&buffers.output()[..6], b"115.00");
    assert!(!buffers.is_closed());
    buffers.mark_closed();
    assert!(!buffers.is_closed());
    let rest = buffers.output().len();
    buffers.consume_output(rest);
    assert!(buffers.is_closed());
}
