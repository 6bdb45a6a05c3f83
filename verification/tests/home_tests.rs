use lib::error::{DeviceError, DeviceResult, HomeError};
use lib::home::{Home, SmartHome};
use lib::report::Report;
use lib::room::{Room, SmartRoom};

/// A device that reports a fixed text, or fails.
#[derive(Debug, PartialEq)]
struct FixedDevice(Option<String>);

impl Report for FixedDevice {
    fn report(&self) -> DeviceResult<String> {
        match &self.0 {
            Some(text) => Ok(text.clone()),
            None => Err(DeviceError::NoTemperature),
        }
    }
}

fn socket(power: f32) -> FixedDevice {
    FixedDevice(Some(format!("Socket {{ state: ON, power: {power:.2} W }}")))
}

fn thermometer(temperature: f32) -> FixedDevice {
    FixedDevice(Some(format!("Thermometer {{ temperature: {temperature:.2} C }}")))
}

#[test]
fn room_and_home_manage_devices() {
    let mut room = SmartRoom::new(vec![("socket".to_string(), socket(50.0))]);
    let mut home = SmartHome::new(Vec::new());

    assert!(room.get_device("socket").is_some());

    room.add_device("thermometer".to_string(), thermometer(22.0));
    room.remove_device("socket");

    assert!(room.get_device("socket").is_none());
    assert!(room.get_device("thermometer").is_some());

    home.add_room("office".to_string(), room);

    assert!(home.get_room("office").is_some());
    assert!(home.get_device("office", "thermometer").is_ok());
    assert!(home.get_device("missing", "thermometer").is_err());
    assert!(home.get_device("office", "missing").is_err());
}

#[test]
fn smart_home_report_contains_device_data() {
    let room = SmartRoom::new(vec![
        ("socket".to_string(), socket(90.0)),
        ("thermometer".to_string(), thermometer(21.5)),
    ]);
    let home = SmartHome::new(vec![("living".to_string(), room)]);
    let report = home.report().unwrap();

    assert!(report.contains("Home"));
    assert!(report.contains("socket"));
    assert!(report.contains("90.00"));
    assert!(report.contains("21.50"));
}

#[test]
fn reports_have_their_exact_layout() {
    let room = SmartRoom::new(vec![
        ("a".to_string(), FixedDevice(Some("one".to_string()))),
        ("b".to_string(), FixedDevice(Some("two".to_string()))),
    ]);
    assert_eq!(room.report().unwrap(), "Device 'a': one\nDevice 'b': two\n");
    let home = SmartHome::new(vec![("lab".to_string(), room)]);
    assert_eq!(
        home.report().unwrap(),
        "Home:\n - Room 'lab':\n    - Device 'a': one\n    - Device 'b': two\n"
    );
    let empty: SmartHome<FixedDevice> = SmartHome::new(Vec::new());
    assert_eq!(empty.report().unwrap(), "Home:\n");
}

#[test]
fn report_failures_name_the_room_and_device() {
    let room = SmartRoom::new(vec![
        ("ok".to_string(), FixedDevice(Some("fine".to_string()))),
        ("broken".to_string(), FixedDevice(None)),
    ]);
    let home = SmartHome::new(vec![("hall".to_string(), room)]);
    let error = home.report().unwrap_err();
    assert_eq!(
        error.message(),
        "room 'hall': device 'broken': temperature has not been received yet"
    );
    match error {
        DeviceError::Report { target, source } => {
            assert_eq!(target, "room 'hall'");
            assert!(matches!(*source, DeviceError::Report { ref target, .. } if target == "device 'broken'"));
        }
        other => panic!("unexpected {other:?}"),
    }
}

#[test]
fn later_devices_replace_earlier_ones_of_the_same_name() {
    let mut room = SmartRoom::new(vec![
        ("x".to_string(), FixedDevice(Some("1".to_string()))),
        ("x".to_string(), FixedDevice(Some("2".to_string()))),
    ]);
    assert_eq!(room.report().unwrap(), "Device 'x': 2\n");
    room.add_device("x".to_string(), FixedDevice(Some("3".to_string())));
    assert_eq!(room.get_device("x"), Some(&FixedDevice(Some("3".to_string()))));
    if let Some(device) = room.get_device_mut("x") {
        device.0 = Some("4".to_string());
    }
    assert_eq!(room.report().unwrap(), "Device 'x': 4\n");
    assert!(room.get_device_mut("y").is_none());
}

#[test]
fn home_finds_and_changes_devices() {
    let room = SmartRoom::new(vec![("lamp".to_string(), FixedDevice(None))]);
    let mut home = SmartHome::new(vec![("den".to_string(), room)]);
    match home.get_device("attic", "lamp") {
        Err(HomeError::RoomNotFound(name)) => assert_eq!(name, "attic"),
        other => panic!("unexpected {other:?}"),
    }
    match home.get_device_mut("den", "fan") {
        Err(HomeError::DeviceNotFound(name)) => assert_eq!(name, "fan"),
        other => panic!("unexpected {other:?}"),
    }
    home.get_device_mut("den", "lamp").unwrap().0 = Some("lit".to_string());
    assert_eq!(home.get_device("den", "lamp").unwrap(), &FixedDevice(Some("lit".to_string())));
    home.get_room_mut("den").unwrap().add_device("fan".to_string(), FixedDevice(None));
    assert!(home.get_device("den", "fan").is_ok());
    home.remove_room("den");
    assert!(home.get_room("den").is_none());
}

#[test]
fn error_messages() {
    assert_eq!(DeviceError::Protocol("x".to_string()).message(), "protocol error: x");
    assert_eq!(DeviceError::InvalidConfig("y".to_string()).message(), "invalid config: y");
    assert_eq!(
        DeviceError::LockPoisoned("state").message(),
        "shared state lock poisoned: state"
    );
    assert_eq!(lib::error::io_description("bind UDP", "in use"), "bind UDP: in use");
    let io = DeviceError::io("connect TCP", std::io::Error::other("refused"));
    assert_eq!(io.message(), "connect TCP: refused");
    assert_eq!(HomeError::RoomNotFound("r".to_string()).message(), "room not found: r");
    assert_eq!(
        HomeError::DeviceNotFound("d".to_string()).message(),
        "device not found: d"
    );
}

#[test]
fn home_text_shows_report_or_failure() {
    let room = SmartRoom::new(vec![("a".to_string(), FixedDevice(Some("one".to_string())))]);
    let home = SmartHome::new(vec![("lab".to_string(), room)]);
    assert_eq!(home.to_text(), "Home:\n - Room 'lab':\n    - Device 'a': one\n");
    let room = SmartRoom::new(vec![("b".to_string(), FixedDevice(None))]);
    let home = SmartHome::new(vec![("den".to_string(), room)]);
    assert_eq!(
        home.to_text(),
        "failed to build report: room 'den': device 'b': temperature has not been received yet"
    );
}

#[test]
fn room_and_home_traits_manage_devices() {
    let mut room: SmartRoom<FixedDevice> =
        Room::new(vec![("socket".to_string(), FixedDevice(None))]);
    Room::add_device(&mut room, "lamp".to_string(), FixedDevice(Some("on".to_string())));
    Room::remove_device(&mut room, "socket");
    assert!(Room::get_device(&room, "socket").is_none());
    if let Some(lamp) = Room::get_device_mut(&mut room, "lamp") {
        lamp.0 = Some("off".to_string());
    }
    let mut home: SmartHome<FixedDevice> = Home::new(Vec::new());
    Home::add_room(&mut home, "hall".to_string(), room);
    assert_eq!(
        Home::get_device(&home, "hall", "lamp").unwrap(),
        &FixedDevice(Some("off".to_string()))
    );
    Home::get_device_mut(&mut home, "hall", "lamp").unwrap().0 = None;
    assert!(Home::get_room_mut(&mut home, "hall").is_some());
    assert!(Home::get_room(&home, "hall").unwrap().get_device("lamp").unwrap().0.is_none());
    Home::remove_room(&mut home, "hall");
    assert!(Home::get_room(&home, "hall").is_none());
}
