use sysmon::bytes::{as_signed, read16, read32};
use sysmon::config::{Config, Environment};
use sysmon::cursor::Cursor;
use sysmon::message::parse_controller;
use sysmon::openrgb::{Controller, Mode, Zone};
use sysmon::packet::{
    custom_mode_packet, direct_mode_packet, leds_packet, mode_packet, packet, response_size,
};
use sysmon::selection::{names_a_controller, select_controller};
use sysmon::session::{
    negotiated_version, told_number, Action, Client, Handshake, Stage,
};

fn put16(data: &mut Vec<u8>, n: u16) {
    data.extend_from_slice(&n.to_le_bytes());
}

fn put32(data: &mut Vec<u8>, n: u32) {
    data.extend_from_slice(&n.to_le_bytes());
}

fn put_text(data: &mut Vec<u8>, text: &str) {
    put16(data, text.len() as u16 + 1);
    data.extend_from_slice(text.as_bytes());
    data.push(0);
}

fn mode_bytes(version: u32, name: &str, value: i32, colors: u16) -> Vec<u8> {
    let mut data = Vec::new();
    put_text(&mut data, name);
    put32(&mut data, value as u32);
    let words = if version >= 3 { 11 } else { 8 };
    for word in 0..words {
        put32(&mut data, word);
    }
    put16(&mut data, colors);
    for _ in 0..colors {
        put32(&mut data, 7);
    }
    data
}

fn put_zone(data: &mut Vec<u8>, version: u32, name: &str, leds: u32, matrix: u16, segments: u16) {
    put_text(data, name);
    for _ in 0..3 {
        put32(data, 1);
    }
    put32(data, leds);
    put16(data, matrix);
    if matrix > 0 {
        for _ in 0..8.max(matrix) {
            data.push(9);
        }
    }
    if version >= 4 {
        put16(data, segments);
        for _ in 0..segments {
            put_text(data, "segment");
            for _ in 0..3 {
                put32(data, 2);
            }
        }
    }
    if version >= 5 {
        put32(data, 3);
    }
}

/// The description of a controller with two modes, three zones and the given LEDs, each of which
/// names its zone.
fn description(version: u32, leds: &[u32]) -> Vec<u8> {
    let mut data = Vec::new();
    put32(&mut data, 0);
    put32(&mut data, 0);
    put_text(&mut data, "Board");
    if version >= 1 {
        put_text(&mut data, "BoardCo");
    }
    put_text(&mut data, "Motherboard");
    put_text(&mut data, "1.0");
    put_text(&mut data, "serial");
    put_text(&mut data, "HID");
    put16(&mut data, 2);
    put32(&mut data, -1i32 as u32);
    data.extend_from_slice(&mode_bytes(version, "Static", -5, 0));
    data.extend_from_slice(&mode_bytes(version, "Direct", 65535, 3));
    put16(&mut data, 3);
    put_zone(&mut data, version, "A", 5, 0, 0);
    put_zone(&mut data, version, "B", 6, 12, 2);
    put_zone(&mut data, version, "C", 7, 3, 1);
    put16(&mut data, leds.len() as u16);
    for zone in leds {
        put_text(&mut data, "LED");
        put32(&mut data, *zone);
    }
    data
}

#[test]
fn controllers_of_every_version_are_read() {
    for version in 0..=5 {
        let data = description(version, &[1, 1, 0, 9]);
        let c = parse_controller(4, version, &data).unwrap();
        assert_eq!(c.id, 4);
        assert_eq!(c.name, "Board");
        assert_eq!(c.vendor, if version >= 1 { "BoardCo" } else { "" });
        assert_eq!(c.description, "Motherboard");
        assert_eq!(c.location, "HID");
        assert_eq!(c.active_mode, -1);
        assert_eq!(c.led_count, 4);
        assert_eq!(c.modes.len(), 2);
        assert_eq!((c.modes[0].index, c.modes[0].value), (0, -5));
        assert_eq!((c.modes[1].index, c.modes[1].value), (1, 65535));
        assert_eq!(c.modes[1].name, "Direct");
        assert_eq!(c.modes[1].data, mode_bytes(version, "Direct", 65535, 3));
        assert_eq!(c.zones.len(), 3);
        // Named by LEDs: the first of them, and how many. Else: behind the zones before.
        assert_eq!((c.zones[0].start, c.zones[0].count), (2, 1));
        assert_eq!((c.zones[1].start, c.zones[1].count), (0, 2));
        assert_eq!((c.zones[2].start, c.zones[2].count), (3, 7));
        assert_eq!(c.zones[2].index, 2);
        assert_eq!(c.zones[2].name, "C");
    }
}

#[test]
fn zones_that_no_led_names_follow_each_other() {
    let c = parse_controller(0, 5, &description(5, &[])).unwrap();
    let places: Vec<(usize, usize)> = c.zones.iter().map(|z| (z.start, z.count)).collect();
    assert_eq!(places, vec![(0, 5), (5, 6), (11, 7)]);
}

#[test]
fn bytes_behind_a_description_do_not_matter() {
    let mut data = description(5, &[1, 2]);
    let short = parse_controller(0, 5, &data).unwrap();
    data.extend_from_slice(&[1, 2, 3, 255]);
    let long = parse_controller(0, 5, &data).unwrap();
    assert_eq!(short.name, long.name);
    assert_eq!(short.led_count, long.led_count);
    assert_eq!(short.zones[2].start, long.zones[2].start);
    assert_eq!(short.modes[1].data, long.modes[1].data);
}

#[test]
fn descriptions_that_are_cut_short_are_refused() {
    let data = description(5, &[1, 2]);
    for len in 0..data.len() {
        assert_eq!(
            parse_controller(0, 5, &data[..len]).err().as_deref(),
            Some("OpenRGB controller data ended unexpectedly")
        );
    }
}

#[test]
fn text_has_to_be_utf8() {
    let bytes = vec![0x41, 0xff, 0x42];
    let mut data = vec![3, 0];
    data.extend_from_slice(&bytes);
    let expected = String::from_utf8(bytes).unwrap_err().to_string();
    assert_eq!(Cursor::new(&data).string(), Err(expected.clone()));

    let mut controller = description(5, &[]);
    let at = controller.windows(5).position(|w| w == b"Board").unwrap();
    controller[at + 1] = 0xff;
    let mut name = controller[at..at + 5].to_vec();
    let fault = String::from_utf8(std::mem::take(&mut name)).unwrap_err().to_string();
    assert_eq!(parse_controller(0, 5, &controller).err(), Some(fault));
}

#[test]
fn text_may_end_in_a_zero() {
    let data = [
        0, 0, // no text
        1, 0, 0, // a zero only
        3, 0, 0x68, 0x69, 0, // with a zero
        2, 0, 0x68, 0x69, // without
        2, 0, 0, 0, // one of two zeros is dropped
        2, 0, 0xc3, 0xa9, // two bytes, one character
    ];
    let mut cursor = Cursor::new(&data);
    assert_eq!(cursor.string().as_deref(), Ok(""));
    assert_eq!(cursor.string().as_deref(), Ok(""));
    assert_eq!(cursor.string().as_deref(), Ok("hi"));
    assert_eq!(cursor.string().as_deref(), Ok("hi"));
    assert_eq!(cursor.string().as_deref(), Ok("\0"));
    assert_eq!(cursor.string().as_deref(), Ok("\u{e9}"));
    assert!(cursor.string().is_err());
}

#[test]
fn cursors_move_over_what_they_read() {
    let data = [1, 2, 3, 4, 5, 0xfe, 0xff, 0xff, 0xff, 7];
    let mut cursor = Cursor::new(&data);
    assert_eq!(cursor.u16(), Ok(0x0201));
    assert_eq!(cursor.skip(3), Ok(()));
    assert_eq!(cursor.i32(), Ok(-2));
    assert_eq!(cursor.offset, 9);
    assert_eq!(
        cursor.u32().err().as_deref(),
        Some("OpenRGB controller data ended unexpectedly")
    );
    assert_eq!(cursor.offset, 9);
    assert_eq!(
        cursor.bytes(usize::MAX).err().as_deref(),
        Some("OpenRGB controller data offset overflow")
    );
    assert_eq!(cursor.bytes(1), Ok(&data[9..]));
    assert_eq!(Cursor::new(&data).u32(), Ok(0x04030201));
    assert!(Cursor::new(&data).words(2).is_ok());
    assert!(Cursor::new(&data).words(3).is_err());
}

#[test]
fn numbers_are_little_endian() {
    assert_eq!(read16(&[0x34, 0x12, 0xff]), 0x1234);
    assert_eq!(read32(&[0x78, 0x56, 0x34, 0x12]), 0x12345678);
    for n in [0u32, 1, 0x7fffffff, 0x80000000, 0xffffffff] {
        assert_eq!(as_signed(n), n as i32);
    }
}

#[test]
fn packets_carry_a_header() {
    let p = packet(2, 1050, &[7, 8, 9]);
    assert_eq!(p[..4], *b"ORGB");
    assert_eq!(p[4..], [2, 0, 0, 0, 0x1a, 4, 0, 0, 3, 0, 0, 0, 7, 8, 9]);
    assert_eq!(response_size(&p[..16]), Ok(3));
    let mut bad = p.clone();
    bad[3] = b'X';
    assert_eq!(
        response_size(&bad[..16]).err().as_deref(),
        Some("invalid OpenRGB packet magic")
    );
}

#[test]
fn packets_that_set_leds() {
    let p = leds_packet(3, &[[1, 2, 3, 0], [4, 5, 6, 0]]);
    assert_eq!(p, packet(3, 1050, &[14, 0, 0, 0, 2, 0, 1, 2, 3, 0, 4, 5, 6, 0]));

    // The number of LEDs is told in two bytes.
    let many = vec![[0u8; 4]; 0x1_0001];
    let p = leds_packet(3, &many);
    assert_eq!(p.len(), 16 + 6 + 4 * 0x1_0001);
    assert_eq!(p[16..22], [10, 0, 0, 0, 1, 0]);
}

fn mode(index: usize, name: &str) -> Mode {
    Mode { index, name: name.to_string(), value: 0, data: vec![1, 2, 3] }
}

fn controller(id: u32, name: &str, led_count: usize, zones: &[&str]) -> Controller {
    Controller {
        id,
        name: name.to_string(),
        vendor: "vendor".to_string(),
        description: "description".to_string(),
        location: "location".to_string(),
        active_mode: 0,
        modes: Vec::new(),
        led_count,
        zones: zones
            .iter()
            .enumerate()
            .map(|(index, name)| Zone { index, name: name.to_string(), start: 0, count: 1 })
            .collect(),
    }
}

#[test]
fn packets_that_set_a_mode() {
    assert_eq!(custom_mode_packet(9), packet(9, 1100, &[]));
    assert_eq!(
        mode_packet(9, &mode(0x102, "x")),
        packet(9, 1101, &[11, 0, 0, 0, 2, 1, 0, 0, 1, 2, 3])
    );
}

#[test]
fn the_direct_mode_is_found_by_its_name() {
    let mut c = controller(1, "c", 1, &[]);
    assert!(c.direct_mode().is_none());
    assert!(direct_mode_packet(&c).is_none());
    c.modes = vec![mode(0, "Static"), mode(1, "Indirect"), mode(2, "DIRECT"), mode(3, "direct")];
    assert_eq!(c.direct_mode().unwrap().index, 2);
    assert_eq!(direct_mode_packet(&c), Some(mode_packet(1, &c.modes[2])));
    c.modes.truncate(2);
    assert_eq!(c.direct_mode().unwrap().index, 1);
}

#[test]
fn numbers_select_by_id_before_names() {
    let all = || vec![controller(7, "Board 9", 1, &[]), controller(9, "Strip", 2, &[])];
    assert_eq!(select_controller(all(), Some("9")).unwrap().id, 9);
    // No such id, but part of a name.
    assert_eq!(select_controller(all(), Some("oard")).unwrap().id, 7);
    assert!(names_a_controller(&all(), "9"));
    assert!(names_a_controller(&all(), "STRIP"));
    assert!(names_a_controller(&all(), "Vendor"));
    assert!(names_a_controller(&all(), "descr"));
    assert!(names_a_controller(&all(), "LOCATION"));
    assert!(!names_a_controller(&all(), "8"));
    // Nothing matches: the most promising one.
    assert_eq!(select_controller(all(), Some("none")).unwrap().id, 9);
    assert!(select_controller(Vec::new(), Some("9")).is_none());
}

#[test]
fn addressable_zones_count_more_than_leds() {
    let all = vec![
        controller(0, "a", 500, &["x"]),
        controller(1, "b", 3, &["Addressable 1", "ADDRESSABLE 2"]),
        controller(2, "c", 3, &["addressable 1", "addressable 2"]),
        controller(3, "d", 99, &["addressable 1"]),
    ];
    assert_eq!(select_controller(all, None).unwrap().id, 2);
}

fn number_reply(n: u32) -> Option<Vec<u8>> {
    Some(n.to_le_bytes().to_vec())
}

fn settings() -> Config {
    let env = Environment {
        openrgb_host: None,
        openrgb_port: None,
        openrgb_device: None,
        aio_zone: None,
        aio_leds: None,
        cpu_temp_zone: None,
        gpu_temp_zone: None,
    };
    Config::load(&env, None)
}

fn sent(handshake: &Handshake) -> Vec<u8> {
    match handshake.action() {
        Action::Exchange(p) => p,
        _ => unreachable!(),
    }
}

#[test]
fn a_handshake_leads_to_a_client() {
    let mut h = Handshake::new();
    assert_eq!(sent(&h), packet(0, 40, &[5, 0, 0, 0]));
    assert!(h.advance(number_reply(4)).is_none());
    assert!(matches!(h.action(), Action::Notify(p) if p == packet(0, 50, b"sysmon\0")));
    assert!(h.advance(None).is_none());
    assert_eq!(sent(&h), packet(0, 0, &[]));
    assert!(h.advance(number_reply(3)).is_none());
    assert_eq!(sent(&h), packet(0, 1, &[4, 0, 0, 0]));
    assert!(h.advance(Some(description(4, &[0]))).is_none());
    assert_eq!(sent(&h), packet(1, 1, &[4, 0, 0, 0]));
    // A description that cannot be read is skipped.
    assert_eq!(
        h.advance(Some(vec![1])).as_deref(),
        Some("OpenRGB controller data ended unexpectedly")
    );
    assert_eq!(sent(&h), packet(2, 1, &[4, 0, 0, 0]));
    assert!(h.advance(Some(description(4, &[0, 1]))).is_none());
    assert!(matches!(h.action(), Action::Finish));
    assert!(matches!(h.stage, Stage::Done));

    // More LEDs decide.
    let client = Client::connect(h, &settings()).unwrap();
    assert_eq!(client.controller().id, 2);
    assert_eq!(client.protocol_version(), 4);
    assert_eq!(client.send_leds(&[[1, 2, 3, 0]]), leds_packet(2, &[[1, 2, 3, 0]]));
}

#[test]
fn version_zero_sends_no_version_along() {
    for first in [None, Some(vec![1, 2, 3]), number_reply(0)] {
        let mut h = Handshake::new();
        h.advance(first);
        h.advance(None);
        h.advance(number_reply(1));
        assert_eq!(h.protocol_version, 0);
        assert_eq!(sent(&h), packet(0, 1, &[]));
    }
}

#[test]
fn without_all_replies_there_are_no_controllers() {
    let mut h = Handshake::new();
    h.advance(number_reply(9));
    assert_eq!(h.protocol_version, 5);
    h.advance(None);
    h.advance(number_reply(2));
    h.advance(Some(description(5, &[0])));
    assert_eq!(h.controllers.len(), 1);
    h.advance(None);
    assert!(matches!(h.action(), Action::Finish));
    assert_eq!(h.controllers.len(), 0);
    h.advance(number_reply(2));
    assert!(matches!(h.action(), Action::Finish));
    assert!(Client::connect(h, &settings()).is_none());

    let mut lost = Handshake::new();
    lost.advance(number_reply(5));
    lost.advance(None);
    lost.advance(None);
    assert!(matches!(lost.action(), Action::Finish));
}

#[test]
fn replies_begin_with_a_number() {
    assert_eq!(told_number(&[1, 2, 3]), 0);
    assert_eq!(told_number(&[1, 2, 0, 0, 99]), 0x201);
    assert_eq!(negotiated_version(&[3, 0, 0, 0]), 3);
    assert_eq!(negotiated_version(&[6, 0, 0, 0]), 5);
    assert_eq!(negotiated_version(&[]), 0);
}

#[test]
fn without_a_version_the_controllers_are_read_in_version_zero() {
    let mut h = Handshake::new();
    h.advance(None);
    h.advance(None);
    h.advance(number_reply(2));
    assert!(h.advance(Some(description(0, &[0]))).is_none());
    assert!(h.advance(Some(description(0, &[0, 1]))).is_none());
    assert!(matches!(h.action(), Action::Finish));
    assert_eq!(h.protocol_version, 0);
    assert_eq!(h.controllers.len(), 2);
    assert_eq!(h.controllers[1].name, "Board");
    assert_eq!(h.controllers[1].vendor, "");
}
