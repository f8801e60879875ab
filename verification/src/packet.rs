//! Packets of the OpenRGB protocol.
use crate::bytes::{
    bytes16, bytes32, bytes32_of_low_bits, bytes32_read_back, bytes_have_weights, le32, low32,
    numbers_are_written_low_byte_first, push16, push32, push_all, read32,
};
use crate::frame::Led;
use crate::openrgb::{Controller, Mode};
use crate::selection::direct_mode_of;
use vstd::prelude::*;
use vstd::slice::slice_subrange;

verus! {

/// The newest version of the protocol that is spoken here.
pub const CLIENT_PROTOCOL_VERSION: u32 = 5;

pub const REQUEST_CONTROLLER_COUNT: u32 = 0;

pub const REQUEST_CONTROLLER_DATA: u32 = 1;

pub const REQUEST_PROTOCOL_VERSION: u32 = 40;

pub const SET_CLIENT_NAME: u32 = 50;

pub const UPDATE_LEDS: u32 = 1050;

pub const SET_CUSTOM_MODE: u32 = 1100;

pub const UPDATE_MODE: u32 = 1101;

/// The size of the header of a packet.
pub const HEADER_SIZE: usize = 16;

// ---------------------------------------------------------------------------
// Framing
// ---------------------------------------------------------------------------
/// What every packet begins with: `ORGB`.
pub open spec fn magic() -> Seq<u8> {
    seq![0x4fu8, 0x52u8, 0x47u8, 0x42u8]
}

/// A packet: the magic, the number of the device, the kind of the packet and the size of the
/// data, then the data.
pub open spec fn packet_of(dev: u32, id: u32, data: Seq<u8>) -> Seq<u8> {
    magic() + bytes32(dev as int) + bytes32(id as int) + bytes32(data.len() as int) + data
}

/// The size of the data that follows a header, if it is a header.
pub open spec fn announced_size(header: Seq<u8>) -> Option<u32> {
    if header.take(4) == magic() {
        Some(le32(header.skip(12)))
    } else {
        None
    }
}

/// Builds a packet.
pub fn packet(dev: u32, id: u32, data: &[u8]) -> (r: Vec<u8>)
    ensures
        r@ == packet_of(dev, id, data@),
{
    let mut pkt: Vec<u8> = Vec::new();
    pkt.push(0x4f);
    pkt.push(0x52);
    pkt.push(0x47);
    pkt.push(0x42);
    assert(pkt@ =~= magic());
    push32(&mut pkt, dev);
    push32(&mut pkt, id);
    push32(&mut pkt, low32(data.len()));
    proof {
        bytes32_of_low_bits(data@.len() as int);
    }
    push_all(&mut pkt, data);
    pkt
}

/// Reads a header: the size of the data that follows.
pub fn response_size(header: &[u8]) -> (r: Result<usize, String>)
    requires
        header@.len() == HEADER_SIZE,
    ensures
        match r {
            Ok(size) => announced_size(header@) == Some(size as u32) && size <= u32::MAX,
            Err(e) => announced_size(header@) is None && e@ == "invalid OpenRGB packet magic"@,
        },
{
    if header[0] != 0x4f || header[1] != 0x52 || header[2] != 0x47 || header[3] != 0x42 {
        assert(header@.take(4)[0] != magic()[0] || header@.take(4)[1] != magic()[1]
            || header@.take(4)[2] != magic()[2] || header@.take(4)[3] != magic()[3]);
        return Err("invalid OpenRGB packet magic".to_string());
    }
    assert(header@.take(4) =~= magic());
    let rest = slice_subrange(header, 12, header.len());
    assert(rest@ =~= header@.skip(12));
    Ok(read32(rest) as usize)
}

/// What was put into a packet is what its header announces and what follows the header, as
/// long as the size of the data fits 32 bits.
pub proof fn packets_read_back(dev: u32, id: u32, data: Seq<u8>)
    requires
        data.len() <= u32::MAX,
    ensures
        packet_of(dev, id, data).len() == HEADER_SIZE + data.len(),
        announced_size(packet_of(dev, id, data).take(HEADER_SIZE as int)) == Some(
            data.len() as u32,
        ),
        packet_of(dev, id, data).skip(HEADER_SIZE as int) == data,
{
    let p = packet_of(dev, id, data);
    let header = p.take(16);
    assert(header.take(4) =~= magic());
    assert(header.skip(12) =~= bytes32(data.len() as int));
    bytes32_read_back(data.len() as u32);
    assert(p.skip(16) =~= data);
}

// ---------------------------------------------------------------------------
// LED colors
// ---------------------------------------------------------------------------
/// The bytes of the colors, one behind the other.
pub open spec fn color_bytes(leds: Seq<Led>) -> Seq<u8>
    decreases leds.len(),
{
    if leds.len() == 0 {
        Seq::empty()
    } else {
        color_bytes(leds.drop_last()) + leds.last()@
    }
}

/// The number of LEDs as a packet tells it, in 16 bits.
pub open spec fn told_leds(n: int) -> int {
    n % 0x1_0000
}

/// The data that sets all LEDs: its own size, the number of LEDs, and the colors.
pub open spec fn leds_data(leds: Seq<Led>) -> Seq<u8> {
    bytes32(6 + 4 * told_leds(leds.len() as int)) + bytes16(told_leds(leds.len() as int))
        + color_bytes(leds)
}

/// Builds the packet that sets all LEDs of a device.
pub fn leds_packet(dev: u32, leds: &[Led]) -> (r: Vec<u8>)
    ensures
        r@ == packet_of(dev, UPDATE_LEDS, leds_data(leds@)),
{
    let n: u16 = (low32(leds.len()) % 0x1_0000) as u16;
    assert(n == told_leds(leds@.len() as int));
    let data_size: u32 = 4 + 2 + (n as u32) * 4;
    let mut buf: Vec<u8> = Vec::new();
    push32(&mut buf, data_size);
    push16(&mut buf, n);
    let ghost head = buf@;
    let mut i: usize = 0;
    assert(leds@.take(0) =~= Seq::<Led>::empty());
    assert(head + color_bytes(leds@.take(0)) =~= head);
    while i < leds.len()
        invariant
            i <= leds.len(),
            buf@ == head + color_bytes(leds@.take(i as int)),
        decreases leds.len() - i,
    {
        assert(leds@.take(i + 1).drop_last() =~= leds@.take(i as int));
        let led: Led = leds[i];
        buf.push(led[0]);
        buf.push(led[1]);
        buf.push(led[2]);
        buf.push(led[3]);
        assert(led@ =~= seq![led[0], led[1], led[2], led[3]]);
        assert(buf@ =~= head + (color_bytes(leds@.take(i as int)) + led@));
        i += 1;
    }
    assert(leds@.take(i as int) =~= leds@);
    assert(head =~= bytes32(6 + 4 * told_leds(leds@.len() as int)) + bytes16(
        told_leds(leds@.len() as int),
    ));
    packet(dev, UPDATE_LEDS, buf.as_slice())
}

proof fn lemma_color_bytes_len(leds: Seq<Led>)
    ensures
        color_bytes(leds).len() == 4 * leds.len(),
    decreases leds.len(),
{
    if leds.len() > 0 {
        lemma_color_bytes_len(leds.drop_last());
    }
}

/// As long as the number of LEDs fits 16 bits, the data that sets them tells its own size and
/// the number of the LEDs, and holds every color.
pub proof fn leds_data_tells_its_size(leds: Seq<Led>)
    requires
        leds.len() <= u16::MAX,
    ensures
        leds_data(leds).len() == 6 + 4 * leds.len(),
        le32(leds_data(leds)) == leds_data(leds).len(),
        leds_data(leds).subrange(4, 6) == bytes16(leds.len() as int),
        leds_data(leds).skip(6) == color_bytes(leds),
{
    lemma_color_bytes_len(leds);
    let n = leds.len() as int;
    bytes32_read_back((6 + 4 * n) as u32);
    assert(leds_data(leds).take(4) =~= bytes32(6 + 4 * n));
    assert(leds_data(leds).subrange(4, 6) =~= bytes16(n));
    assert(leds_data(leds).skip(6) =~= color_bytes(leds));
}

// ---------------------------------------------------------------------------
// Modes
// ---------------------------------------------------------------------------
/// The data that activates a mode: its own size, the number of the mode, and its description.
pub open spec fn mode_data(index: int, description: Seq<u8>) -> Seq<u8> {
    bytes32((8 + description.len()) as int) + bytes32(index) + description
}

/// Builds the packet that asks a device for the mode in which it takes colors.
pub fn custom_mode_packet(dev: u32) -> (r: Vec<u8>)
    ensures
        r@ == packet_of(dev, SET_CUSTOM_MODE, Seq::empty()),
{
    let data: Vec<u8> = Vec::new();
    packet(dev, SET_CUSTOM_MODE, data.as_slice())
}

/// A size that wrapped around is told by the same bytes.
proof fn lemma_size_bytes(len: int, told: u32)
    requires
        0 <= len,
        told == (len % 0x1_0000_0000 + 8) % 0x1_0000_0000,
    ensures
        bytes32(told as int) == bytes32(8 + len),
{
    assert(told == (8 + len) % 0x1_0000_0000);
    bytes32_of_low_bits(8 + len);
}

/// Builds the data that activates a mode.
fn mode_bytes(mode: &Mode) -> (r: Vec<u8>)
    ensures
        r@ == mode_data(mode.index as int, mode.data@),
{
    let data_size: u32 = low32(mode.data.len()).wrapping_add(8);
    let index: u32 = low32(mode.index);
    let mut data: Vec<u8> = Vec::new();
    push32(&mut data, data_size);
    assert(data@ =~= bytes32(data_size as int));
    push32(&mut data, index);
    push_all(&mut data, mode.data.as_slice());
    proof {
        lemma_size_bytes(mode.data@.len() as int, data_size);
        bytes32_of_low_bits(mode.index as int);
    }
    data
}

/// Builds the packet that activates a mode of a device.
pub fn mode_packet(dev: u32, mode: &Mode) -> (r: Vec<u8>)
    ensures
        r@ == packet_of(dev, UPDATE_MODE, mode_data(mode.index as int, mode.data@)),
{
    let data = mode_bytes(mode);
    packet(dev, UPDATE_MODE, data.as_slice())
}

/// Builds the packet that activates the direct mode of a controller, if it has one.
pub fn direct_mode_packet(controller: &Controller) -> (r: Option<Vec<u8>>)
    ensures
        match (r, direct_mode_of(controller@.modes)) {
            (Some(p), Some(i)) => {
                let mode = controller@.modes[i];
                &&& 0 <= i < controller@.modes.len()
                &&& p@ == packet_of(controller.id, UPDATE_MODE, mode_data(mode.index, mode.data))
            },
            (None, None) => true,
            _ => false,
        },
{
    match controller.direct_mode() {
        Some(mode) => Some(mode_packet(controller.id, mode)),
        None => None,
    }
}

/// The data that activates a mode tells its own size.
pub proof fn mode_data_tells_its_size(index: int, description: Seq<u8>)
    requires
        8 + description.len() <= u32::MAX,
    ensures
        mode_data(index, description).len() == 8 + description.len(),
        le32(mode_data(index, description)) == mode_data(index, description).len(),
        mode_data(index, description).skip(8) == description,
{
    bytes32_read_back((8 + description.len()) as u32);
    assert(mode_data(index, description).take(4) =~= bytes32((8 + description.len()) as int));
    assert(mode_data(index, description).skip(8) =~= description);
}

// ---------------------------------------------------------------------------
// Where everything stands in a packet
// ---------------------------------------------------------------------------
/// The number that the four bytes from `at` on stand for, of which the first counts least.
pub open spec fn number_at(s: Seq<u8>, at: int) -> int {
    s[at] + 256 * s[at + 1] + 65_536 * s[at + 2] + 16_777_216 * s[at + 3]
}

proof fn lemma_number(n: int)
    requires
        0 <= n,
    ensures
        bytes32(n).len() == 4,
        number_at(bytes32(n), 0) == n % 4_294_967_296,
{
    let m = (n % 4_294_967_296) as u32;
    bytes32_of_low_bits(n);
    numbers_are_written_low_byte_first(0, m);
}

proof fn lemma_number_in(s: Seq<u8>, at: int, n: int)
    requires
        0 <= n,
        0 <= at,
        at + 4 <= s.len(),
        s.subrange(at, at + 4) == bytes32(n),
    ensures
        number_at(s, at) == n % 4_294_967_296,
{
    lemma_number(n);
    let b = s.subrange(at, at + 4);
    assert(b[0] == s[at] && b[1] == s[at + 1] && b[2] == s[at + 2] && b[3] == s[at + 3]);
}

/// A packet begins with `ORGB`; then come the number of the device, the kind of the packet and the
/// size of its data, each in four bytes, and the data.
pub proof fn packets_hold_what_they_are_made_of(dev: u32, id: u32, data: Seq<u8>)
    ensures
        packet_of(dev, id, data).len() == 16 + data.len(),
        packet_of(dev, id, data)[0] == 79,
        packet_of(dev, id, data)[1] == 82,
        packet_of(dev, id, data)[2] == 71,
        packet_of(dev, id, data)[3] == 66,
        number_at(packet_of(dev, id, data), 4) == dev,
        number_at(packet_of(dev, id, data), 8) == id,
        number_at(packet_of(dev, id, data), 12) == data.len() % 4_294_967_296,
        forall|i: int| 0 <= i < data.len() ==> packet_of(dev, id, data)[16 + i] == #[trigger] data[i],
{
    let p = packet_of(dev, id, data);
    assert(p.subrange(4, 8) =~= bytes32(dev as int));
    lemma_number_in(p, 4, dev as int);
    assert(p.subrange(8, 12) =~= bytes32(id as int));
    lemma_number_in(p, 8, id as int);
    assert(p.subrange(12, 16) =~= bytes32(data.len() as int));
    lemma_number_in(p, 12, data.len() as int);
}

/// A header of sixteen bytes announces data exactly where it begins with `ORGB`, and as much as its
/// last four bytes say.
pub proof fn headers_announce_their_last_number(header: Seq<u8>)
    requires
        header.len() == 16,
    ensures
        announced_size(header) is Some <==> header[0] == 79 && header[1] == 82 && header[2] == 71
            && header[3] == 66,
        announced_size(header) matches Some(n) ==> n == number_at(header, 12),
{
    let front = header.take(4);
    assert(front[0] == header[0] && front[1] == header[1] && front[2] == header[2] && front[3]
        == header[3]);
    if header[0] == 79 && header[1] == 82 && header[2] == 71 && header[3] == 66 {
        assert(front =~= magic());
    }
    bytes_have_weights(header.skip(12));
    let end = header.skip(12);
    assert(end[0] == header[12] && end[1] == header[13] && end[2] == header[14] && end[3]
        == header[15]);
}

/// The data that sets LEDs holds the four bytes of each, one LED behind the other, behind the size
/// of all and the number of LEDs, as far as two bytes can tell it.
pub proof fn leds_data_holds_every_color(leds: Seq<Led>, i: int, j: int)
    requires
        0 <= i < leds.len(),
        0 <= j < 4,
    ensures
        leds_data(leds).len() == 6 + 4 * leds.len(),
        number_at(leds_data(leds), 0) == 6 + 4 * (leds.len() % 65_536),
        leds_data(leds)[4] + 256 * leds_data(leds)[5] == leds.len() % 65_536,
        leds_data(leds)[6 + 4 * i + j] == leds[i][j],
{
    lemma_color_bytes_len(leds);
    let n = told_leds(leds.len() as int);
    let d = leds_data(leds);
    assert(d.subrange(0, 4) =~= bytes32(6 + 4 * n));
    lemma_number_in(d, 0, 6 + 4 * n);
    numbers_are_written_low_byte_first(n as u16, 0);
    assert(d[4] == bytes16(n)[0] && d[5] == bytes16(n)[1]);
    lemma_color_at(leds, i, j);
    assert(d[6 + 4 * i + j] == color_bytes(leds)[4 * i + j]);
}

proof fn lemma_color_at(leds: Seq<Led>, i: int, j: int)
    requires
        0 <= i < leds.len(),
        0 <= j < 4,
    ensures
        color_bytes(leds).len() == 4 * leds.len(),
        color_bytes(leds)[4 * i + j] == leds[i][j],
    decreases leds.len(),
{
    let front = leds.drop_last();
    lemma_color_bytes_len(leds);
    lemma_color_bytes_len(front);
    if i < front.len() {
        lemma_color_at(front, i, j);
    }
}

/// The data that activates a mode holds its own size, the number of the mode and its description.
pub proof fn mode_data_holds_the_mode(index: int, description: Seq<u8>)
    requires
        0 <= index,
    ensures
        mode_data(index, description).len() == 8 + description.len(),
        number_at(mode_data(index, description), 0) == (8 + description.len()) % 4_294_967_296,
        number_at(mode_data(index, description), 4) == index % 4_294_967_296,
        forall|i: int|
            0 <= i < description.len() ==> mode_data(index, description)[8 + i]
                == #[trigger] description[i],
{
    let d = mode_data(index, description);
    let size = (8 + description.len()) as int;
    lemma_number(size);
    lemma_number(index);
    assert(d.subrange(0, 4) =~= bytes32(size));
    lemma_number_in(d, 0, size);
    assert(d.subrange(4, 8) =~= bytes32(index));
    lemma_number_in(d, 4, index);
}

/// The kinds of packets have the numbers of the protocol, of which version 5 is spoken.
pub proof fn kinds_have_the_numbers_of_the_protocol()
    ensures
        CLIENT_PROTOCOL_VERSION == 5,
        REQUEST_CONTROLLER_COUNT == 0,
        REQUEST_CONTROLLER_DATA == 1,
        REQUEST_PROTOCOL_VERSION == 40,
        SET_CLIENT_NAME == 50,
        UPDATE_LEDS == 1050,
        SET_CUSTOM_MODE == 1100,
        UPDATE_MODE == 1101,
        HEADER_SIZE == 16,
{
}

} // verus!
