//! The message that describes a controller as a server writes it, and that it reads back.
use crate::bytes::le32;
use crate::cursor::{
    bytes_at, i32_at, items_at, skip_at, string_at, u16_at, u32_at, utf8_fault, words_at, Field,
};
use crate::message::{
    controller_in, first_led, first_led_is_first, led_at, led_reader, leds_at, leds_in_zone,
    matrix_at, mode_at, mode_reader, mode_words, modes_at, names_at, placed_before, placed_count,
    placed_zones, revision_at, segment_at, segment_reader, segments_at, vendor_at, zone_at,
    zone_flag_words, zone_reader, zones_at,
};
use crate::openrgb::{ControllerModel, ModeModel, ZoneModel};
use vstd::prelude::*;
use vstd::utf8::{
    decode_utf8, encode_utf8, encode_utf8_decode_utf8, encode_utf8_valid_utf8, valid_utf8,
};

verus! {

// ---------------------------------------------------------------------------
// What a server writes
// ---------------------------------------------------------------------------
/// A number below 65,536 in two bytes, the low one first.
pub open spec fn short(n: int) -> Seq<u8> {
    seq![(n % 256) as u8, (n / 256) as u8]
}

/// A number below 2^32 in four bytes, the lowest first.
pub open spec fn long(n: int) -> Seq<u8> {
    seq![
        (n % 256) as u8,
        (n / 256 % 256) as u8,
        (n / 65_536 % 256) as u8,
        (n / 16_777_216) as u8,
    ]
}

/// A signed number of 32 bits, in two's complement.
pub open spec fn signed_long(n: i32) -> Seq<u8> {
    long(if n >= 0 {
        n as int
    } else {
        n + 4_294_967_296
    })
}

/// A text: the number of its bytes and of the zero behind them, the bytes, and the zero.
pub open spec fn text(t: Seq<char>) -> Seq<u8> {
    short((encode_utf8(t).len() + 1) as int) + (encode_utf8(t) + seq![0u8])
}

/// The text is short enough to be written.
pub open spec fn is_writable(t: Seq<char>) -> bool {
    encode_utf8(t).len() < 65_535
}

/// Pieces one behind the other.
pub open spec fn joined(pieces: Seq<Seq<u8>>) -> Seq<u8>
    decreases pieces.len(),
{
    if pieces.len() == 0 {
        Seq::empty()
    } else {
        joined(pieces.drop_last()) + pieces.last()
    }
}

/// Several numbers of 32 bits.
pub open spec fn longs(numbers: Seq<u32>) -> Seq<u8> {
    joined(Seq::new(numbers.len(), |i: int| long(numbers[i] as int)))
}

/// A mode as a server knows it. `numbers` are its flags, limits and settings.
pub struct ModeSource {
    pub name: Seq<char>,
    pub value: i32,
    pub numbers: Seq<u32>,
    pub colors: Seq<u32>,
}

impl ModeSource {
    /// The mode can be written in a version: from version 3 on it has a brightness and its
    /// limits.
    pub open spec fn fits(self, version: u32) -> bool {
        &&& is_writable(self.name)
        &&& self.numbers.len() == if version >= 3 {
            11int
        } else {
            8int
        }
        &&& self.colors.len() <= 65_535
    }

    /// The mode as it is written.
    pub open spec fn written(self) -> Seq<u8> {
        text(self.name) + (signed_long(self.value) + (longs(self.numbers) + (short(
            self.colors.len() as int,
        ) + longs(self.colors))))
    }
}

/// A segment of a zone as a server knows it.
pub struct SegmentSource {
    pub name: Seq<char>,
    pub numbers: Seq<u32>,
}

impl SegmentSource {
    /// The segment can be written.
    pub open spec fn fits(self) -> bool {
        is_writable(self.name) && self.numbers.len() == 3
    }

    /// The segment as it is written.
    pub open spec fn written(self) -> Seq<u8> {
        text(self.name) + longs(self.numbers)
    }
}

/// A zone as a server knows it: its name, its type and limits, how many LEDs it has, its map if
/// they form a matrix, its segments and its flags.
pub struct ZoneSource {
    pub name: Seq<char>,
    pub numbers: Seq<u32>,
    pub leds: u32,
    pub map_size: u16,
    pub map: Seq<u8>,
    pub segments: Seq<SegmentSource>,
    pub flags: u32,
}

impl ZoneSource {
    /// The zone can be written. A map has a height and a width of four bytes each at least.
    pub open spec fn fits(self) -> bool {
        &&& is_writable(self.name)
        &&& self.numbers.len() == 3
        &&& self.map.len() == if self.map_size == 0 {
            0int
        } else if self.map_size < 8 {
            8int
        } else {
            self.map_size as int
        }
        &&& self.segments.len() <= 65_535
        &&& forall|i: int| 0 <= i < self.segments.len() ==> (#[trigger] self.segments[i]).fits()
    }

    /// The segments as they are written, from version 4 on.
    pub open spec fn written_segments(self, version: u32) -> Seq<u8> {
        if version >= 4 {
            short(self.segments.len() as int) + joined(
                Seq::new(self.segments.len(), |i: int| self.segments[i].written()),
            )
        } else {
            Seq::empty()
        }
    }

    /// The flags as they are written, from version 5 on.
    pub open spec fn written_flags(self, version: u32) -> Seq<u8> {
        if version >= 5 {
            long(self.flags as int)
        } else {
            Seq::empty()
        }
    }

    /// The zone as it is written.
    pub open spec fn written(self, version: u32) -> Seq<u8> {
        text(self.name) + (longs(self.numbers) + (long(self.leds as int) + (short(
            self.map_size as int,
        ) + (self.map + (self.written_segments(version) + self.written_flags(version))))))
    }
}

/// An LED as a server knows it: its name and the zone that it names.
pub struct LedSource {
    pub name: Seq<char>,
    pub zone: u32,
}

impl LedSource {
    /// The LED as it is written.
    pub open spec fn written(self) -> Seq<u8> {
        text(self.name) + long(self.zone as int)
    }
}

/// A controller as a server knows it.
pub struct ControllerSource {
    pub size: u32,
    pub device_type: u32,
    pub name: Seq<char>,
    pub vendor: Seq<char>,
    pub description: Seq<char>,
    pub revision: Seq<char>,
    pub serial: Seq<char>,
    pub location: Seq<char>,
    pub active_mode: i32,
    pub modes: Seq<ModeSource>,
    pub zones: Seq<ZoneSource>,
    pub leds: Seq<LedSource>,
}

impl ControllerSource {
    /// The controller can be written in a version: its texts and counts fit their fields.
    pub open spec fn fits(self, version: u32) -> bool {
        &&& is_writable(self.name)
        &&& is_writable(self.vendor)
        &&& is_writable(self.description)
        &&& is_writable(self.revision)
        &&& is_writable(self.serial)
        &&& is_writable(self.location)
        &&& self.modes.len() <= 65_535
        &&& self.zones.len() <= 65_535
        &&& self.leds.len() <= 65_535
        &&& forall|i: int| 0 <= i < self.modes.len() ==> (#[trigger] self.modes[i]).fits(version)
        &&& forall|i: int| 0 <= i < self.zones.len() ==> (#[trigger] self.zones[i]).fits()
        &&& forall|i: int| 0 <= i < self.leds.len() ==> is_writable((#[trigger] self.leds[i]).name)
        &&& self.written(version).len() <= usize::MAX
    }

    /// The size of the message, the type of the device, and the names as they are written: the
    /// vendor from version 1 on.
    #[verifier::opaque]
    pub open spec fn written_names(self, version: u32) -> Seq<u8> {
        longs(seq![self.size, self.device_type]) + (text(self.name) + ((if version >= 1 {
            text(self.vendor)
        } else {
            Seq::empty()
        }) + (text(self.description) + (text(self.revision) + (text(self.serial) + text(
            self.location,
        ))))))
    }

    /// The modes as they are written.
    #[verifier::opaque]
    pub open spec fn written_modes(self) -> Seq<u8> {
        short(self.modes.len() as int) + (signed_long(self.active_mode) + joined(
            Seq::new(self.modes.len(), |i: int| self.modes[i].written()),
        ))
    }

    /// The zones as they are written.
    #[verifier::opaque]
    pub open spec fn written_zones(self, version: u32) -> Seq<u8> {
        short(self.zones.len() as int) + joined(
            Seq::new(self.zones.len(), |i: int| self.zones[i].written(version)),
        )
    }

    /// The LEDs as they are written.
    #[verifier::opaque]
    pub open spec fn written_leds(self) -> Seq<u8> {
        short(self.leds.len() as int) + joined(
            Seq::new(self.leds.len(), |i: int| self.leds[i].written()),
        )
    }

    /// The message.
    pub open spec fn written(self, version: u32) -> Seq<u8> {
        self.written_names(version) + (self.written_modes() + (self.written_zones(version)
            + self.written_leds()))
    }
}

// ---------------------------------------------------------------------------
// Reading it back
// ---------------------------------------------------------------------------
/// `piece` stands in `data` from `at` on.
pub open spec fn holds_at(data: Seq<u8>, at: nat, piece: Seq<u8>) -> bool {
    &&& data.len() <= usize::MAX
    &&& at + piece.len() <= data.len()
    &&& data.subrange(at as int, (at + piece.len()) as int) == piece
}

proof fn lemma_parts(data: Seq<u8>, at: nat, a: Seq<u8>, b: Seq<u8>)
    requires
        holds_at(data, at, a + b),
    ensures
        holds_at(data, at, a),
        holds_at(data, at + a.len(), b),
{
    let whole = data.subrange(at as int, (at + a.len() + b.len()) as int);
    assert(whole == a + b);
    assert(data.subrange(at as int, (at + a.len()) as int) =~= a) by {
        assert forall|i: int| 0 <= i < a.len() implies data[at + i] == a[i] by {
            assert(whole[i] == (a + b)[i]);
        }
    }
    assert(data.subrange((at + a.len()) as int, (at + a.len() + b.len()) as int) =~= b) by {
        assert forall|i: int| 0 <= i < b.len() implies data[at + a.len() + i] == b[i] by {
            assert(whole[a.len() + i] == (a + b)[a.len() + i]);
        }
    }
}

/// Two bytes give the number below 65,536 that was written.
pub proof fn short_numbers_read_back(data: Seq<u8>, at: nat, n: int)
    requires
        0 <= n < 65_536,
        holds_at(data, at, short(n)),
    ensures
        u16_at(data, at) == (Ok::<u16, Seq<char>>(n as u16), at + 2),
{
    assert(bytes_at(data, at, 2) == (Ok::<Seq<u8>, Seq<char>>(short(n)), at + 2));
}

/// Four bytes give the number below 2^32 that was written.
pub proof fn long_numbers_read_back(data: Seq<u8>, at: nat, n: int)
    requires
        0 <= n < 4_294_967_296,
        holds_at(data, at, long(n)),
    ensures
        u32_at(data, at) == (Ok::<u32, Seq<char>>(n as u32), at + 4),
{
    lemma_long(n);
    assert(bytes_at(data, at, 4) == (Ok::<Seq<u8>, Seq<char>>(long(n)), at + 4));
}

#[verifier::spinoff_prover]
proof fn lemma_long(n: int)
    requires
        0 <= n < 4_294_967_296,
    ensures
        le32(long(n)) == n,
        long(n).len() == 4,
{
    lemma_digits(n);
    assert(long(n)[0] == n % 256);
    assert(long(n)[1] == n / 256 % 256);
    assert(long(n)[2] == n / 65_536 % 256);
    assert(long(n)[3] == n / 16_777_216);
}

#[verifier::spinoff_prover]
proof fn lemma_digits(n: int)
    requires
        0 <= n < 4_294_967_296,
    ensures
        n == n % 256 + 256 * (n / 256 % 256) + 65_536 * (n / 65_536 % 256) + 16_777_216 * (n
            / 16_777_216),
        0 <= n / 16_777_216 < 256,
{
}

/// Four bytes give the signed number that was written.
pub proof fn signed_numbers_read_back(data: Seq<u8>, at: nat, n: i32)
    requires
        holds_at(data, at, signed_long(n)),
    ensures
        i32_at(data, at) == (Ok::<i32, Seq<char>>(n), at + 4),
{
    let m = if n >= 0 {
        n as int
    } else {
        n + 4_294_967_296
    };
    long_numbers_read_back(data, at, m);
}

/// A text that was written with a zero behind it is read without the zero.
pub proof fn texts_read_back(data: Seq<u8>, at: nat, t: Seq<char>)
    requires
        is_writable(t),
        holds_at(data, at, text(t)),
    ensures
        string_at(data, at) == (Ok::<Seq<char>, Seq<char>>(t), at + 3 + encode_utf8(t).len()),
{
    let bytes = encode_utf8(t) + seq![0u8];
    let n = encode_utf8(t).len() + 1;
    lemma_parts(data, at, short(n as int), bytes);
    short_numbers_read_back(data, at, n as int);
    assert(bytes.drop_last() =~= encode_utf8(t));
    encode_utf8_valid_utf8(t);
    encode_utf8_decode_utf8(t);
}

/// Of the bytes of a text one zero at the end does not count; the others are its UTF-8, or it is
/// said what is wrong with them. A size of 0 is an empty text.
pub proof fn texts_are_utf8(data: Seq<u8>, at: nat, bytes: Seq<u8>)
    requires
        bytes.len() < 65_536,
        holds_at(data, at, short(bytes.len() as int) + bytes),
    ensures
        bytes.len() == 0 ==> string_at(data, at) == (
            Ok::<Seq<char>, Seq<char>>(Seq::empty()),
            at + 2,
        ),
        bytes.len() > 0 && bytes.last() != 0 && valid_utf8(bytes) ==> string_at(data, at) == (
            Ok::<Seq<char>, Seq<char>>(decode_utf8(bytes)),
            at + 2 + bytes.len(),
        ),
        bytes.len() > 0 && bytes.last() != 0 && !valid_utf8(bytes) ==> string_at(data, at) == (
            Err::<Seq<char>, Seq<char>>(utf8_fault(bytes)),
            at + 2 + bytes.len(),
        ),
        bytes.len() > 0 && bytes.last() == 0 && !valid_utf8(bytes.drop_last()) ==> string_at(
            data,
            at,
        ) == (
            Err::<Seq<char>, Seq<char>>(utf8_fault(bytes.drop_last())),
            at + 2 + bytes.len(),
        ),
        bytes.len() > 0 && bytes.last() == 0 && valid_utf8(bytes.drop_last()) ==> string_at(
            data,
            at,
        ) == (
            Ok::<Seq<char>, Seq<char>>(decode_utf8(bytes.drop_last())),
            at + 2 + bytes.len(),
        ),
{
    lemma_parts(data, at, short(bytes.len() as int), bytes);
    short_numbers_read_back(data, at, bytes.len() as int);
}

proof fn lemma_items_read<T>(
    data: Seq<u8>,
    at: nat,
    pieces: Seq<Seq<u8>>,
    values: Seq<T>,
    item: spec_fn(nat, nat) -> Field<T>,
)
    requires
        holds_at(data, at, joined(pieces)),
        pieces.len() == values.len(),
        forall|p: nat, i: nat|
            i < pieces.len() && holds_at(data, p, pieces[i as int]) ==> #[trigger] item(p, i) == (
                Ok::<T, Seq<char>>(values[i as int]),
                p + pieces[i as int].len(),
            ),
    ensures
        items_at(item, at, pieces.len()) == (
            Ok::<Seq<T>, Seq<char>>(values),
            at + joined(pieces).len(),
        ),
    decreases pieces.len(),
{
    if pieces.len() > 0 {
        let n = (pieces.len() - 1) as nat;
        let front = pieces.drop_last();
        lemma_parts(data, at, joined(front), pieces.last());
        assert forall|p: nat, i: nat|
            i < front.len() && holds_at(data, p, front[i as int]) implies #[trigger] item(p, i) == (
            Ok::<T, Seq<char>>(values.drop_last()[i as int]),
            p + front[i as int].len(),
        ) by {
            assert(front[i as int] == pieces[i as int]);
        }
        lemma_items_read(data, at, front, values.drop_last(), item);
        let p = at + joined(front).len();
        assert(item(p, n) == (Ok::<T, Seq<char>>(values.last()), p + pieces.last().len()));
        assert(values.drop_last().push(values.last()) =~= values);
    } else {
        assert(values =~= Seq::empty());
    }
}

proof fn lemma_longs_read(data: Seq<u8>, at: nat, numbers: Seq<u32>)
    requires
        holds_at(data, at, longs(numbers)),
    ensures
        words_at(data, at, numbers.len()) == (Ok::<(), Seq<char>>(()), at + 4 * numbers.len()),
        longs(numbers).len() == 4 * numbers.len(),
    decreases numbers.len(),
{
    let pieces = Seq::new(numbers.len(), |i: int| long(numbers[i] as int));
    if numbers.len() > 0 {
        let rest = numbers.drop_first();
        lemma_longs_front(numbers);
        lemma_parts(data, at, long(numbers[0] as int), longs(rest));
        long_numbers_read_back(data, at, numbers[0] as int);
        lemma_longs_read(data, at + 4, rest);
    } else {
        assert(pieces =~= Seq::empty());
    }
}

proof fn lemma_longs_front(numbers: Seq<u32>)
    requires
        numbers.len() > 0,
    ensures
        longs(numbers) == long(numbers[0] as int) + longs(numbers.drop_first()),
    decreases numbers.len(),
{
    let pieces = Seq::new(numbers.len(), |i: int| long(numbers[i] as int));
    let rest = numbers.drop_first();
    let front = numbers.drop_last();
    assert(pieces.drop_last() =~= Seq::new(front.len(), |i: int| long(front[i] as int)));
    let rest_pieces = Seq::new(rest.len(), |i: int| long(rest[i] as int));
    if numbers.len() == 1 {
        assert(rest_pieces =~= Seq::empty());
        assert(pieces.drop_last() =~= Seq::empty());
        assert(longs(numbers) =~= long(numbers[0] as int) + longs(rest));
    } else {
        lemma_longs_front(front);
        assert(rest_pieces.drop_last() =~= Seq::new(
            front.drop_first().len(),
            |i: int| long(front.drop_first()[i] as int),
        ));
        assert(longs(numbers) =~= long(numbers[0] as int) + longs(rest));
    }
}

#[verifier::spinoff_prover]
#[verifier::rlimit(50)]
proof fn lemma_mode_read(data: Seq<u8>, at: nat, version: u32, index: nat, mode: ModeSource)
    requires
        mode.fits(version),
        holds_at(data, at, mode.written()),
    ensures
        mode_at(data, at, version, index) == (
            Ok::<ModeModel, Seq<char>>(mode_model(mode, index as int)),
            at + mode.written().len(),
        ),
{
    let colors = short(mode.colors.len() as int) + longs(mode.colors);
    let numbers = longs(mode.numbers) + colors;
    let value = signed_long(mode.value) + numbers;
    lemma_parts(data, at, text(mode.name), value);
    texts_read_back(data, at, mode.name);
    let p = at + text(mode.name).len();
    lemma_parts(data, p, signed_long(mode.value), numbers);
    signed_numbers_read_back(data, p, mode.value);
    lemma_parts(data, p + 4, longs(mode.numbers), colors);
    lemma_longs_read(data, p + 4, mode.numbers);
    let q = p + 4 + 4 * mode.numbers.len();
    lemma_parts(data, q, short(mode.colors.len() as int), longs(mode.colors));
    short_numbers_read_back(data, q, mode.colors.len() as int);
    lemma_longs_read(data, q + 2, mode.colors);
    let end = q + 2 + 4 * mode.colors.len();
    assert(skip_at(data, q + 2, 4 * mode.colors.len()) == (Ok::<(), Seq<char>>(()), end));
    assert(end == at + mode.written().len());
}

/// The mode of the given number as it is read.
pub open spec fn mode_model(mode: ModeSource, index: int) -> ModeModel {
    ModeModel { index, name: mode.name, value: mode.value as int, data: mode.written() }
}

proof fn lemma_map_read(data: Seq<u8>, at: nat, size: u16, map: Seq<u8>)
    requires
        map.len() == if size == 0 {
            0int
        } else if size < 8 {
            8int
        } else {
            size as int
        },
        holds_at(data, at, map),
    ensures
        matrix_at(data, at, size) == (Ok::<(), Seq<char>>(()), at + map.len()),
{
    if size > 0 {
        reveal_with_fuel(words_at, 3);
        assert(bytes_at(data, at, 4).0 is Ok);
        assert(bytes_at(data, at + 4, 4).0 is Ok);
        assert(words_at(data, at, 2) == (Ok::<(), Seq<char>>(()), at + 8));
    }
}

proof fn lemma_segments_read(data: Seq<u8>, at: nat, version: u32, zone: ZoneSource)
    requires
        zone.fits(),
        holds_at(data, at, zone.written_segments(version)),
    ensures
        segments_at(data, at, version) == (
            Ok::<(), Seq<char>>(()),
            at + zone.written_segments(version).len(),
        ),
{
    if version >= 4 {
        let n = zone.segments.len();
        let pieces = Seq::new(n, |i: int| zone.segments[i].written());
        let values = Seq::new(n, |i: int| ());
        lemma_parts(data, at, short(n as int), joined(pieces));
        short_numbers_read_back(data, at, n as int);
        let item = segment_reader(data);
        assert forall|p: nat, i: nat|
            i < pieces.len() && holds_at(data, p, pieces[i as int]) implies #[trigger] item(p, i)
            == (Ok::<(), Seq<char>>(values[i as int]), p + pieces[i as int].len()) by {
            let segment = zone.segments[i as int];
            lemma_parts(data, p, text(segment.name), longs(segment.numbers));
            texts_read_back(data, p, segment.name);
            lemma_longs_read(data, p + text(segment.name).len(), segment.numbers);
            assert(item(p, i) == segment_at(data, p));
        }
        lemma_items_read(data, at + 2, pieces, values, item);
    }
}

/// The zone of the given number as it describes itself.
pub open spec fn zone_model(zone: ZoneSource, index: int) -> ZoneModel {
    ZoneModel { index, name: zone.name, start: 0, count: zone.leds as int }
}

#[verifier::spinoff_prover]
#[verifier::rlimit(50)]
proof fn lemma_zone_read(data: Seq<u8>, at: nat, version: u32, index: nat, zone: ZoneSource)
    requires
        zone.fits(),
        holds_at(data, at, zone.written(version)),
    ensures
        zone_at(data, at, version, index) == (
            Ok::<ZoneModel, Seq<char>>(zone_model(zone, index as int)),
            at + zone.written(version).len(),
        ),
{
    let segments = zone.written_segments(version);
    let flags = zone.written_flags(version);
    let map = zone.map + (segments + flags);
    let size = short(zone.map_size as int) + map;
    let leds = long(zone.leds as int) + size;
    let numbers = longs(zone.numbers) + leds;
    lemma_parts(data, at, text(zone.name), numbers);
    texts_read_back(data, at, zone.name);
    let p = at + text(zone.name).len();
    lemma_parts(data, p, longs(zone.numbers), leds);
    lemma_longs_read(data, p, zone.numbers);
    lemma_parts(data, p + 12, long(zone.leds as int), size);
    long_numbers_read_back(data, p + 12, zone.leds as int);
    lemma_parts(data, p + 16, short(zone.map_size as int), map);
    short_numbers_read_back(data, p + 16, zone.map_size as int);
    lemma_parts(data, p + 18, zone.map, segments + flags);
    lemma_map_read(data, p + 18, zone.map_size, zone.map);
    let q = p + 18 + zone.map.len();
    lemma_parts(data, q, segments, flags);
    lemma_segments_read(data, q, version, zone);
    let e = q + segments.len();
    reveal_with_fuel(words_at, 2);
    if version >= 5 {
        long_numbers_read_back(data, e, zone.flags as int);
    }
}

#[verifier::spinoff_prover]
#[verifier::rlimit(50)]
proof fn lemma_names_read(data: Seq<u8>, version: u32, c: ControllerSource)
    requires
        c.fits(version),
        holds_at(data, 0, c.written_names(version)),
    ensures
        names_at(data, version) == (
            Ok::<(Seq<char>, Seq<char>, Seq<char>, Seq<char>), Seq<char>>(
                (
                    c.name,
                    if version >= 1 {
                        c.vendor
                    } else {
                        Seq::empty()
                    },
                    c.description,
                    c.location,
                ),
            ),
            c.written_names(version).len(),
        ),
{
    reveal(ControllerSource::written_names);
    let head = seq![c.size, c.device_type];
    let vendor = if version >= 1 {
        text(c.vendor)
    } else {
        Seq::empty()
    };
    let r4 = text(c.serial) + text(c.location);
    let r3 = text(c.revision) + r4;
    let r2 = text(c.description) + r3;
    let r1 = vendor + r2;
    let r0 = text(c.name) + r1;
    lemma_parts(data, 0, longs(head), r0);
    lemma_longs_read(data, 0, head);
    lemma_text_then(data, 8, c.name, r1);
    let p1 = 8 + text(c.name).len();
    lemma_parts(data, p1, vendor, r2);
    if version >= 1 {
        texts_read_back(data, p1, c.vendor);
        lemma_text_len(c.vendor);
    }
    let p2 = p1 + vendor.len();
    assert(vendor_at(data, p1, version).1 == p2);
    lemma_later_names(data, p2, c);
    lemma_sums(longs(head), text(c.name), vendor, r2);
}

proof fn lemma_sums(a: Seq<u8>, b: Seq<u8>, c: Seq<u8>, d: Seq<u8>)
    ensures
        (a + (b + (c + d))).len() == a.len() + b.len() + c.len() + d.len(),
{
}

proof fn lemma_text_len(t: Seq<char>)
    ensures
        text(t).len() == encode_utf8(t).len() + 3,
{
}

proof fn lemma_text_then(data: Seq<u8>, at: nat, t: Seq<char>, rest: Seq<u8>)
    requires
        is_writable(t),
        holds_at(data, at, text(t) + rest),
    ensures
        string_at(data, at) == (Ok::<Seq<char>, Seq<char>>(t), at + text(t).len()),
        holds_at(data, at + text(t).len(), rest),
{
    lemma_parts(data, at, text(t), rest);
    texts_read_back(data, at, t);
    lemma_text_len(t);
}

proof fn lemma_later_names(data: Seq<u8>, at: nat, c: ControllerSource)
    requires
        is_writable(c.description),
        is_writable(c.revision),
        is_writable(c.serial),
        is_writable(c.location),
        holds_at(
            data,
            at,
            text(c.description) + (text(c.revision) + (text(c.serial) + text(c.location))),
        ),
    ensures
        string_at(data, at) == (
            Ok::<Seq<char>, Seq<char>>(c.description),
            at + text(c.description).len(),
        ),
        ({
            let p = at + text(c.description).len();
            let q = p + text(c.revision).len() + text(c.serial).len();
            &&& revision_at(data, p) == (Ok::<(), Seq<char>>(()), q)
            &&& string_at(data, q) == (
                Ok::<Seq<char>, Seq<char>>(c.location),
                q + text(c.location).len(),
            )
        }),
{
    let r4 = text(c.serial) + text(c.location);
    let r3 = text(c.revision) + r4;
    lemma_text_then(data, at, c.description, r3);
    let p = at + text(c.description).len();
    lemma_text_then(data, p, c.revision, r4);
    let q = p + text(c.revision).len();
    lemma_text_then(data, q, c.serial, text(c.location));
    texts_read_back(data, q + text(c.serial).len(), c.location);
    lemma_text_len(c.location);
}

proof fn lemma_modes_read(data: Seq<u8>, at: nat, version: u32, c: ControllerSource)
    requires
        c.fits(version),
        holds_at(data, at, c.written_modes()),
    ensures
        modes_at(data, at, version) == (
            Ok::<(i32, Seq<ModeModel>), Seq<char>>(
                (
                    c.active_mode,
                    Seq::new(c.modes.len(), |i: int| mode_model(c.modes[i], i)),
                ),
            ),
            at + c.written_modes().len(),
        ),
{
    reveal(ControllerSource::written_modes);
    let n = c.modes.len();
    let pieces = Seq::new(n, |i: int| c.modes[i].written());
    let values = Seq::new(n, |i: int| mode_model(c.modes[i], i));
    lemma_parts(data, at, short(n as int), signed_long(c.active_mode) + joined(pieces));
    short_numbers_read_back(data, at, n as int);
    lemma_parts(data, at + 2, signed_long(c.active_mode), joined(pieces));
    signed_numbers_read_back(data, at + 2, c.active_mode);
    let item = mode_reader(data, version);
    assert forall|p: nat, i: nat|
        i < pieces.len() && holds_at(data, p, pieces[i as int]) implies #[trigger] item(p, i) == (
        Ok::<ModeModel, Seq<char>>(values[i as int]),
        p + pieces[i as int].len(),
    ) by {
        lemma_mode_read(data, p, version, i, c.modes[i as int]);
    }
    lemma_items_read(data, at + 6, pieces, values, item);
}

proof fn lemma_zones_read(data: Seq<u8>, at: nat, version: u32, c: ControllerSource)
    requires
        c.fits(version),
        holds_at(data, at, c.written_zones(version)),
    ensures
        zones_at(data, at, version) == (
            Ok::<Seq<ZoneModel>, Seq<char>>(zone_models_of(c)),
            at + c.written_zones(version).len(),
        ),
{
    reveal(ControllerSource::written_zones);
    let n = c.zones.len();
    let pieces = Seq::new(n, |i: int| c.zones[i].written(version));
    let values = zone_models_of(c);
    lemma_parts(data, at, short(n as int), joined(pieces));
    short_numbers_read_back(data, at, n as int);
    let item = zone_reader(data, version);
    assert forall|p: nat, i: nat|
        i < pieces.len() && holds_at(data, p, pieces[i as int]) implies #[trigger] item(p, i) == (
        Ok::<ZoneModel, Seq<char>>(values[i as int]),
        p + pieces[i as int].len(),
    ) by {
        lemma_zone_read(data, p, version, i, c.zones[i as int]);
    }
    lemma_items_read(data, at + 2, pieces, values, item);
}

proof fn lemma_leds_read(data: Seq<u8>, at: nat, version: u32, c: ControllerSource)
    requires
        c.fits(version),
        holds_at(data, at, c.written_leds()),
    ensures
        leds_at(data, at) == (
            Ok::<Seq<u32>, Seq<char>>(led_zones(c)),
            at + c.written_leds().len(),
        ),
{
    reveal(ControllerSource::written_leds);
    let n = c.leds.len();
    let pieces = Seq::new(n, |i: int| c.leds[i].written());
    let values = led_zones(c);
    lemma_parts(data, at, short(n as int), joined(pieces));
    short_numbers_read_back(data, at, n as int);
    let item = led_reader(data);
    assert forall|p: nat, i: nat|
        i < pieces.len() && holds_at(data, p, pieces[i as int]) implies #[trigger] item(p, i) == (
        Ok::<u32, Seq<char>>(values[i as int]),
        p + pieces[i as int].len(),
    ) by {
        let led = c.leds[i as int];
        lemma_parts(data, p, text(led.name), long(led.zone as int));
        texts_read_back(data, p, led.name);
        long_numbers_read_back(data, p + text(led.name).len(), led.zone as int);
        assert(item(p, i) == led_at(data, p));
    }
    lemma_items_read(data, at + 2, pieces, values, item);
}

// ---------------------------------------------------------------------------
// The law
// ---------------------------------------------------------------------------
/// How many LEDs some zones have together.
pub open spec fn leds_together(zones: Seq<ZoneModel>) -> int {
    zones.fold_left(0int, |sum: int, zone: ZoneModel| sum + zone.count)
}

/// The zone of number `z` has its place among the LEDs: if some of them name it, it begins with the
/// first that does and has as many as do; otherwise it keeps its own size and begins behind as
/// many LEDs as the zones before it have together, as a machine counts them.
pub open spec fn is_placed(zones: Seq<ZoneModel>, c: ControllerSource, z: int) -> bool {
    let zone = zones[z];
    let own = c.leds.filter(|led: LedSource| led.zone == z);
    if own.len() > 0 {
        &&& zone.count == own.len()
        &&& 0 <= zone.start < c.leds.len()
        &&& c.leds[zone.start].zone == z
        &&& forall|i: int| 0 <= i < zone.start ==> (#[trigger] c.leds[i]).zone != z
    } else {
        &&& zone.count == c.zones[z].leds
        &&& zone.start == leds_together(zones.take(z)) % (usize::MAX + 1)
    }
}

/// What a server writes of a controller, in any version, is what is read: its texts (a vendor from
/// version 1 on), its active mode, each mode with its bytes as they were written, as many LEDs as
/// there are, and each zone with its place among them. Whatever follows makes no difference.
pub proof fn written_controllers_read_back(
    id: u32,
    version: u32,
    c: ControllerSource,
    rest: Seq<u8>,
)
    requires
        c.fits(version),
        (c.written(version) + rest).len() <= usize::MAX,
    ensures
        controller_in(id, version, c.written(version) + rest) matches Ok(r) && {
            &&& r.id == id
            &&& r.name == c.name
            &&& r.vendor == if version >= 1 {
                c.vendor
            } else {
                Seq::empty()
            }
            &&& r.description == c.description
            &&& r.location == c.location
            &&& r.active_mode == c.active_mode
            &&& r.led_count == c.leds.len()
            &&& r.modes.len() == c.modes.len()
            &&& forall|i: int|
                0 <= i < c.modes.len() ==> {
                    &&& (#[trigger] r.modes[i]).index == i
                    &&& r.modes[i].name == c.modes[i].name
                    &&& r.modes[i].value == c.modes[i].value
                    &&& r.modes[i].data == c.modes[i].written()
                }
            &&& r.zones.len() == c.zones.len()
            &&& forall|z: int|
                0 <= z < c.zones.len() ==> {
                    &&& (#[trigger] r.zones[z]).index == z
                    &&& r.zones[z].name == c.zones[z].name
                    &&& is_placed(r.zones, c, z)
                }
        },
{
    lemma_message_read(id, version, c, rest);
    assert forall|z: int| 0 <= z < c.zones.len() implies is_placed(
        placed_zones(zone_models_of(c), led_zones(c)),
        c,
        z,
    ) by {
        lemma_placed(c, z);
    }
}

/// The zones as they describe themselves.
pub open spec fn zone_models_of(c: ControllerSource) -> Seq<ZoneModel> {
    Seq::new(c.zones.len(), |i: int| zone_model(c.zones[i], i))
}

/// The zone that each LED names.
pub open spec fn led_zones(c: ControllerSource) -> Seq<u32> {
    Seq::new(c.leds.len(), |i: int| c.leds[i].zone)
}

proof fn lemma_placed(c: ControllerSource, z: int)
    requires
        0 <= z < c.zones.len(),
        c.leds.len() <= 65_535,
    ensures
        is_placed(placed_zones(zone_models_of(c), led_zones(c)), c, z),
{
    lemma_own_leds(c.leds, led_zones(c), z);
    first_led_is_first(led_zones(c), z);
    lemma_together(zone_models_of(c), led_zones(c), z);
    let leds = led_zones(c);
    let placed = placed_zones(zone_models_of(c), leds);
    assert(leds_in_zone(leds, z) == c.leds.filter(|led: LedSource| led.zone == z).len());
    assert(placed[z].count == placed_count(zone_models_of(c), leds, z));
    assert forall|i: int| 0 <= i < first_led(leds, z) implies (#[trigger] c.leds[i]).zone != z by {
        assert(leds[i] != z);
    }
    if leds_in_zone(leds, z) > 0 {
        assert(leds[first_led(leds, z) as int] == z);
        assert(placed[z].start == first_led(leds, z));
    } else {
        assert(placed[z].start == placed_before(zone_models_of(c), leds, z));
        assert(placed[z].count == c.zones[z].leds);
    }
}

#[verifier::rlimit(60)]
proof fn lemma_message_read(id: u32, version: u32, c: ControllerSource, rest: Seq<u8>)
    requires
        c.fits(version),
        (c.written(version) + rest).len() <= usize::MAX,
    ensures
        controller_in(id, version, c.written(version) + rest) == Ok::<ControllerModel, Seq<char>>(
            ControllerModel {
                id,
                name: c.name,
                vendor: if version >= 1 {
                    c.vendor
                } else {
                    Seq::empty()
                },
                description: c.description,
                location: c.location,
                active_mode: c.active_mode,
                modes: Seq::new(c.modes.len(), |i: int| mode_model(c.modes[i], i)),
                led_count: c.leds.len() as int,
                zones: placed_zones(zone_models_of(c), led_zones(c)),
            },
        ),
{
    let data = c.written(version) + rest;
    let names = c.written_names(version);
    let modes = c.written_modes();
    let zones = c.written_zones(version);
    lemma_four_parts(names, modes, zones, c.written_leds(), rest);
    lemma_names_read(data, version, c);
    lemma_modes_read(data, names.len(), version, c);
    lemma_zones_read(data, names.len() + modes.len(), version, c);
    lemma_leds_read(data, names.len() + modes.len() + zones.len(), version, c);
}

proof fn lemma_four_parts(a: Seq<u8>, b: Seq<u8>, c: Seq<u8>, d: Seq<u8>, rest: Seq<u8>)
    requires
        (a + (b + (c + d)) + rest).len() <= usize::MAX,
    ensures
        ({
            let data = a + (b + (c + d)) + rest;
            &&& holds_at(data, 0, a)
            &&& holds_at(data, a.len(), b)
            &&& holds_at(data, a.len() + b.len(), c)
            &&& holds_at(data, a.len() + b.len() + c.len(), d)
        }),
{
    let data = a + (b + (c + d)) + rest;
    assert(data.subrange(0, a.len() as int) =~= a);
    assert(data.subrange(a.len() as int, (a.len() + b.len()) as int) =~= b);
    let p = a.len() + b.len();
    assert(data.subrange(p as int, (p + c.len()) as int) =~= c);
    let q = p + c.len();
    assert(data.subrange(q as int, (q + d.len()) as int) =~= d);
}

proof fn lemma_own_leds(sources: Seq<LedSource>, leds: Seq<u32>, z: int)
    requires
        leds.len() == sources.len(),
        forall|i: int| 0 <= i < leds.len() ==> #[trigger] leds[i] == sources[i].zone,
    ensures
        leds_in_zone(leds, z) == sources.filter(|led: LedSource| led.zone == z).len(),
    decreases leds.len(),
{
    reveal(Seq::filter);
    if leds.len() > 0 {
        lemma_own_leds(sources.drop_last(), leds.drop_last(), z);
    }
}

proof fn lemma_together(zones: Seq<ZoneModel>, leds: Seq<u32>, z: int)
    requires
        0 <= z <= zones.len(),
        leds.len() <= 65_535,
        forall|i: int| 0 <= i < zones.len() ==> 0 <= (#[trigger] zones[i]).count <= u32::MAX,
    ensures
        placed_before(zones, leds, z) == leds_together(placed_zones(zones, leds).take(z)) % (
        usize::MAX + 1),
        0 <= leds_together(placed_zones(zones, leds).take(z)),
    decreases z,
{
    let placed = placed_zones(zones, leds);
    if z > 0 {
        lemma_together(zones, leds, z - 1);
        first_led_is_first(leds, z - 1);
        let count = placed_count(zones, leds, z - 1);
        assert(0 <= zones[z - 1].count <= u32::MAX);
        assert(placed.take(z).drop_last() =~= placed.take(z - 1));
        assert(placed.take(z).last().count == count);
        let before = leds_together(placed.take(z - 1));
        let m = usize::MAX + 1;
        assert(leds_together(placed.take(z)) == before + count);
        vstd::arithmetic::div_mod::lemma_add_mod_noop(before, count, m);
        vstd::arithmetic::div_mod::lemma_small_mod(count as nat, m as nat);
        let b = before % m;
        if b + count >= m {
            vstd::arithmetic::div_mod::lemma_mod_add_multiples_vanish(b + count - m, m);
            vstd::arithmetic::div_mod::lemma_small_mod((b + count - m) as nat, m as nat);
        } else {
            vstd::arithmetic::div_mod::lemma_small_mod((b + count) as nat, m as nat);
        }
    } else {
        assert(placed.take(0) =~= Seq::empty());
        vstd::arithmetic::div_mod::lemma_small_mod(0, (usize::MAX + 1) as nat);
    }
}

// ---------------------------------------------------------------------------
// Messages that end too early
// ---------------------------------------------------------------------------
/// What `short` gives for the first `k` bytes of a message from whose whole `full` can be read: the
/// same where it lies in these bytes, and otherwise that the message ended.
pub open spec fn is_cut<T>(short: Field<T>, full: Field<T>, k: nat) -> bool {
    full.0 is Ok ==> if full.1 <= k {
        short == full
    } else {
        short.0 == Err::<T, Seq<char>>("OpenRGB controller data ended unexpectedly"@)
    }
}

/// A field that can be read ends behind its beginning.
pub open spec fn goes_on<T>(field: Field<T>, at: nat) -> bool {
    field.0 is Ok ==> at <= field.1
}

proof fn lemma_cut_fields(data: Seq<u8>, k: nat, at: nat, count: nat)
    requires
        k <= data.len() <= usize::MAX,
    ensures
        is_cut(bytes_at(data.take(k as int), at, count), bytes_at(data, at, count), k),
        is_cut(skip_at(data.take(k as int), at, count), skip_at(data, at, count), k),
        is_cut(u16_at(data.take(k as int), at), u16_at(data, at), k),
        is_cut(u32_at(data.take(k as int), at), u32_at(data, at), k),
        is_cut(i32_at(data.take(k as int), at), i32_at(data, at), k),
        is_cut(string_at(data.take(k as int), at), string_at(data, at), k),
        goes_on(skip_at(data, at, count), at),
        goes_on(u16_at(data, at), at),
        goes_on(u32_at(data, at), at),
        goes_on(i32_at(data, at), at),
        goes_on(string_at(data, at), at),
{
    lemma_cut_bytes(data, k, at, count);
    lemma_cut_bytes(data, k, at, 2);
    lemma_cut_bytes(data, k, at, 4);
    if let (Ok(len), end) = u16_at(data, at) {
        lemma_cut_bytes(data, k, end, len as nat);
    }
}

proof fn lemma_cut_bytes(data: Seq<u8>, k: nat, at: nat, count: nat)
    requires
        k <= data.len() <= usize::MAX,
    ensures
        is_cut(bytes_at(data.take(k as int), at, count), bytes_at(data, at, count), k),
{
    if at + count <= k {
        assert(data.take(k as int).subrange(at as int, (at + count) as int) =~= data.subrange(
            at as int,
            (at + count) as int,
        ));
    }
}

proof fn lemma_cut_words(data: Seq<u8>, k: nat, at: nat, n: nat)
    requires
        k <= data.len() <= usize::MAX,
    ensures
        is_cut(words_at(data.take(k as int), at, n), words_at(data, at, n), k)
            || at > k,
        goes_on(words_at(data, at, n), at),
    decreases n,
{
    if n > 0 {
        lemma_cut_fields(data, k, at, 0);
        if let (Ok(_), end) = u32_at(data, at) {
            lemma_cut_words(data, k, end, (n - 1) as nat);
        }
    }
}

proof fn lemma_cut_items<T>(
    short: spec_fn(nat, nat) -> Field<T>,
    full: spec_fn(nat, nat) -> Field<T>,
    k: nat,
    at: nat,
    n: nat,
)
    requires
        at <= k,
        forall|p: nat, i: nat|
            p <= k ==> is_cut(short(p, i), #[trigger] full(p, i), k),
        forall|p: nat, i: nat| goes_on(#[trigger] full(p, i), p),
    ensures
        is_cut(items_at(short, at, n), items_at(full, at, n), k),
        goes_on(items_at(full, at, n), at),
    decreases n,
{
    if n > 0 {
        let i = (n - 1) as nat;
        lemma_cut_items(short, full, k, at, i);
        if let (Ok(_), end) = items_at(full, at, i) {
            assert(goes_on(full(end, i), end));
            if end <= k {
                assert(is_cut(short(end, i), full(end, i), k));
            }
        }
    }
}

#[verifier::spinoff_prover]
#[verifier::rlimit(50)]
proof fn lemma_cut_mode(data: Seq<u8>, k: nat, at: nat, version: u32, index: nat)
    requires
        at <= k <= data.len() <= usize::MAX,
    ensures
        is_cut(
            mode_at(data.take(k as int), at, version, index),
            mode_at(data, at, version, index),
            k,
        ),
        goes_on(mode_at(data, at, version, index), at),
{
    let cut = data.take(k as int);
    lemma_cut_fields(data, k, at, 0);
    if let (Ok(_), end) = string_at(data, at) {
        lemma_cut_fields(data, k, end, 0);
        if let (Ok(_), end) = i32_at(data, end) {
            lemma_cut_words(data, k, end, mode_words(version));
            if let (Ok(_), end) = words_at(data, end, mode_words(version)) {
                lemma_cut_fields(data, k, end, 0);
                if let (Ok(colors), end) = u16_at(data, end) {
                    lemma_cut_fields(data, k, end, 4 * colors as nat);
                    if let (Ok(_), end) = skip_at(data, end, 4 * colors as nat) {
                        if end <= k {
                            assert(cut.subrange(at as int, end as int) =~= data.subrange(
                                at as int,
                                end as int,
                            ));
                        }
                    }
                }
            }
        }
    }
}

proof fn lemma_mode_goes_on(data: Seq<u8>, at: nat, version: u32, index: nat)
    requires
        data.len() <= usize::MAX,
    ensures
        goes_on(mode_at(data, at, version, index), at),
{
    lemma_cut_fields(data, 0, at, 0);
    if let (Ok(_), end) = string_at(data, at) {
        lemma_cut_fields(data, 0, end, 0);
        if let (Ok(_), end) = i32_at(data, end) {
            lemma_cut_words(data, 0, end, mode_words(version));
            if let (Ok(_), end) = words_at(data, end, mode_words(version)) {
                lemma_cut_fields(data, 0, end, 0);
                if let (Ok(colors), end) = u16_at(data, end) {
                    lemma_cut_fields(data, 0, end, 4 * colors as nat);
                }
            }
        }
    }
}

proof fn lemma_cut_matrix(data: Seq<u8>, k: nat, at: nat, len: u16)
    requires
        k <= data.len() <= usize::MAX,
    ensures
        at <= k ==> is_cut(matrix_at(data.take(k as int), at, len), matrix_at(data, at, len), k),
        goes_on(matrix_at(data, at, len), at),
{
    let rest = if len > 8 {
        (len - 8) as nat
    } else {
        0
    };
    lemma_cut_words(data, k, at, 2);
    if let (Ok(_), end) = words_at(data, at, 2) {
        lemma_cut_fields(data, k, end, rest);
    }
}

#[verifier::spinoff_prover]
#[verifier::rlimit(50)]
proof fn lemma_cut_segments(data: Seq<u8>, k: nat, at: nat, version: u32)
    requires
        k <= data.len() <= usize::MAX,
    ensures
        at <= k ==> is_cut(
            segments_at(data.take(k as int), at, version),
            segments_at(data, at, version),
            k,
        ),
        goes_on(segments_at(data, at, version), at),
{
    let short = segment_reader(data.take(k as int));
    let full = segment_reader(data);
    assert forall|p: nat, i: nat| p <= k implies is_cut(short(p, i), #[trigger] full(p, i), k) by {
        lemma_cut_fields(data, k, p, 0);
        if let (Ok(_), end) = string_at(data, p) {
            lemma_cut_words(data, k, end, 3);
        }
    }
    assert forall|p: nat, i: nat| goes_on(#[trigger] full(p, i), p) by {
        lemma_cut_fields(data, k, p, 0);
        if let (Ok(_), end) = string_at(data, p) {
            lemma_cut_words(data, k, end, 3);
        }
    }
    lemma_cut_fields(data, k, at, 0);
    if let (Ok(count), end) = u16_at(data, at) {
        lemma_items_go_on(full, end, count as nat);
        if end <= k {
            lemma_cut_items(short, full, k, end, count as nat);
        }
    }
}

proof fn lemma_items_go_on<T>(full: spec_fn(nat, nat) -> Field<T>, at: nat, n: nat)
    requires
        forall|p: nat, i: nat| goes_on(#[trigger] full(p, i), p),
    ensures
        goes_on(items_at(full, at, n), at),
    decreases n,
{
    if n > 0 {
        let i = (n - 1) as nat;
        lemma_items_go_on(full, at, i);
        if let (Ok(_), end) = items_at(full, at, i) {
            assert(goes_on(full(end, i), end));
        }
    }
}

#[verifier::spinoff_prover]
#[verifier::rlimit(50)]
proof fn lemma_cut_zone(data: Seq<u8>, k: nat, at: nat, version: u32, index: nat)
    requires
        k <= data.len() <= usize::MAX,
    ensures
        at <= k ==> is_cut(
            zone_at(data.take(k as int), at, version, index),
            zone_at(data, at, version, index),
            k,
        ),
        goes_on(zone_at(data, at, version, index), at),
{
    lemma_cut_fields(data, k, at, 0);
    if let (Ok(_), end) = string_at(data, at) {
        lemma_cut_words(data, k, end, 3);
        if let (Ok(_), end) = words_at(data, end, 3) {
            lemma_cut_fields(data, k, end, 0);
            if let (Ok(_), end) = u32_at(data, end) {
                lemma_cut_fields(data, k, end, 0);
                if let (Ok(matrix_len), end) = u16_at(data, end) {
                    lemma_cut_matrix(data, k, end, matrix_len);
                    if let (Ok(_), end) = matrix_at(data, end, matrix_len) {
                        lemma_cut_segments(data, k, end, version);
                        if let (Ok(_), end) = segments_at(data, end, version) {
                            lemma_cut_words(data, k, end, zone_flag_words(version));
                        }
                    }
                }
            }
        }
    }
}

#[verifier::spinoff_prover]
#[verifier::rlimit(50)]
proof fn lemma_cut_names(data: Seq<u8>, k: nat, version: u32)
    requires
        k <= data.len() <= usize::MAX,
    ensures
        is_cut(names_at(data.take(k as int), version), names_at(data, version), k),
{
    lemma_cut_words(data, k, 0, 2);
    if let (Ok(_), end) = words_at(data, 0, 2) {
        lemma_cut_fields(data, k, end, 0);
        if let (Ok(_), end) = string_at(data, end) {
            lemma_cut_fields(data, k, end, 0);
            if let (Ok(_), end) = vendor_at(data, end, version) {
                lemma_cut_fields(data, k, end, 0);
                if let (Ok(_), end) = string_at(data, end) {
                    lemma_cut_fields(data, k, end, 0);
                    if let (Ok(_), end) = string_at(data, end) {
                        lemma_cut_fields(data, k, end, 0);
                        if let (Ok(_), end) = string_at(data, end) {
                            lemma_cut_fields(data, k, end, 0);
                        }
                    }
                }
            }
        }
    }
}

proof fn lemma_cut_modes(data: Seq<u8>, k: nat, at: nat, version: u32)
    requires
        at <= k <= data.len() <= usize::MAX,
    ensures
        is_cut(modes_at(data.take(k as int), at, version), modes_at(data, at, version), k),
{
    let short = mode_reader(data.take(k as int), version);
    let full = mode_reader(data, version);
    assert forall|p: nat, i: nat| p <= k implies is_cut(short(p, i), #[trigger] full(p, i), k) by {
        lemma_cut_mode(data, k, p, version, i);
    }
    assert forall|p: nat, i: nat| goes_on(#[trigger] full(p, i), p) by {
        lemma_mode_goes_on(data, p, version, i);
    }
    lemma_cut_fields(data, k, at, 0);
    if let (Ok(count), end) = u16_at(data, at) {
        lemma_cut_fields(data, k, end, 0);
        if let (Ok(_), end) = i32_at(data, end) {
            lemma_items_go_on(full, end, count as nat);
            if end <= k {
                lemma_cut_items(short, full, k, end, count as nat);
            }
        }
    }
}

proof fn lemma_cut_zones(data: Seq<u8>, k: nat, at: nat, version: u32)
    requires
        at <= k <= data.len() <= usize::MAX,
    ensures
        is_cut(zones_at(data.take(k as int), at, version), zones_at(data, at, version), k),
{
    let short = zone_reader(data.take(k as int), version);
    let full = zone_reader(data, version);
    assert forall|p: nat, i: nat| p <= k implies is_cut(short(p, i), #[trigger] full(p, i), k) by {
        lemma_cut_zone(data, k, p, version, i);
    }
    assert forall|p: nat, i: nat| goes_on(#[trigger] full(p, i), p) by {
        lemma_cut_zone(data, k, p, version, i);
    }
    lemma_cut_fields(data, k, at, 0);
    if let (Ok(count), end) = u16_at(data, at) {
        lemma_items_go_on(full, end, count as nat);
        if end <= k {
            lemma_cut_items(short, full, k, end, count as nat);
        }
    }
}

proof fn lemma_cut_leds(data: Seq<u8>, k: nat, at: nat)
    requires
        at <= k <= data.len() <= usize::MAX,
    ensures
        is_cut(leds_at(data.take(k as int), at), leds_at(data, at), k),
{
    let short = led_reader(data.take(k as int));
    let full = led_reader(data);
    assert forall|p: nat, i: nat| p <= k implies is_cut(short(p, i), #[trigger] full(p, i), k) by {
        lemma_cut_fields(data, k, p, 0);
        if let (Ok(_), end) = string_at(data, p) {
            lemma_cut_fields(data, k, end, 0);
        }
    }
    assert forall|p: nat, i: nat| goes_on(#[trigger] full(p, i), p) by {
        lemma_cut_fields(data, k, p, 0);
        if let (Ok(_), end) = string_at(data, p) {
            lemma_cut_fields(data, k, end, 0);
        }
    }
    lemma_cut_fields(data, k, at, 0);
    if let (Ok(count), end) = u16_at(data, at) {
        lemma_items_go_on(full, end, count as nat);
        if end <= k {
            lemma_cut_items(short, full, k, end, count as nat);
        }
    }
}

/// What a server writes of a controller is refused wherever it is cut short, because it ends too
/// early.
#[verifier::rlimit(60)]
pub proof fn cut_messages_are_refused(id: u32, version: u32, c: ControllerSource, k: nat)
    requires
        c.fits(version),
        k < c.written(version).len(),
    ensures
        controller_in(id, version, c.written(version).take(k as int)) == Err::<
            ControllerModel,
            Seq<char>,
        >("OpenRGB controller data ended unexpectedly"@),
{
    let data = c.written(version);
    let names = c.written_names(version);
    let modes = c.written_modes();
    let zones = c.written_zones(version);
    let leds = c.written_leds();
    assert(data + Seq::<u8>::empty() =~= data);
    lemma_four_parts(names, modes, zones, leds, Seq::empty());
    lemma_names_read(data, version, c);
    lemma_modes_read(data, names.len(), version, c);
    lemma_zones_read(data, names.len() + modes.len(), version, c);
    lemma_leds_read(data, names.len() + modes.len() + zones.len(), version, c);
    assert(data.len() == names.len() + modes.len() + zones.len() + leds.len());
    lemma_cut_names(data, k, version);
    if names.len() <= k {
        lemma_cut_modes(data, k, names.len(), version);
        if names.len() + modes.len() <= k {
            lemma_cut_zones(data, k, names.len() + modes.len(), version);
            if names.len() + modes.len() + zones.len() <= k {
                lemma_cut_leds(data, k, names.len() + modes.len() + zones.len());
            }
        }
    }
}

} // verus!
