//! Which messages are accepted as descriptions of controllers.
use crate::bytes::{bytes_have_weights, le16};
use crate::cursor::{
    i32_at, items_at, skip_at, string_at, u16_at, u32_at, without_nul, words_take_four_bytes_each,
    Field,
};
use crate::encoding::{joined, short};
use crate::message::{
    controller_in, led_at, led_reader, leds_at, matrix_at, mode_at, mode_reader, mode_words,
    modes_at, names_at, revision_at, segment_at, segment_reader, segments_at, vendor_at, zone_at,
    zone_flag_words, zone_reader, zones_at,
};
use vstd::prelude::*;
use vstd::utf8::valid_utf8;

verus! {

// ---------------------------------------------------------------------------
// Well-formed pieces
// ---------------------------------------------------------------------------
/// Bytes behind their number, in two bytes.
pub open spec fn sized(b: Seq<u8>) -> Seq<u8> {
    short(b.len() as int) + b
}

/// A size of two bytes and so many bytes of UTF-8, behind which a zero may stand.
pub open spec fn is_text(p: Seq<u8>) -> bool {
    exists|b: Seq<u8>|
        #![trigger sized(b)]
        p == sized(b) && b.len() < 65_536 && valid_utf8(
            if b.len() > 0 && b.last() == 0 {
                b.drop_last()
            } else {
                b
            },
        )
}

/// A mode of its parts: its name, its numbers, how many colors there are, and these.
pub open spec fn mode_of(name: Seq<u8>, numbers: Seq<u8>, colors: Seq<u8>) -> Seq<u8> {
    name + (numbers + (short(colors.len() as int / 4) + colors))
}

/// A mode: a name, nine numbers or twelve from version 3 on, and as many colors as are told.
pub open spec fn is_mode(p: Seq<u8>, version: u32) -> bool {
    exists|name: Seq<u8>, numbers: Seq<u8>, colors: Seq<u8>|
        #![trigger mode_of(name, numbers, colors)]
        p == mode_of(name, numbers, colors) && is_text(name) && numbers.len() == (if version >= 3 {
            48int
        } else {
            36int
        }) && colors.len() % 4 == 0 && colors.len() < 4 * 65_536
}

/// A segment: a name and three numbers.
pub open spec fn is_segment(p: Seq<u8>) -> bool {
    exists|name: Seq<u8>, numbers: Seq<u8>|
        #![trigger name + numbers]
        p == name + numbers && is_text(name) && numbers.len() == 12
}

/// Pieces of which there are as many as two bytes tell.
pub open spec fn is_list(p: Seq<u8>, is_piece: spec_fn(Seq<u8>) -> bool) -> bool {
    exists|pieces: Seq<Seq<u8>>|
        #![trigger joined(pieces)]
        pieces.len() < 65_536 && p == short(pieces.len() as int) + joined(pieces) && forall|i: int|
            0 <= i < pieces.len() ==> is_piece(#[trigger] pieces[i])
}

/// A zone of its parts: its name, its numbers, the size of its map, its map, its segments and its
/// flags.
pub open spec fn zone_of(
    name: Seq<u8>,
    numbers: Seq<u8>,
    map_size: int,
    map: Seq<u8>,
    segments: Seq<u8>,
    flags: Seq<u8>,
) -> Seq<u8> {
    name + (numbers + (short(map_size) + (map + (segments + flags))))
}

/// A zone: a name, four numbers, a map of the size that is told, which begins with two numbers, a
/// list of segments from version 4 on, and a number from version 5 on.
pub open spec fn is_zone(p: Seq<u8>, version: u32) -> bool {
    exists|
        name: Seq<u8>,
        numbers: Seq<u8>,
        map_size: int,
        map: Seq<u8>,
        segments: Seq<u8>,
        flags: Seq<u8>,
    |
        #![trigger zone_of(name, numbers, map_size, map, segments, flags)]
        {
            &&& p == zone_of(name, numbers, map_size, map, segments, flags)
            &&& is_text(name)
            &&& numbers.len() == 16
            &&& 0 <= map_size < 65_536
            &&& map.len() == if map_size == 0 {
                0
            } else if map_size < 8 {
                8
            } else {
                map_size
            }
            &&& version < 4 ==> segments.len() == 0
            &&& version >= 4 ==> is_list(segments, |s: Seq<u8>| is_segment(s))
            &&& flags.len() == if version >= 5 {
                4int
            } else {
                0int
            }
        }
}

/// An LED: a name and a number.
pub open spec fn is_led(p: Seq<u8>) -> bool {
    exists|name: Seq<u8>, number: Seq<u8>|
        #![trigger name + number]
        p == name + number && is_text(name) && number.len() == 4
}

/// The beginning of a message: two numbers, then the name, the vendor from version 1 on, the
/// description, the revision, the serial number and the location.
pub open spec fn is_beginning(p: Seq<u8>, version: u32) -> bool {
    exists|
        numbers: Seq<u8>,
        name: Seq<u8>,
        vendor: Seq<u8>,
        description: Seq<u8>,
        revision: Seq<u8>,
        serial: Seq<u8>,
        location: Seq<u8>,
    |
        #![trigger numbers + name + vendor + description + revision + serial + location]
        {
            &&& p == numbers + name + vendor + description + revision + serial + location
            &&& numbers.len() == 8
            &&& is_text(name)
            &&& version >= 1 ==> is_text(vendor)
            &&& version < 1 ==> vendor.len() == 0
            &&& is_text(description)
            &&& is_text(revision)
            &&& is_text(serial)
            &&& is_text(location)
        }
}

/// The modes of a message: how many there are, the number of the active one, and each.
pub open spec fn are_modes(p: Seq<u8>, version: u32) -> bool {
    exists|active: Seq<u8>, pieces: Seq<Seq<u8>>|
        #![trigger active + joined(pieces)]
        {
            &&& pieces.len() < 65_536
            &&& active.len() == 4
            &&& p == short(pieces.len() as int) + (active + joined(pieces))
            &&& forall|i: int| 0 <= i < pieces.len() ==> is_mode(#[trigger] pieces[i], version)
        }
}

/// A message: its beginning, its modes, a list of zones, a list of LEDs, and anything.
pub open spec fn is_message(data: Seq<u8>, version: u32) -> bool {
    exists|a: Seq<u8>, b: Seq<u8>, c: Seq<u8>, d: Seq<u8>, rest: Seq<u8>|
        #![trigger a + b + c + d + rest]
        {
            &&& data == a + b + c + d + rest
            &&& is_beginning(a, version)
            &&& are_modes(b, version)
            &&& is_list(c, |p: Seq<u8>| is_zone(p, version))
            &&& is_list(d, |p: Seq<u8>| is_led(p))
        }
}

// ---------------------------------------------------------------------------
// What is read is well-formed
// ---------------------------------------------------------------------------
/// The bytes from `a` up to `b`.
spec fn part(data: Seq<u8>, a: nat, b: nat) -> Seq<u8> {
    data.subrange(a as int, b as int)
}

proof fn lemma_join(data: Seq<u8>, a: nat, b: nat, c: nat)
    requires
        a <= b <= c <= data.len(),
    ensures
        part(data, a, c) == part(data, a, b) + part(data, b, c),
        part(data, a, b).len() == b - a,
{
    assert(part(data, a, c) =~= part(data, a, b) + part(data, b, c));
}

proof fn lemma_short_part(data: Seq<u8>, at: nat)
    requires
        data.len() <= usize::MAX,
        u16_at(data, at).0 is Ok,
    ensures
        u16_at(data, at).1 == at + 2,
        at + 2 <= data.len(),
        part(data, at, at + 2) == short(u16_at(data, at).0->Ok_0 as int),
{
    let b = data.subrange(at as int, (at + 2) as int);
    bytes_have_weights(b);
    let n = le16(b) as int;
    assert(n % 256 == b[0] && n / 256 == b[1]);
    assert(b =~= short(n));
}

proof fn lemma_text_part(data: Seq<u8>, at: nat)
    requires
        data.len() <= usize::MAX,
        string_at(data, at).0 is Ok,
    ensures
        at <= string_at(data, at).1 <= data.len(),
        is_text(part(data, at, string_at(data, at).1)),
{
    lemma_short_part(data, at);
    let len = u16_at(data, at).0->Ok_0;
    let end = string_at(data, at).1;
    if len == 0 {
        let b = Seq::<u8>::empty();
        assert(part(data, at, end) =~= sized(b));
        assert(valid_utf8(b));
        assert(is_text(part(data, at, end)));
    } else {
        let b = part(data, at + 2, end);
        lemma_join(data, at, at + 2, end);
        assert(valid_utf8(without_nul(b)));
        assert(b.len() == len);
        assert(part(data, at, end) == sized(b));
        assert(is_text(part(data, at, end)));
    }
}

proof fn lemma_pieces<T>(
    data: Seq<u8>,
    item: spec_fn(nat, nat) -> Field<T>,
    is_piece: spec_fn(Seq<u8>) -> bool,
    at: nat,
    n: nat,
) -> (pieces: Seq<Seq<u8>>)
    requires
        at <= data.len(),
        items_at(item, at, n).0 is Ok,
        forall|p: nat, i: nat|
            (#[trigger] item(p, i)).0 is Ok ==> p <= item(p, i).1 <= data.len() && is_piece(
                part(data, p, item(p, i).1),
            ),
    ensures
        pieces.len() == n,
        at <= items_at(item, at, n).1 <= data.len(),
        joined(pieces) == part(data, at, items_at(item, at, n).1),
        forall|i: int| 0 <= i < pieces.len() ==> is_piece(#[trigger] pieces[i]),
    decreases n,
{
    if n == 0 {
        let pieces = Seq::<Seq<u8>>::empty();
        assert(joined(pieces) =~= part(data, at, at));
        pieces
    } else {
        let i = (n - 1) as nat;
        let front = lemma_pieces(data, item, is_piece, at, i);
        let p = items_at(item, at, i).1;
        let end = item(p, i).1;
        let last = part(data, p, end);
        assert(is_piece(last));
        let pieces = front.push(last);
        assert(pieces.drop_last() =~= front);
        lemma_join(data, at, p, end);
        pieces
    }
}

proof fn lemma_list_part<T>(
    data: Seq<u8>,
    item: spec_fn(nat, nat) -> Field<T>,
    is_piece: spec_fn(Seq<u8>) -> bool,
    at: nat,
)
    requires
        data.len() <= usize::MAX,
        u16_at(data, at).0 is Ok,
        items_at(item, at + 2, u16_at(data, at).0->Ok_0 as nat).0 is Ok,
        forall|p: nat, i: nat|
            (#[trigger] item(p, i)).0 is Ok ==> p <= item(p, i).1 <= data.len() && is_piece(
                part(data, p, item(p, i).1),
            ),
    ensures
        ({
            let end = items_at(item, at + 2, u16_at(data, at).0->Ok_0 as nat).1;
            &&& at + 2 <= end <= data.len()
            &&& is_list(part(data, at, end), is_piece)
        }),
{
    lemma_short_part(data, at);
    let n = u16_at(data, at).0->Ok_0 as nat;
    let end = items_at(item, at + 2, n).1;
    let pieces = lemma_pieces(data, item, is_piece, at + 2, n);
    lemma_join(data, at, at + 2, end);
    assert(part(data, at, end) == short(pieces.len() as int) + joined(pieces));
}

#[verifier::spinoff_prover]
#[verifier::rlimit(50)]
proof fn lemma_mode_part(data: Seq<u8>, at: nat, version: u32, index: nat)
    requires
        data.len() <= usize::MAX,
        mode_at(data, at, version, index).0 is Ok,
    ensures
        at <= mode_at(data, at, version, index).1 <= data.len(),
        is_mode(part(data, at, mode_at(data, at, version, index).1), version),
{
    lemma_text_part(data, at);
    let p = string_at(data, at).1;
    assert(i32_at(data, p).1 == p + 4);
    words_take_four_bytes_each(data, p + 4, mode_words(version));
    let q = p + 4 + 4 * mode_words(version);
    lemma_short_part(data, q);
    let n = u16_at(data, q).0->Ok_0 as nat;
    let end = q + 2 + 4 * n;
    assert(skip_at(data, q + 2, 4 * n).1 == end);
    let colors = part(data, q + 2, end);
    lemma_join(data, at, p, end);
    lemma_join(data, p, q, end);
    lemma_join(data, q, q + 2, end);
    assert(colors.len() == 4 * n);
    assert(part(data, at, end) == mode_of(part(data, at, p), part(data, p, q), colors));
}

proof fn lemma_segment_part(data: Seq<u8>, at: nat)
    requires
        data.len() <= usize::MAX,
        segment_at(data, at).0 is Ok,
    ensures
        at <= segment_at(data, at).1 <= data.len(),
        is_segment(part(data, at, segment_at(data, at).1)),
{
    lemma_text_part(data, at);
    let p = string_at(data, at).1;
    words_take_four_bytes_each(data, p, 3);
    lemma_join(data, at, p, p + 12);
    lemma_join(data, p, p + 12, p + 12);
    assert(part(data, at, p + 12) == part(data, at, p) + part(data, p, p + 12));
}

proof fn lemma_segments_part(data: Seq<u8>, at: nat, version: u32)
    requires
        data.len() <= usize::MAX,
        at <= data.len(),
        segments_at(data, at, version).0 is Ok,
    ensures
        at <= segments_at(data, at, version).1 <= data.len(),
        version < 4 ==> segments_at(data, at, version).1 == at,
        version >= 4 ==> is_list(
            part(data, at, segments_at(data, at, version).1),
            |s: Seq<u8>| is_segment(s),
        ),
{
    if version >= 4 {
        lemma_short_part(data, at);
        let item = segment_reader(data);
        let is_piece = |s: Seq<u8>| is_segment(s);
        assert forall|p: nat, i: nat| (#[trigger] item(p, i)).0 is Ok implies p <= item(p, i).1
            <= data.len() && is_piece(part(data, p, item(p, i).1)) by {
            lemma_segment_part(data, p);
        }
        lemma_list_part(data, item, is_piece, at);
    }
}

proof fn lemma_map_part(data: Seq<u8>, at: nat, size: u16)
    requires
        data.len() <= usize::MAX,
        at <= data.len(),
        matrix_at(data, at, size).0 is Ok,
    ensures
        ({
            let end = matrix_at(data, at, size).1;
            &&& at <= end <= data.len()
            &&& end - at == if size == 0 {
                0int
            } else if size < 8 {
                8int
            } else {
                size as int
            }
        }),
{
    words_take_four_bytes_each(data, at, 2);
}

#[verifier::spinoff_prover]
#[verifier::rlimit(50)]
proof fn lemma_zone_part(data: Seq<u8>, at: nat, version: u32, index: nat)
    requires
        data.len() <= usize::MAX,
        zone_at(data, at, version, index).0 is Ok,
    ensures
        at <= zone_at(data, at, version, index).1 <= data.len(),
        is_zone(part(data, at, zone_at(data, at, version, index).1), version),
{
    lemma_text_part(data, at);
    let p = string_at(data, at).1;
    words_take_four_bytes_each(data, p, 3);
    assert(u32_at(data, p + 12).1 == p + 16);
    let q = p + 16;
    lemma_short_part(data, q);
    let size = u16_at(data, q).0->Ok_0;
    lemma_map_part(data, q + 2, size);
    let m = matrix_at(data, q + 2, size).1;
    lemma_segments_part(data, m, version);
    let s = segments_at(data, m, version).1;
    words_take_four_bytes_each(data, s, zone_flag_words(version));
    let end = s + 4 * zone_flag_words(version);
    assert(zone_at(data, at, version, index).1 == end);
    lemma_join(data, at, p, end);
    lemma_join(data, p, q, end);
    lemma_join(data, q, q + 2, end);
    lemma_join(data, q + 2, m, end);
    lemma_join(data, m, s, end);
    assert(part(data, at, end) == zone_of(
        part(data, at, p),
        part(data, p, q),
        size as int,
        part(data, q + 2, m),
        part(data, m, s),
        part(data, s, end),
    ));
}

proof fn lemma_led_part(data: Seq<u8>, at: nat)
    requires
        data.len() <= usize::MAX,
        led_at(data, at).0 is Ok,
    ensures
        at <= led_at(data, at).1 <= data.len(),
        is_led(part(data, at, led_at(data, at).1)),
{
    lemma_text_part(data, at);
    let p = string_at(data, at).1;
    assert(u32_at(data, p).1 == p + 4);
    lemma_join(data, at, p, p + 4);
    assert(part(data, at, p + 4) == part(data, at, p) + part(data, p, p + 4));
}

#[verifier::spinoff_prover]
#[verifier::rlimit(50)]
proof fn lemma_beginning_part(data: Seq<u8>, version: u32)
    requires
        data.len() <= usize::MAX,
        names_at(data, version).0 is Ok,
    ensures
        names_at(data, version).1 <= data.len(),
        is_beginning(part(data, 0, names_at(data, version).1), version),
{
    words_take_four_bytes_each(data, 0, 2);
    lemma_text_part(data, 8);
    let p1 = string_at(data, 8).1;
    let p2 = vendor_at(data, p1, version).1;
    if version >= 1 {
        lemma_text_part(data, p1);
    }
    lemma_text_part(data, p2);
    let p3 = string_at(data, p2).1;
    lemma_text_part(data, p3);
    let p4 = string_at(data, p3).1;
    lemma_text_part(data, p4);
    let p5 = string_at(data, p4).1;
    assert(revision_at(data, p3).1 == p5);
    lemma_text_part(data, p5);
    let p6 = string_at(data, p5).1;
    lemma_join(data, 0, 8, p1);
    lemma_join(data, 0, p1, p2);
    lemma_join(data, 0, p2, p3);
    lemma_join(data, 0, p3, p4);
    lemma_join(data, 0, p4, p5);
    lemma_join(data, 0, p5, p6);
    assert(part(data, 0, p6) == part(data, 0, 8) + part(data, 8, p1) + part(data, p1, p2) + part(
        data,
        p2,
        p3,
    ) + part(data, p3, p4) + part(data, p4, p5) + part(data, p5, p6));
    lemma_join(data, p1, p2, p2);
}

proof fn lemma_modes_part(data: Seq<u8>, at: nat, version: u32)
    requires
        data.len() <= usize::MAX,
        modes_at(data, at, version).0 is Ok,
    ensures
        at <= modes_at(data, at, version).1 <= data.len(),
        are_modes(part(data, at, modes_at(data, at, version).1), version),
{
    lemma_short_part(data, at);
    let n = u16_at(data, at).0->Ok_0 as nat;
    assert(i32_at(data, at + 2).1 == at + 6);
    let item = mode_reader(data, version);
    let is_piece = |p: Seq<u8>| is_mode(p, version);
    assert forall|p: nat, i: nat| (#[trigger] item(p, i)).0 is Ok implies p <= item(p, i).1
        <= data.len() && is_piece(part(data, p, item(p, i).1)) by {
        lemma_mode_part(data, p, version, i);
    }
    let pieces = lemma_pieces(data, item, is_piece, at + 6, n);
    let end = items_at(item, at + 6, n).1;
    lemma_join(data, at, at + 2, end);
    lemma_join(data, at + 2, at + 6, end);
    let active = part(data, at + 2, at + 6);
    assert(part(data, at, end) == short(pieces.len() as int) + (active + joined(pieces)));
    assert forall|i: int| 0 <= i < pieces.len() implies is_mode(#[trigger] pieces[i], version) by {
        assert(is_piece(pieces[i]));
    }
}

proof fn lemma_zones_part(data: Seq<u8>, at: nat, version: u32)
    requires
        data.len() <= usize::MAX,
        zones_at(data, at, version).0 is Ok,
    ensures
        at <= zones_at(data, at, version).1 <= data.len(),
        is_list(
            part(data, at, zones_at(data, at, version).1),
            |p: Seq<u8>| is_zone(p, version),
        ),
{
    lemma_short_part(data, at);
    let item = zone_reader(data, version);
    let is_piece = |p: Seq<u8>| is_zone(p, version);
    assert forall|p: nat, i: nat| (#[trigger] item(p, i)).0 is Ok implies p <= item(p, i).1
        <= data.len() && is_piece(part(data, p, item(p, i).1)) by {
        lemma_zone_part(data, p, version, i);
    }
    lemma_list_part(data, item, is_piece, at);
}

proof fn lemma_leds_part(data: Seq<u8>, at: nat)
    requires
        data.len() <= usize::MAX,
        leds_at(data, at).0 is Ok,
    ensures
        at <= leds_at(data, at).1 <= data.len(),
        is_list(part(data, at, leds_at(data, at).1), |p: Seq<u8>| is_led(p)),
{
    lemma_short_part(data, at);
    let item = led_reader(data);
    let is_piece = |p: Seq<u8>| is_led(p);
    assert forall|p: nat, i: nat| (#[trigger] item(p, i)).0 is Ok implies p <= item(p, i).1
        <= data.len() && is_piece(part(data, p, item(p, i).1)) by {
        lemma_led_part(data, p);
    }
    lemma_list_part(data, item, is_piece, at);
}

/// A message that is accepted is well-formed: its texts are UTF-8, its numbers are whole, and it
/// has as many modes, zones, segments, LEDs and colors as it tells. Any other is refused.
#[verifier::spinoff_prover]
#[verifier::rlimit(50)]
pub proof fn only_well_formed_messages_are_accepted(id: u32, version: u32, data: Seq<u8>)
    requires
        data.len() <= usize::MAX,
    ensures
        controller_in(id, version, data) is Ok ==> is_message(data, version),
        !is_message(data, version) ==> controller_in(id, version, data) is Err,
{
    if controller_in(id, version, data) is Ok {
        lemma_beginning_part(data, version);
        let p1 = names_at(data, version).1;
        lemma_modes_part(data, p1, version);
        let p2 = modes_at(data, p1, version).1;
        lemma_zones_part(data, p2, version);
        let p3 = zones_at(data, p2, version).1;
        lemma_leds_part(data, p3);
        let p4 = leds_at(data, p3).1;
        let n = data.len();
        lemma_join(data, 0, p1, p2);
        lemma_join(data, 0, p2, p3);
        lemma_join(data, 0, p3, p4);
        lemma_join(data, 0, p4, n);
        assert(part(data, 0, n) =~= data);
        assert(data == part(data, 0, p1) + part(data, p1, p2) + part(data, p2, p3) + part(
            data,
            p3,
            p4,
        ) + part(data, p4, n));
    }
}

} // verus!
