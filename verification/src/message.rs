//! The message in which the OpenRGB server describes a controller.
use crate::cursor::{
    i32_at, is_field, items_at, lemma_fields_extend, lemma_items_extend, lemma_items_fail,
    lemma_items_len, lemma_words_extend, same_if_read, skip_at, string_at, u16_at, u32_at,
    words_at, Cursor, Field,
};
use crate::openrgb::{
    mode_models, zone_models, Controller, ControllerModel, Mode, ModeModel, Zone,
    ZoneModel,
};
use vstd::prelude::*;
use vstd::slice::{slice_subrange, slice_to_vec};

verus! {

// ---------------------------------------------------------------------------
// Modes
// ---------------------------------------------------------------------------
/// How many numbers stand between the value of a mode and its colors.
pub open spec fn mode_words(version: u32) -> nat {
    if version >= 3 {
        11
    } else {
        8
    }
}

/// The mode of the given number.
pub open spec fn mode_at(data: Seq<u8>, at: nat, version: u32, index: nat) -> Field<ModeModel> {
    match string_at(data, at) {
        (Err(e), end) => (Err(e), end),
        (Ok(name), end) => match i32_at(data, end) {
            (Err(e), end) => (Err(e), end),
            (Ok(value), end) => match words_at(data, end, mode_words(version)) {
                (Err(e), end) => (Err(e), end),
                (Ok(_), end) => match u16_at(data, end) {
                    (Err(e), end) => (Err(e), end),
                    (Ok(colors), end) => match skip_at(data, end, 4 * colors as nat) {
                        (Err(e), end) => (Err(e), end),
                        (Ok(_), end) => (
                            Ok(
                                ModeModel {
                                    index: index as int,
                                    name,
                                    value: value as int,
                                    data: data.subrange(at as int, end as int),
                                },
                            ),
                            end,
                        ),
                    },
                },
            },
        },
    }
}

/// `mode_at` for the modes of one message.
pub open spec fn mode_reader(data: Seq<u8>, version: u32) -> spec_fn(nat, nat) -> Field<ModeModel> {
    |at: nat, index: nat| mode_at(data, at, version, index)
}

/// Reads the mode of the given number.
pub fn parse_mode(cursor: &mut Cursor<'_>, protocol_version: u32, index: usize) -> (r: Result<
    Mode,
    String,
>)
    ensures
        is_field(
            r,
            final(cursor).offset,
            mode_at(old(cursor).data@, old(cursor).offset as nat, protocol_version, index as nat),
        ),
        final(cursor).data == old(cursor).data,
{
    let start: usize = cursor.offset;
    let name = cursor.string()?;
    let value: i32 = cursor.i32()?;
    // Flags and speed limits, brightness limits from version 3 on, color limits and
    // speed, brightness from version 3 on, direction and color mode.
    let numbers: usize = if protocol_version >= 3 {
        11
    } else {
        8
    };
    cursor.words(numbers)?;
    let color_count: usize = cursor.u16()? as usize;
    cursor.skip(color_count * 4)?;
    let data = slice_to_vec(slice_subrange(cursor.data, start, cursor.offset));
    Ok(Mode { index, name, value, data })
}

// ---------------------------------------------------------------------------
// Zones
// ---------------------------------------------------------------------------
/// The map of a zone whose LEDs form a matrix: `len` bytes that begin with its height and
/// width, or nothing.
pub open spec fn matrix_at(data: Seq<u8>, at: nat, len: u16) -> Field<()> {
    if len == 0 {
        (Ok(()), at)
    } else {
        match words_at(data, at, 2) {
            (Err(e), end) => (Err(e), end),
            (Ok(_), end) => skip_at(
                data,
                end,
                if len > 8 {
                    (len - 8) as nat
                } else {
                    0
                },
            ),
        }
    }
}

/// A segment of a zone: its name, type, start and length.
pub open spec fn segment_at(data: Seq<u8>, at: nat) -> Field<()> {
    match string_at(data, at) {
        (Err(e), end) => (Err(e), end),
        (Ok(_), end) => words_at(data, end, 3),
    }
}

/// `segment_at` for the segments of one message.
pub open spec fn segment_reader(data: Seq<u8>) -> spec_fn(nat, nat) -> Field<()> {
    |at: nat, index: nat| segment_at(data, at)
}

/// The segments of a zone, which it has from version 4 on.
pub open spec fn segments_at(data: Seq<u8>, at: nat, version: u32) -> Field<()> {
    if version < 4 {
        (Ok(()), at)
    } else {
        match u16_at(data, at) {
            (Err(e), end) => (Err(e), end),
            (Ok(count), end) => match items_at(segment_reader(data), end, count as nat) {
                (Err(e), end) => (Err(e), end),
                (Ok(_), end) => (Ok(()), end),
            },
        }
    }
}

/// How many numbers stand at the end of a zone.
pub open spec fn zone_flag_words(version: u32) -> nat {
    if version >= 5 {
        1
    } else {
        0
    }
}

/// The zone of the given number. Where it starts is not said there.
pub open spec fn zone_at(data: Seq<u8>, at: nat, version: u32, index: nat) -> Field<ZoneModel> {
    match string_at(data, at) {
        (Err(e), end) => (Err(e), end),
        (Ok(name), end) => match words_at(data, end, 3) {
            (Err(e), end) => (Err(e), end),
            (Ok(_), end) => match u32_at(data, end) {
                (Err(e), end) => (Err(e), end),
                (Ok(count), end) => match u16_at(data, end) {
                    (Err(e), end) => (Err(e), end),
                    (Ok(matrix_len), end) => match matrix_at(data, end, matrix_len) {
                        (Err(e), end) => (Err(e), end),
                        (Ok(_), end) => match segments_at(data, end, version) {
                            (Err(e), end) => (Err(e), end),
                            (Ok(_), end) => match words_at(data, end, zone_flag_words(version)) {
                                (Err(e), end) => (Err(e), end),
                                (Ok(_), end) => (
                                    Ok(
                                        ZoneModel {
                                            index: index as int,
                                            name,
                                            start: 0,
                                            count: count as int,
                                        },
                                    ),
                                    end,
                                ),
                            },
                        },
                    },
                },
            },
        },
    }
}

/// `zone_at` for the zones of one message.
pub open spec fn zone_reader(data: Seq<u8>, version: u32) -> spec_fn(nat, nat) -> Field<ZoneModel> {
    |at: nat, index: nat| zone_at(data, at, version, index)
}

fn skip_matrix(cursor: &mut Cursor<'_>, len: u16) -> (r: Result<(), String>)
    ensures
        is_field(r, final(cursor).offset, matrix_at(old(cursor).data@, old(cursor).offset as nat, len)),
        final(cursor).data == old(cursor).data,
{
    if len > 0 {
        cursor.words(2)?;
        cursor.skip((len as usize).saturating_sub(8))?;
    }
    Ok(())
}

fn skip_segments(cursor: &mut Cursor<'_>, protocol_version: u32) -> (r: Result<(), String>)
    ensures
        is_field(
            r,
            final(cursor).offset,
            segments_at(old(cursor).data@, old(cursor).offset as nat, protocol_version),
        ),
        final(cursor).data == old(cursor).data,
{
    if protocol_version < 4 {
        return Ok(());
    }
    let segment_count: usize = cursor.u16()? as usize;
    let ghost reader = segment_reader(cursor.data@);
    let ghost first = cursor.offset as nat;
    let mut i: usize = 0;
    while i < segment_count
        invariant
            i <= segment_count,
            cursor.data == old(cursor).data,
            reader == segment_reader(cursor.data@),
            items_at(reader, first, i as nat).0 is Ok,
            items_at(reader, first, i as nat).1 == cursor.offset,
            segments_at(old(cursor).data@, old(cursor).offset as nat, protocol_version) == (
            match items_at(reader, first, segment_count as nat) {
                (Err(e), end) => (Err::<(), Seq<char>>(e), end),
                (Ok(_), end) => (Ok::<(), Seq<char>>(()), end),
            }),
        decreases segment_count - i,
    {
        let ghost at = cursor.offset as nat;
        assert(reader(at, i as nat) == segment_at(cursor.data@, at));
        match cursor.string() {
            Ok(_) => {},
            Err(e) => {
                proof {
                    lemma_items_fail(reader, first, (i + 1) as nat, segment_count as nat);
                }
                return Err(e);
            },
        }
        match cursor.words(3) {
            Ok(_) => {},
            Err(e) => {
                proof {
                    lemma_items_fail(reader, first, (i + 1) as nat, segment_count as nat);
                }
                return Err(e);
            },
        }
        i += 1;
    }
    Ok(())
}

/// Reads the zone of the given number.
pub fn parse_zone(cursor: &mut Cursor<'_>, protocol_version: u32, index: usize) -> (r: Result<
    Zone,
    String,
>)
    ensures
        is_field(
            r,
            final(cursor).offset,
            zone_at(old(cursor).data@, old(cursor).offset as nat, protocol_version, index as nat),
        ),
        final(cursor).data == old(cursor).data,
{
    let name = cursor.string()?;
    // Type and limits of the size.
    cursor.words(3)?;
    let leds_count: usize = cursor.u32()? as usize;
    let matrix_len: u16 = cursor.u16()?;
    skip_matrix(cursor, matrix_len)?;
    skip_segments(cursor, protocol_version)?;
    // Flags.
    let numbers: usize = if protocol_version >= 5 {
        1
    } else {
        0
    };
    cursor.words(numbers)?;
    Ok(Zone { index, name, start: 0, count: leds_count })
}

// ---------------------------------------------------------------------------
// LEDs
// ---------------------------------------------------------------------------
/// An LED: its name and the number of its zone.
pub open spec fn led_at(data: Seq<u8>, at: nat) -> Field<u32> {
    match string_at(data, at) {
        (Err(e), end) => (Err(e), end),
        (Ok(_), end) => u32_at(data, end),
    }
}

/// `led_at` for the LEDs of one message.
pub open spec fn led_reader(data: Seq<u8>) -> spec_fn(nat, nat) -> Field<u32> {
    |at: nat, index: nat| led_at(data, at)
}

/// How many LEDs belong to zone `z`, where `leds` holds the zone of each LED.
pub open spec fn leds_in_zone(leds: Seq<u32>, z: int) -> nat
    decreases leds.len(),
{
    if leds.len() == 0 {
        0
    } else {
        leds_in_zone(leds.drop_last(), z) + if leds.last() == z {
            1nat
        } else {
            0nat
        }
    }
}

/// The first LED of zone `z`, or the number of LEDs if it has none.
pub open spec fn first_led(leds: Seq<u32>, z: int) -> nat
    decreases leds.len(),
{
    if leds.len() == 0 || leds[0] == z {
        0
    } else {
        1 + first_led(leds.drop_first(), z)
    }
}

/// How many LEDs zone `z` gets: as many as name it, or as many as it says itself if
/// none does.
pub open spec fn placed_count(zones: Seq<ZoneModel>, leds: Seq<u32>, z: int) -> int {
    if leds_in_zone(leds, z) > 0 {
        leds_in_zone(leds, z) as int
    } else {
        zones[z].count
    }
}

/// How many LEDs the first `z` zones get together, as a machine counts them.
pub open spec fn placed_before(zones: Seq<ZoneModel>, leds: Seq<u32>, z: int) -> usize
    decreases z,
{
    if z <= 0 {
        0
    } else {
        placed_before(zones, leds, z - 1).wrapping_add(
            placed_count(zones, leds, z - 1) as usize,
        )
    }
}

/// Where zone `z` starts: at its first LED, or behind the zones before it if it has none.
pub open spec fn placed_start(zones: Seq<ZoneModel>, leds: Seq<u32>, z: int) -> int {
    if leds_in_zone(leds, z) > 0 {
        first_led(leds, z) as int
    } else {
        placed_before(zones, leds, z) as int
    }
}

/// Zone `z` with its place among the LEDs.
pub open spec fn placed_zone(zones: Seq<ZoneModel>, leds: Seq<u32>, z: int) -> ZoneModel {
    ZoneModel {
        start: placed_start(zones, leds, z),
        count: placed_count(zones, leds, z),
        ..zones[z]
    }
}

/// All zones with their places among the LEDs.
pub open spec fn placed_zones(zones: Seq<ZoneModel>, leds: Seq<u32>) -> Seq<ZoneModel> {
    Seq::new(zones.len(), |z: int| placed_zone(zones, leds, z))
}

proof fn lemma_first_led_push(leds: Seq<u32>, x: u32, z: int)
    ensures
        first_led(leds, z) <= leds.len(),
        first_led(leds.push(x), z) == (if first_led(leds, z) < leds.len() {
            first_led(leds, z)
        } else if x == z {
            leds.len()
        } else {
            leds.len() + 1
        }),
    decreases leds.len(),
{
    if leds.len() == 0 {
        assert(leds.push(x).drop_first() =~= leds);
    } else if leds[0] != z {
        lemma_first_led_push(leds.drop_first(), x, z);
        assert(leds.push(x).drop_first() =~= leds.drop_first().push(x));
    }
}

/// A zone that some LED names starts at an LED that names it, and no LED before names it.
pub proof fn first_led_is_first(leds: Seq<u32>, z: int)
    ensures
        first_led(leds, z) <= leds.len(),
        leds_in_zone(leds, z) <= leds.len(),
        leds_in_zone(leds, z) > 0 <==> first_led(leds, z) < leds.len(),
        first_led(leds, z) < leds.len() ==> leds[first_led(leds, z) as int] == z,
        forall|i: int| 0 <= i < first_led(leds, z) ==> leds[i] != z,
    decreases leds.len(),
{
    if leds.len() > 0 {
        let front = leds.drop_last();
        first_led_is_first(front, z);
        lemma_first_led_push(front, leds.last(), z);
        assert(front.push(leds.last()) =~= leds);
        assert forall|i: int| 0 <= i < first_led(leds, z) implies leds[i] != z by {
            if i < front.len() {
                assert(front[i] == leds[i]);
            }
        }
    }
}

/// Reads `count` LEDs: the zone of each.
fn parse_leds(cursor: &mut Cursor<'_>, count: usize) -> (r: Result<Vec<u32>, String>)
    ensures
        is_field(
            r,
            final(cursor).offset,
            items_at(led_reader(old(cursor).data@), old(cursor).offset as nat, count as nat),
        ),
        final(cursor).data == old(cursor).data,
{
    let ghost reader = led_reader(cursor.data@);
    let ghost first = cursor.offset as nat;
    let mut leds: Vec<u32> = Vec::new();
    let mut i: usize = 0;
    while i < count
        invariant
            i <= count,
            cursor.data == old(cursor).data,
            reader == led_reader(cursor.data@),
            first == old(cursor).offset,
            items_at(reader, first, i as nat) == (
                Ok::<Seq<u32>, Seq<char>>(leds@),
                cursor.offset as nat,
            ),
        decreases count - i,
    {
        assert(reader(cursor.offset as nat, i as nat) == led_at(
            cursor.data@,
            cursor.offset as nat,
        ));
        match cursor.string() {
            Ok(_) => {},
            Err(e) => {
                proof {
                    lemma_items_fail(reader, first, (i + 1) as nat, count as nat);
                }
                return Err(e);
            },
        }
        let zone: u32 = match cursor.u32() {
            Ok(zone) => zone,
            Err(e) => {
                proof {
                    lemma_items_fail(reader, first, (i + 1) as nat, count as nat);
                }
                return Err(e);
            },
        };
        leds.push(zone);
        i += 1;
    }
    Ok(leds)
}

/// Reads `count` modes.
fn parse_modes(cursor: &mut Cursor<'_>, protocol_version: u32, count: usize) -> (r: Result<
    Vec<Mode>,
    String,
>)
    ensures
        final(cursor).data == old(cursor).data,
        ({
            let field = items_at(
                mode_reader(old(cursor).data@, protocol_version),
                old(cursor).offset as nat,
                count as nat,
            );
            &&& final(cursor).offset == field.1
            &&& match r {
                Ok(modes) => field.0 == Ok::<Seq<ModeModel>, Seq<char>>(mode_models(modes@)),
                Err(e) => field.0 == Err::<Seq<ModeModel>, Seq<char>>(e@),
            }
        }),
{
    let ghost reader = mode_reader(cursor.data@, protocol_version);
    let ghost first = cursor.offset as nat;
    let mut modes: Vec<Mode> = Vec::new();
    let mut i: usize = 0;
    assert(mode_models(modes@) =~= Seq::<ModeModel>::empty());
    while i < count
        invariant
            i <= count,
            cursor.data == old(cursor).data,
            reader == mode_reader(cursor.data@, protocol_version),
            first == old(cursor).offset,
            items_at(reader, first, i as nat) == (
                Ok::<Seq<ModeModel>, Seq<char>>(mode_models(modes@)),
                cursor.offset as nat,
            ),
        decreases count - i,
    {
        assert(reader(cursor.offset as nat, i as nat) == mode_at(
            cursor.data@,
            cursor.offset as nat,
            protocol_version,
            i as nat,
        ));
        let ghost before_push = mode_models(modes@);
        match parse_mode(cursor, protocol_version, i) {
            Ok(mode) => {
                modes.push(mode);
                assert(mode_models(modes@) =~= before_push.push(mode@));
            },
            Err(e) => {
                proof {
                    lemma_items_fail(reader, first, (i + 1) as nat, count as nat);
                }
                return Err(e);
            },
        }
        i += 1;
    }
    Ok(modes)
}

/// Reads `count` zones.
fn parse_zones(cursor: &mut Cursor<'_>, protocol_version: u32, count: usize) -> (r: Result<
    Vec<Zone>,
    String,
>)
    ensures
        final(cursor).data == old(cursor).data,
        ({
            let field = items_at(
                zone_reader(old(cursor).data@, protocol_version),
                old(cursor).offset as nat,
                count as nat,
            );
            &&& final(cursor).offset == field.1
            &&& match r {
                Ok(zones) => {
                    &&& field.0 == Ok::<Seq<ZoneModel>, Seq<char>>(zone_models(zones@))
                    &&& zones@.len() == count
                },
                Err(e) => field.0 == Err::<Seq<ZoneModel>, Seq<char>>(e@),
            }
        }),
{
    let ghost reader = zone_reader(cursor.data@, protocol_version);
    let ghost first = cursor.offset as nat;
    let mut zones: Vec<Zone> = Vec::new();
    let mut i: usize = 0;
    assert(zone_models(zones@) =~= Seq::<ZoneModel>::empty());
    while i < count
        invariant
            i <= count,
            zones@.len() == i,
            cursor.data == old(cursor).data,
            reader == zone_reader(cursor.data@, protocol_version),
            first == old(cursor).offset,
            items_at(reader, first, i as nat) == (
                Ok::<Seq<ZoneModel>, Seq<char>>(zone_models(zones@)),
                cursor.offset as nat,
            ),
        decreases count - i,
    {
        assert(reader(cursor.offset as nat, i as nat) == zone_at(
            cursor.data@,
            cursor.offset as nat,
            protocol_version,
            i as nat,
        ));
        let ghost before_push = zone_models(zones@);
        match parse_zone(cursor, protocol_version, i) {
            Ok(zone) => {
                zones.push(zone);
                assert(zone_models(zones@) =~= before_push.push(zone@));
            },
            Err(e) => {
                proof {
                    lemma_items_fail(reader, first, (i + 1) as nat, count as nat);
                }
                return Err(e);
            },
        }
        i += 1;
    }
    Ok(zones)
}

/// Gives each zone its place among the LEDs.
fn place_zones(zones: &mut Vec<Zone>, leds: &Vec<u32>)
    ensures
        zone_models(final(zones)@) == placed_zones(zone_models(old(zones)@), leds@),
{
    let ghost models = zone_models(zones@);
    let n: usize = zones.len();
    let mut first_led_by_zone: Vec<Option<usize>> = Vec::new();
    let mut led_count_by_zone: Vec<usize> = Vec::new();
    let mut z: usize = 0;
    while z < n
        invariant
            z <= n,
            first_led_by_zone@.len() == z,
            led_count_by_zone@.len() == z,
            forall|k: int| 0 <= k < z ==> #[trigger] first_led_by_zone@[k] is None,
            forall|k: int| 0 <= k < z ==> #[trigger] led_count_by_zone@[k] == 0,
        decreases n - z,
    {
        first_led_by_zone.push(None);
        led_count_by_zone.push(0);
        z += 1;
    }
    let mut i: usize = 0;
    while i < leds.len()
        invariant
            i <= leds.len(),
            first_led_by_zone@.len() == n,
            led_count_by_zone@.len() == n,
            forall|k: int|
                0 <= k < n ==> #[trigger] led_count_by_zone@[k] == leds_in_zone(
                    leds@.take(i as int),
                    k,
                ),
            forall|k: int|
                0 <= k < n ==> (match #[trigger] first_led_by_zone@[k] {
                    Some(f) => f < i && f == first_led(leds@.take(i as int), k),
                    None => first_led(leds@.take(i as int), k) == i,
                }),
        decreases leds.len() - i,
    {
        let ghost seen = leds@.take(i as int);
        assert(leds@.take(i + 1) =~= seen.push(leds@[i as int]));
        assert(seen.push(leds@[i as int]).drop_last() =~= seen);
        assert forall|k: int| 0 <= k < n implies first_led(leds@.take(i + 1), k) == (if first_led(
            seen,
            k,
        ) < i {
            first_led(seen, k)
        } else if leds@[i as int] == k {
            i as nat
        } else {
            (i + 1) as nat
        }) && leds_in_zone(seen, k) <= i by {
            lemma_first_led_push(seen, leds@[i as int], k);
            first_led_is_first(seen, k);
        }
        let zone_index: usize = leds[i] as usize;
        if zone_index < n {
            if first_led_by_zone[zone_index].is_none() {
                first_led_by_zone.set(zone_index, Some(i));
            }
            let count: usize = led_count_by_zone[zone_index];
            assert(led_count_by_zone@[zone_index as int] == leds_in_zone(seen, zone_index as int));
            assert(leds_in_zone(seen, zone_index as int) <= i);
            led_count_by_zone.set(zone_index, count + 1);
        }
        i += 1;
    }
    assert(leds@.take(i as int) =~= leds@);
    let mut fallback_start: usize = 0;
    let mut z: usize = 0;
    while z < n
        invariant
            z <= n,
            n == zones@.len() == models.len(),
            models == zone_models(old(zones)@),
            i == leds@.len(),
            leds@.take(i as int) == leds@,
            first_led_by_zone@.len() == n,
            led_count_by_zone@.len() == n,
            forall|k: int| 0 <= k < n ==> #[trigger] led_count_by_zone@[k] == leds_in_zone(leds@, k),
            forall|k: int|
                0 <= k < n ==> (match #[trigger] first_led_by_zone@[k] {
                    Some(f) => f < i && f == first_led(leds@, k),
                    None => first_led(leds@, k) == i,
                }),
            fallback_start == placed_before(models, leds@, z as int),
            forall|k: int|
                0 <= k < n ==> #[trigger] zones@[k]@ == if k < z {
                    placed_zone(models, leds@, k)
                } else {
                    models[k]
                },
        decreases n - z,
    {
        proof {
            first_led_is_first(leds@, z as int);
        }
        let name = zones[z].name.clone();
        let index: usize = zones[z].index;
        let declared: usize = zones[z].count;
        assert(zones@[z as int]@ == models[z as int]);
        let (start, count): (usize, usize) = match first_led_by_zone[z] {
            Some(start) => (start, led_count_by_zone[z]),
            None => (fallback_start, declared),
        };
        zones.set(z, Zone { index, name, start, count });
        assert(zones@[z as int]@ == placed_zone(models, leds@, z as int));
        fallback_start = fallback_start.wrapping_add(count);
        z += 1;
    }
    assert(zone_models(zones@) =~= placed_zones(models, leds@));
}

// ---------------------------------------------------------------------------
// Controllers
// ---------------------------------------------------------------------------
/// The vendor of a controller, which it has from version 1 on.
pub open spec fn vendor_at(data: Seq<u8>, at: nat, version: u32) -> Field<Seq<char>> {
    if version >= 1 {
        string_at(data, at)
    } else {
        (Ok(Seq::empty()), at)
    }
}

/// The version and the serial number of a controller, which do not matter.
pub open spec fn revision_at(data: Seq<u8>, at: nat) -> Field<()> {
    match string_at(data, at) {
        (Err(e), end) => (Err(e), end),
        (Ok(_), end) => match string_at(data, end) {
            (Err(e), end) => (Err(e), end),
            (Ok(_), end) => (Ok(()), end),
        },
    }
}

/// The names of a controller: its name, vendor, description and location. They stand
/// behind the size of the message and the type of the device.
pub open spec fn names_at(data: Seq<u8>, version: u32) -> Field<
    (Seq<char>, Seq<char>, Seq<char>, Seq<char>),
> {
    match words_at(data, 0, 2) {
        (Err(e), end) => (Err(e), end),
        (Ok(_), end) => match string_at(data, end) {
            (Err(e), end) => (Err(e), end),
            (Ok(name), end) => match vendor_at(data, end, version) {
                (Err(e), end) => (Err(e), end),
                (Ok(vendor), end) => match string_at(data, end) {
                    (Err(e), end) => (Err(e), end),
                    (Ok(description), end) => match revision_at(data, end) {
                        (Err(e), end) => (Err(e), end),
                        (Ok(_), end) => match string_at(data, end) {
                            (Err(e), end) => (Err(e), end),
                            (Ok(location), end) => (
                                Ok((name, vendor, description, location)),
                                end,
                            ),
                        },
                    },
                },
            },
        },
    }
}

/// The number of the active mode, and the modes.
pub open spec fn modes_at(data: Seq<u8>, at: nat, version: u32) -> Field<(i32, Seq<ModeModel>)> {
    match u16_at(data, at) {
        (Err(e), end) => (Err(e), end),
        (Ok(count), end) => match i32_at(data, end) {
            (Err(e), end) => (Err(e), end),
            (Ok(active), end) => match items_at(mode_reader(data, version), end, count as nat) {
                (Err(e), end) => (Err(e), end),
                (Ok(modes), end) => (Ok((active, modes)), end),
            },
        },
    }
}

/// The zones, as they describe themselves.
pub open spec fn zones_at(data: Seq<u8>, at: nat, version: u32) -> Field<Seq<ZoneModel>> {
    match u16_at(data, at) {
        (Err(e), end) => (Err(e), end),
        (Ok(count), end) => items_at(zone_reader(data, version), end, count as nat),
    }
}

/// The LEDs: the zone of each.
pub open spec fn leds_at(data: Seq<u8>, at: nat) -> Field<Seq<u32>> {
    match u16_at(data, at) {
        (Err(e), end) => (Err(e), end),
        (Ok(count), end) => items_at(led_reader(data), end, count as nat),
    }
}

/// The controller that a message of the given protocol version describes, or what is
/// wrong with the message.
pub open spec fn controller_in(id: u32, version: u32, data: Seq<u8>) -> Result<
    ControllerModel,
    Seq<char>,
> {
    match names_at(data, version) {
        (Err(e), _) => Err(e),
        (Ok((name, vendor, description, location)), end) => match modes_at(data, end, version) {
            (Err(e), _) => Err(e),
            (Ok((active_mode, modes)), end) => match zones_at(data, end, version) {
                (Err(e), _) => Err(e),
                (Ok(zones), end) => match leds_at(data, end) {
                    (Err(e), _) => Err(e),
                    (Ok(leds), _) => Ok(
                        ControllerModel {
                            id,
                            name,
                            vendor,
                            description,
                            location,
                            active_mode,
                            modes,
                            led_count: leds.len() as int,
                            zones: placed_zones(zones, leds),
                        },
                    ),
                },
            },
        },
    }
}

/// Reads the description of a controller.
pub fn parse_controller(id: u32, protocol_version: u32, data: &[u8]) -> (r: Result<
    Controller,
    String,
>)
    ensures
        match r {
            Ok(c) => controller_in(id, protocol_version, data@) == Ok::<
                ControllerModel,
                Seq<char>,
            >(c@),
            Err(e) => controller_in(id, protocol_version, data@) == Err::<
                ControllerModel,
                Seq<char>,
            >(e@),
        },
{
    let mut cursor = Cursor::new(data);
    // Size of the message and type of the device.
    cursor.words(2)?;
    let name = cursor.string()?;
    let vendor = if protocol_version >= 1 {
        cursor.string()?
    } else {
        String::new()
    };
    let description = cursor.string()?;
    // Version and serial number.
    let _ = cursor.string()?;
    let _ = cursor.string()?;
    let location = cursor.string()?;
    let mode_count: usize = cursor.u16()? as usize;
    let active_mode: i32 = cursor.i32()?;
    let modes = parse_modes(&mut cursor, protocol_version, mode_count)?;
    let zone_count: usize = cursor.u16()? as usize;
    let mut zones = parse_zones(&mut cursor, protocol_version, zone_count)?;
    let led_count: usize = cursor.u16()? as usize;
    let ghost led_offset = cursor.offset as nat;
    let leds = parse_leds(&mut cursor, led_count)?;
    proof {
        lemma_items_len(led_reader(data@), led_offset, led_count as nat);
    }
    place_zones(&mut zones, &leds);
    Ok(
        Controller {
            id,
            name,
            vendor,
            description,
            location,
            active_mode,
            modes,
            led_count,
            zones,
        },
    )
}

// ---------------------------------------------------------------------------
// What holds of every message
// ---------------------------------------------------------------------------
proof fn lemma_leds_in_zone(leds: Seq<u32>, z: int)
    ensures
        first_led(leds, z) + leds_in_zone(leds, z) <= leds.len(),
    decreases leds.len(),
{
    if leds.len() > 0 {
        let front = leds.drop_last();
        lemma_leds_in_zone(front, z);
        lemma_first_led_push(front, leds.last(), z);
        first_led_is_first(front, z);
        assert(front.push(leds.last()) =~= leds);
    }
}

/// A zone that some LED names lies within the LEDs of the controller.
pub proof fn named_zones_lie_within_the_leds(zones: Seq<ZoneModel>, leds: Seq<u32>, z: int)
    requires
        0 <= z < zones.len(),
        leds_in_zone(leds, z) > 0,
    ensures
        0 <= placed_start(zones, leds, z) < leds.len(),
        placed_start(zones, leds, z) + placed_count(zones, leds, z) <= leds.len(),
{
    lemma_leds_in_zone(leds, z);
    first_led_is_first(leds, z);
}

/// How many LEDs the first `z` zones get together.
pub open spec fn placed_sum(zones: Seq<ZoneModel>, leds: Seq<u32>, z: int) -> int
    decreases z,
{
    if z <= 0 {
        0
    } else {
        placed_sum(zones, leds, z - 1) + placed_count(zones, leds, z - 1)
    }
}

/// A zone that no LED names begins where as many LEDs end as the zones before it have, and keeps
/// its own size, as long as a machine can count that far.
pub proof fn unnamed_zones_follow_those_before(zones: Seq<ZoneModel>, leds: Seq<u32>, z: int)
    requires
        0 <= z < zones.len(),
        forall|i: int| 0 <= i < zones.len() ==> 0 <= (#[trigger] zones[i]).count,
        placed_sum(zones, leds, z) <= usize::MAX,
    ensures
        leds_in_zone(leds, z) == 0 ==> {
            &&& placed_start(zones, leds, z) == placed_sum(zones, leds, z)
            &&& placed_count(zones, leds, z) == zones[z].count
        },
{
    lemma_placed_before(zones, leds, z);
}

proof fn lemma_placed_before(zones: Seq<ZoneModel>, leds: Seq<u32>, z: int)
    requires
        0 <= z <= zones.len(),
        forall|i: int| 0 <= i < zones.len() ==> 0 <= (#[trigger] zones[i]).count,
        placed_sum(zones, leds, z) <= usize::MAX,
    ensures
        0 <= placed_sum(zones, leds, z),
        placed_before(zones, leds, z) == placed_sum(zones, leds, z),
    decreases z,
{
    if z > 0 {
        assert(0 <= zones[z - 1].count);
        assert(0 <= placed_count(zones, leds, z - 1));
        lemma_placed_before(zones, leds, z - 1);
    }
}

proof fn lemma_mode_extends(data: Seq<u8>, extra: Seq<u8>, at: nat, version: u32, index: nat)
    ensures
        same_if_read(mode_at(data, at, version, index), mode_at(data + extra, at, version, index)),
{
    lemma_fields_extend(data, extra, at, 0);
    if let (Ok(_), end) = string_at(data, at) {
        lemma_fields_extend(data, extra, end, 0);
        if let (Ok(_), end) = i32_at(data, end) {
            lemma_words_extend(data, extra, end, mode_words(version));
            if let (Ok(_), end) = words_at(data, end, mode_words(version)) {
                lemma_fields_extend(data, extra, end, 0);
                if let (Ok(colors), end) = u16_at(data, end) {
                    lemma_fields_extend(data, extra, end, 4 * colors as nat);
                    if let (Ok(_), end) = skip_at(data, end, 4 * colors as nat) {
                        assert((data + extra).subrange(at as int, end as int) =~= data.subrange(
                            at as int,
                            end as int,
                        ));
                    }
                }
            }
        }
    }
}

proof fn lemma_zone_extends(data: Seq<u8>, extra: Seq<u8>, at: nat, version: u32, index: nat)
    ensures
        same_if_read(zone_at(data, at, version, index), zone_at(data + extra, at, version, index)),
{
    lemma_fields_extend(data, extra, at, 0);
    if let (Ok(_), end) = string_at(data, at) {
        lemma_words_extend(data, extra, end, 3);
        if let (Ok(_), end) = words_at(data, end, 3) {
            lemma_fields_extend(data, extra, end, 0);
            if let (Ok(_), end) = u32_at(data, end) {
                lemma_fields_extend(data, extra, end, 0);
                if let (Ok(matrix_len), end) = u16_at(data, end) {
                    lemma_matrix_extends(data, extra, end, matrix_len);
                    if let (Ok(_), end) = matrix_at(data, end, matrix_len) {
                        lemma_segments_extend(data, extra, end, version);
                        if let (Ok(_), end) = segments_at(data, end, version) {
                            lemma_words_extend(data, extra, end, zone_flag_words(version));
                        }
                    }
                }
            }
        }
    }
}

proof fn lemma_matrix_extends(data: Seq<u8>, extra: Seq<u8>, at: nat, len: u16)
    ensures
        same_if_read(matrix_at(data, at, len), matrix_at(data + extra, at, len)),
{
    let rest = if len > 8 {
        (len - 8) as nat
    } else {
        0
    };
    lemma_words_extend(data, extra, at, 2);
    if let (Ok(_), end) = words_at(data, at, 2) {
        lemma_fields_extend(data, extra, end, rest);
    }
}

proof fn lemma_segments_extend(data: Seq<u8>, extra: Seq<u8>, at: nat, version: u32)
    ensures
        same_if_read(segments_at(data, at, version), segments_at(data + extra, at, version)),
{
    let item = segment_reader(data);
    let longer = segment_reader(data + extra);
    assert forall|p: nat, i: nat| same_if_read(#[trigger] item(p, i), longer(p, i)) by {
        lemma_fields_extend(data, extra, p, 0);
        if let (Ok(_), end) = string_at(data, p) {
            lemma_words_extend(data, extra, end, 3);
        }
    }
    lemma_fields_extend(data, extra, at, 0);
    if let (Ok(count), end) = u16_at(data, at) {
        lemma_items_extend(item, longer, end, count as nat);
    }
}

proof fn lemma_names_extend(data: Seq<u8>, extra: Seq<u8>, version: u32)
    ensures
        same_if_read(names_at(data, version), names_at(data + extra, version)),
{
    lemma_words_extend(data, extra, 0, 2);
    if let (Ok(_), end) = words_at(data, 0, 2) {
        lemma_fields_extend(data, extra, end, 0);
        if let (Ok(_), end) = string_at(data, end) {
            lemma_fields_extend(data, extra, end, 0);
            if let (Ok(_), end) = vendor_at(data, end, version) {
                lemma_fields_extend(data, extra, end, 0);
                if let (Ok(_), end) = string_at(data, end) {
                    lemma_fields_extend(data, extra, end, 0);
                    if let (Ok(_), end) = string_at(data, end) {
                        lemma_fields_extend(data, extra, end, 0);
                        if let (Ok(_), end) = string_at(data, end) {
                            lemma_fields_extend(data, extra, end, 0);
                        }
                    }
                }
            }
        }
    }
}

/// What follows the description of a controller does not matter.
pub proof fn trailing_bytes_do_not_matter(id: u32, version: u32, data: Seq<u8>, extra: Seq<u8>)
    ensures
        controller_in(id, version, data) is Ok ==> controller_in(id, version, data + extra)
            == controller_in(id, version, data),
{
    let long = data + extra;
    lemma_names_extend(data, extra, version);
    if let (Ok(_), end) = names_at(data, version) {
        lemma_fields_extend(data, extra, end, 0);
        if let (Ok(count), end) = u16_at(data, end) {
            lemma_fields_extend(data, extra, end, 0);
            if let (Ok(_), end) = i32_at(data, end) {
                assert forall|p: nat, i: nat|
                    same_if_read(
                        #[trigger] mode_reader(data, version)(p, i),
                        mode_reader(long, version)(p, i),
                    ) by {
                    lemma_mode_extends(data, extra, p, version, i);
                }
                lemma_items_extend(
                    mode_reader(data, version),
                    mode_reader(long, version),
                    end,
                    count as nat,
                );
            }
        }
        if let (Ok(_), end) = modes_at(data, end, version) {
            lemma_fields_extend(data, extra, end, 0);
            if let (Ok(count), end) = u16_at(data, end) {
                assert forall|p: nat, i: nat|
                    same_if_read(
                        #[trigger] zone_reader(data, version)(p, i),
                        zone_reader(long, version)(p, i),
                    ) by {
                    lemma_zone_extends(data, extra, p, version, i);
                }
                lemma_items_extend(
                    zone_reader(data, version),
                    zone_reader(long, version),
                    end,
                    count as nat,
                );
            }
            if let (Ok(_), end) = zones_at(data, end, version) {
                lemma_fields_extend(data, extra, end, 0);
                if let (Ok(count), end) = u16_at(data, end) {
                    assert forall|p: nat, i: nat|
                        same_if_read(#[trigger] led_reader(data)(p, i), led_reader(long)(p, i)) by {
                        lemma_fields_extend(data, extra, p, 0);
                        if let (Ok(_), end) = string_at(data, p) {
                            lemma_fields_extend(data, extra, end, 0);
                        }
                    }
                    lemma_items_extend(led_reader(data), led_reader(long), end, count as nat);
                }
            }
        }
    }
}

} // verus!
