//! Which LEDs show what.
use crate::config::Config;
use crate::openrgb::{Controller, Zone, ZoneModel};
use crate::search::{best_where, best_where_is_best, first_where, first_where_is_first};
use crate::selection::{addressable, is_addressable, mentions};
use crate::text::{
    contains, lowered, occurs_in, opt_str, opt_text, same, stands_at, strs, to_chars, to_lower,
};
use std::ops::Range;
use vstd::prelude::*;

verus! {

/// How many LEDs of the main display are taken to be attached unless a number is set.
pub const DEFAULT_AIO_ACTIVE_LEDS: usize = 36;

/// A run of LEDs.
pub struct LedSpan {
    pub label: String,
    pub start: usize,
    pub len: usize,
}

impl LedSpan {
    /// The span is called `label` and consists of `len` LEDs from `start` on.
    pub open spec fn is(&self, label: Seq<char>, start: int, len: int) -> bool {
        self.label@ == label && self.start == start && self.len == len
    }

    /// The end of the span can be counted.
    pub open spec fn ends(&self) -> bool {
        self.start + self.len <= usize::MAX
    }

    /// LED `i` belongs to the span.
    pub open spec fn holds(&self, i: int) -> bool {
        self.start <= i < self.start + self.len
    }

    /// The LEDs of a zone.
    pub fn from_zone(zone: &Zone) -> (r: Self)
        ensures
            r.is(zone.name@, zone.start as int, zone.count as int),
    {
        Self { label: zone.name.clone(), start: zone.start, len: zone.count }
    }

    /// The positions of the LEDs.
    pub fn range(&self) -> (r: Range<usize>)
        requires
            self.ends(),
        ensures
            r.start == self.start,
            r.end == self.start + self.len,
    {
        self.start..self.start + self.len
    }
}

/// A span from its parts.
pub fn span_from_parts(label: &str, start: usize, len: usize) -> (r: LedSpan)
    ensures
        r.is(label@, start as int, len as int),
{
    LedSpan { label: label.to_string(), start, len }
}

// ---------------------------------------------------------------------------
// Choosing zones
// ---------------------------------------------------------------------------
/// The zone has the given name, in lower case.
pub open spec fn is_named(name: Seq<char>) -> spec_fn(ZoneModel) -> bool {
    |zone: ZoneModel| lowered(zone.name) == name
}

/// The name of the zone mentions `t`.
pub open spec fn name_mentions(t: Seq<char>) -> spec_fn(ZoneModel) -> bool {
    |zone: ZoneModel| mentions(zone.name, t)
}

/// Any zone will do.
pub open spec fn any_zone() -> spec_fn(ZoneModel) -> bool {
    |zone: ZoneModel| true
}

/// `a` has no fewer LEDs than `b`.
pub open spec fn as_large() -> spec_fn(ZoneModel, ZoneModel) -> bool {
    |a: ZoneModel, b: ZoneModel| a.count >= b.count
}

/// The zone that a selector names: the first of that name, or else the first whose name
/// mentions it, in either case.
pub open spec fn zone_named(zones: Seq<ZoneModel>, selector: Seq<char>) -> Option<int> {
    match first_where(zones, is_named(lowered(selector))) {
        Some(i) => Some(i),
        None => first_where(zones, name_mentions(lowered(selector))),
    }
}

/// The zone that the first of the given names with a zone names.
pub open spec fn default_zone(zones: Seq<ZoneModel>, defaults: Seq<Seq<char>>) -> Option<int>
    decreases defaults.len(),
{
    if defaults.len() == 0 {
        None
    } else {
        match zone_named(zones, defaults[0]) {
            Some(i) => Some(i),
            None => default_zone(zones, defaults.drop_first()),
        }
    }
}

/// The zone that the selector names, or else a default.
pub open spec fn chosen_zone(
    zones: Seq<ZoneModel>,
    selector: Option<Seq<char>>,
    defaults: Seq<Seq<char>>,
) -> Option<int> {
    let selected = match selector {
        Some(selector) => zone_named(zones, selector),
        None => None,
    };
    match selected {
        Some(i) => Some(i),
        None => default_zone(zones, defaults),
    }
}

/// The zone of the main display: the one that the selector names, the default, the largest
/// addressable zone or the largest zone, whichever there is first.
pub open spec fn main_zone(zones: Seq<ZoneModel>, selector: Option<Seq<char>>) -> Option<int> {
    match chosen_zone(zones, selector, seq!["Addressable Header 3/Audio"@]) {
        Some(i) => Some(i),
        None => match best_where(zones, is_addressable(), as_large()) {
            Some(i) => Some(i),
            None => best_where(zones, any_zone(), as_large()),
        },
    }
}

/// `zone` is the zone of the controller at the given position, if there is one.
pub open spec fn is_zone_of(zone: Option<&Zone>, controller: Controller, position: Option<int>) -> bool {
    match position {
        Some(i) => 0 <= i < controller.zones@.len() && zone == Some(&controller.zones@[i]),
        None => zone is None,
    }
}

/// The zone that a selector names.
pub fn matching_zone<'a>(controller: &'a Controller, selector: &str) -> (r: Option<&'a Zone>)
    ensures
        is_zone_of(r, *controller, zone_named(controller@.zones, selector@)),
{
    let chars = to_chars(selector);
    let wanted = to_lower(chars.as_slice());
    let ghost zones = controller@.zones;
    let mut exact: Option<usize> = None;
    let mut partial: Option<usize> = None;
    let mut i: usize = 0;
    assert(zones.take(0) =~= Seq::<ZoneModel>::empty());
    while i < controller.zones.len()
        invariant
            wanted@ == lowered(selector@),
            zones == controller@.zones,
            zones.len() == controller.zones@.len(),
            i <= controller.zones.len(),
            match exact {
                Some(k) => k < i && first_where(zones.take(i as int), is_named(wanted@)) == Some(
                    k as int,
                ),
                None => first_where(zones.take(i as int), is_named(wanted@)) is None,
            },
            match partial {
                Some(k) => k < i && first_where(zones.take(i as int), name_mentions(wanted@))
                    == Some(k as int),
                None => first_where(zones.take(i as int), name_mentions(wanted@)) is None,
            },
        decreases controller.zones.len() - i,
    {
        assert(zones.take(i + 1).drop_last() =~= zones.take(i as int));
        let name = to_chars(controller.zones[i].name.as_str());
        let low = to_lower(name.as_slice());
        if exact.is_none() && same(low.as_slice(), wanted.as_slice()) {
            exact = Some(i);
        }
        if partial.is_none() && contains(low.as_slice(), wanted.as_slice()) {
            partial = Some(i);
        }
        i += 1;
    }
    assert(zones.take(i as int) =~= zones);
    let position: Option<usize> = match exact {
        Some(k) => Some(k),
        None => partial,
    };
    match position {
        Some(k) => Some(&controller.zones[k]),
        None => None,
    }
}

/// The zone that the selector names, or else a default.
pub fn choose_zone<'a>(
    controller: &'a Controller,
    selector: Option<&str>,
    defaults: &[&str],
) -> (r: Option<&'a Zone>)
    ensures
        is_zone_of(
            r,
            *controller,
            chosen_zone(controller@.zones, opt_str(selector), strs(defaults@)),
        ),
{
    if let Some(selector) = selector {
        if let Some(zone) = matching_zone(controller, selector) {
            return Some(zone);
        }
    }
    let ghost names = strs(defaults@);
    let mut i: usize = 0;
    assert(names.skip(0) =~= names);
    while i < defaults.len()
        invariant
            i <= defaults.len(),
            names == strs(defaults@),
            default_zone(controller@.zones, names) == default_zone(
                controller@.zones,
                names.skip(i as int),
            ),
            chosen_zone(controller@.zones, opt_str(selector), names) == default_zone(
                controller@.zones,
                names,
            ),
        decreases defaults.len() - i,
    {
        assert(names.skip(i as int).drop_first() =~= names.skip(i + 1));
        assert(names.skip(i as int)[0] == defaults@[i as int]@);
        if let Some(zone) = matching_zone(controller, defaults[i]) {
            return Some(zone);
        }
        i += 1;
    }
    None
}

/// The largest zone, or the largest addressable one; of several the last.
fn largest_zone<'a>(controller: &'a Controller, only_addressable: bool) -> (r: Option<&'a Zone>)
    ensures
        is_zone_of(
            r,
            *controller,
            best_where(
                controller@.zones,
                if only_addressable {
                    is_addressable()
                } else {
                    any_zone()
                },
                as_large(),
            ),
        ),
{
    let ghost zones = controller@.zones;
    let ghost fits = if only_addressable {
        is_addressable()
    } else {
        any_zone()
    };
    let mut best: Option<usize> = None;
    let mut i: usize = 0;
    assert(zones.take(0) =~= Seq::<ZoneModel>::empty());
    while i < controller.zones.len()
        invariant
            zones == controller@.zones,
            zones.len() == controller.zones@.len(),
            fits == (if only_addressable {
                is_addressable()
            } else {
                any_zone()
            }),
            i <= controller.zones.len(),
            match best {
                Some(k) => k < i && best_where(zones.take(i as int), fits, as_large()) == Some(
                    k as int,
                ),
                None => best_where(zones.take(i as int), fits, as_large()) is None,
            },
        decreases controller.zones.len() - i,
    {
        assert(zones.take(i + 1).drop_last() =~= zones.take(i as int));
        let fit = !only_addressable || addressable(&controller.zones[i]);
        let better = match best {
            Some(k) => controller.zones[i].count >= controller.zones[k].count,
            None => true,
        };
        if fit && better {
            best = Some(i);
        }
        i += 1;
    }
    assert(zones.take(i as int) =~= zones);
    match best {
        Some(k) => Some(&controller.zones[k]),
        None => None,
    }
}

/// The zone of the main display.
pub fn choose_aio_zone<'a>(controller: &'a Controller, selector: Option<&str>) -> (r: Option<
    &'a Zone,
>)
    ensures
        is_zone_of(r, *controller, main_zone(controller@.zones, opt_str(selector))),
{
    let defaults: [&str; 1] = ["Addressable Header 3/Audio"];
    assert(strs(defaults@) =~= seq!["Addressable Header 3/Audio"@]);
    match choose_zone(controller, selector, &defaults) {
        Some(zone) => Some(zone),
        None => match largest_zone(controller, true) {
            Some(zone) => Some(zone),
            None => largest_zone(controller, false),
        },
    }
}

/// There is a zone for the main display exactly where there is a zone.
pub proof fn some_zone_is_the_main_one(zones: Seq<ZoneModel>, selector: Option<Seq<char>>)
    ensures
        match main_zone(zones, selector) {
            Some(i) => 0 <= i < zones.len(),
            None => zones.len() == 0,
        },
{
    lemma_chosen_zone(zones, selector, seq!["Addressable Header 3/Audio"@]);
    best_where_is_best(zones, is_addressable(), as_large());
    best_where_is_best(zones, any_zone(), as_large());
    if zones.len() > 0 {
        assert(any_zone()(zones[0]));
    }
}

proof fn lemma_zone_named(zones: Seq<ZoneModel>, selector: Seq<char>)
    ensures
        zone_named(zones, selector) matches Some(i) ==> 0 <= i < zones.len() && mentions(
            zones[i].name,
            lowered(selector),
        ),
{
    first_where_is_first(zones, is_named(lowered(selector)));
    first_where_is_first(zones, name_mentions(lowered(selector)));
    if let Some(i) = first_where(zones, is_named(lowered(selector))) {
        let name = lowered(zones[i].name);
        assert(name.subrange(0, name.len() as int) =~= name);
        assert(stands_at(name, name, 0));
    }
}

proof fn lemma_default_zone(zones: Seq<ZoneModel>, defaults: Seq<Seq<char>>)
    ensures
        default_zone(zones, defaults) matches Some(i) ==> 0 <= i < zones.len(),
    decreases defaults.len(),
{
    if defaults.len() > 0 {
        lemma_zone_named(zones, defaults[0]);
        lemma_default_zone(zones, defaults.drop_first());
    }
}

proof fn lemma_chosen_zone(
    zones: Seq<ZoneModel>,
    selector: Option<Seq<char>>,
    defaults: Seq<Seq<char>>,
)
    ensures
        chosen_zone(zones, selector, defaults) matches Some(i) ==> 0 <= i < zones.len(),
{
    lemma_default_zone(zones, defaults);
    if let Some(selector) = selector {
        lemma_zone_named(zones, selector);
    }
}

/// A selector that occurs in the name of a zone, in either case, chooses a zone in whose
/// name it occurs, whatever the defaults.
pub proof fn a_selector_beats_the_defaults(
    zones: Seq<ZoneModel>,
    selector: Seq<char>,
    defaults: Seq<Seq<char>>,
    k: int,
)
    requires
        0 <= k < zones.len(),
        mentions(zones[k].name, lowered(selector)),
    ensures
        chosen_zone(zones, Some(selector), defaults) == zone_named(zones, selector),
        main_zone(zones, Some(selector)) == zone_named(zones, selector),
        zone_named(zones, selector) matches Some(i) && 0 <= i < zones.len() && mentions(
            zones[i].name,
            lowered(selector),
        ),
{
    lemma_zone_named(zones, selector);
    first_where_is_first(zones, name_mentions(lowered(selector)));
    assert(name_mentions(lowered(selector))(zones[k]));
}

/// Without a selector and a zone of the default name, the main display is an addressable zone
/// if there is one, and no addressable zone is larger.
pub proof fn main_zone_is_the_largest_addressable(zones: Seq<ZoneModel>, k: int)
    requires
        zone_named(zones, "Addressable Header 3/Audio"@) is None,
        0 <= k < zones.len(),
        mentions(zones[k].name, "addressable"@),
    ensures
        main_zone(zones, None) matches Some(i) && 0 <= i < zones.len() && mentions(
            zones[i].name,
            "addressable"@,
        ) && zones[i].count >= zones[k].count,
{
    let defaults = seq!["Addressable Header 3/Audio"@];
    assert(defaults.drop_first().len() == 0);
    assert(default_zone(zones, defaults) is None) by {
        reveal_with_fuel(default_zone, 2);
    }
    best_where_is_best(zones, is_addressable(), as_large());
    assert(is_addressable()(zones[k]));
}

// ---------------------------------------------------------------------------
// The layout
// ---------------------------------------------------------------------------
/// Which LEDs show what.
pub struct LedLayout {
    pub led_count: usize,
    pub cpu_usage: LedSpan,
    pub ram_usage: LedSpan,
    pub gpu_busy: LedSpan,
    pub gpu_vram: LedSpan,
    pub cpu_temp: Option<LedSpan>,
    pub gpu_temp: Option<LedSpan>,
}

/// How many LEDs of the main display are in use: as many as are set, but no more than
/// there are.
pub open spec fn active_leds(setting: Option<usize>, zone_count: int) -> int {
    let wanted = match setting {
        Some(n) => n as int,
        None => DEFAULT_AIO_ACTIVE_LEDS as int,
    };
    if wanted < zone_count {
        wanted
    } else {
        zone_count
    }
}

/// The LEDs for the pump: a third.
pub open spec fn pump_part(n: int) -> int {
    n / 3
}

/// The LEDs for GPU load: half of what the pump leaves.
pub open spec fn busy_part(n: int) -> int {
    (n - pump_part(n)) / 2
}

/// The LEDs for GPU memory: the rest.
pub open spec fn vram_part(n: int) -> int {
    n - pump_part(n) - busy_part(n)
}

/// The LEDs for CPU load: half of the pump.
pub open spec fn cpu_part(n: int) -> int {
    pump_part(n) / 2
}

/// The LEDs for memory: the rest of the pump.
pub open spec fn ram_part(n: int) -> int {
    pump_part(n) - cpu_part(n)
}

/// The span of a zone, if there is one.
pub open spec fn is_zone_span(
    span: Option<LedSpan>,
    zones: Seq<ZoneModel>,
    position: Option<int>,
) -> bool {
    match (span, position) {
        (Some(span), Some(i)) => span.is(zones[i].name, zones[i].start, zones[i].count),
        (None, None) => true,
        _ => false,
    }
}

/// The zone whose LEDs show the CPU temperature.
pub open spec fn cpu_temp_zone(zones: Seq<ZoneModel>, config: Config) -> Option<int> {
    chosen_zone(zones, opt_text(config.cpu_temp_zone), seq!["PCB"@, "IO Cover"@])
}

/// The zone whose LEDs show the GPU temperature.
pub open spec fn gpu_temp_zone(zones: Seq<ZoneModel>, config: Config) -> Option<int> {
    chosen_zone(zones, opt_text(config.gpu_temp_zone), seq!["IO Cover"@, "PCB"@])
}

impl LedLayout {
    /// The sections of the main display lie one behind the other from `start` on and take
    /// `n` LEDs together.
    pub open spec fn divides(&self, start: int, n: int) -> bool {
        let ram_start = start + cpu_part(n);
        let busy_start = ram_start + ram_part(n);
        let vram_start = busy_start + busy_part(n);
        &&& self.cpu_usage.is("CPU usage"@, start, cpu_part(n))
        &&& self.ram_usage.is("RAM usage"@, ram_start, ram_part(n))
        &&& self.gpu_busy.is("GPU busy"@, busy_start, busy_part(n))
        &&& self.gpu_vram.is("GPU VRAM"@, vram_start, vram_part(n))
    }

    /// There is a zone for the main display, and the end of the LEDs in use there can be
    /// counted.
    pub open spec fn possible(controller: Controller, config: Config) -> bool {
        let zones = controller@.zones;
        match main_zone(zones, opt_text(config.aio_zone)) {
            Some(i) => 0 <= i < zones.len() && zones[i].start + active_leds(
                config.aio_leds,
                zones[i].count,
            ) <= usize::MAX,
            None => false,
        }
    }

    /// Whether the LEDs of the controller can be laid out.
    pub fn is_possible(controller: &Controller, config: &Config) -> (r: bool)
        ensures
            r == Self::possible(*controller, *config),
    {
        let aio_zone = match choose_aio_zone(controller, selector_of(&config.aio_zone)) {
            Some(zone) => zone,
            None => {
                return false;
            },
        };
        let active: usize = active_aio_leds(config, aio_zone);
        active <= usize::MAX - aio_zone.start
    }

    /// Lays out the LEDs of a controller.
    pub fn discover(controller: &Controller, config: &Config) -> (r: Self)
        requires
            Self::possible(*controller, *config),
        ensures
            r.led_count == controller.led_count,
            ({
                let zones = controller@.zones;
                let main = zones[main_zone(zones, opt_text(config.aio_zone))->Some_0];
                &&& r.divides(main.start, active_leds(config.aio_leds, main.count))
                &&& is_zone_span(r.cpu_temp, zones, cpu_temp_zone(zones, *config))
                &&& is_zone_span(r.gpu_temp, zones, gpu_temp_zone(zones, *config))
            }),
    {
        let aio_zone = choose_aio_zone(controller, selector_of(&config.aio_zone)).unwrap();
        let active: usize = active_aio_leds(config, aio_zone);
        let pump_len: usize = active / 3;
        let gpu_busy_len: usize = (active - pump_len) / 2;
        let gpu_vram_len: usize = active - pump_len - gpu_busy_len;
        let cpu_len: usize = pump_len / 2;
        let ram_len: usize = pump_len - cpu_len;

        let mut start: usize = aio_zone.start;
        let cpu_usage = span_from_parts("CPU usage", start, cpu_len);
        start += cpu_len;
        let ram_usage = span_from_parts("RAM usage", start, ram_len);
        start += ram_len;
        let gpu_busy = span_from_parts("GPU busy", start, gpu_busy_len);
        start += gpu_busy_len;
        let gpu_vram = span_from_parts("GPU VRAM", start, gpu_vram_len);

        let cpu_defaults: [&str; 2] = ["PCB", "IO Cover"];
        assert(strs(cpu_defaults@) =~= seq!["PCB"@, "IO Cover"@]);
        let cpu_temp = match choose_zone(
            controller,
            selector_of(&config.cpu_temp_zone),
            &cpu_defaults,
        ) {
            Some(zone) => Some(LedSpan::from_zone(zone)),
            None => None,
        };
        let gpu_defaults: [&str; 2] = ["IO Cover", "PCB"];
        assert(strs(gpu_defaults@) =~= seq!["IO Cover"@, "PCB"@]);
        let gpu_temp = match choose_zone(
            controller,
            selector_of(&config.gpu_temp_zone),
            &gpu_defaults,
        ) {
            Some(zone) => Some(LedSpan::from_zone(zone)),
            None => None,
        };
        Self {
            led_count: controller.led_count,
            cpu_usage,
            ram_usage,
            gpu_busy,
            gpu_vram,
            cpu_temp,
            gpu_temp,
        }
    }
}

fn selector_of<'a>(setting: &'a Option<String>) -> (r: Option<&'a str>)
    ensures
        opt_str(r) == opt_text(*setting),
{
    match setting {
        Some(s) => Some(s.as_str()),
        None => None,
    }
}

fn active_aio_leds(config: &Config, zone: &Zone) -> (n: usize)
    ensures
        n == active_leds(config.aio_leds, zone.count as int),
{
    let wanted: usize = match config.aio_leds {
        Some(n) => n,
        None => DEFAULT_AIO_ACTIVE_LEDS,
    };
    if wanted < zone.count {
        wanted
    } else {
        zone.count
    }
}

/// The sections of the main display are disjoint, follow each other without a gap and take
/// exactly the LEDs in use; the three thirds differ by one LED at most, and so do the halves
/// of the pump.
pub proof fn sections_tile_the_main_display(layout: LedLayout, start: int, n: int)
    requires
        0 <= n,
        layout.divides(start, n),
    ensures
        layout.cpu_usage.start == start,
        layout.ram_usage.start == layout.cpu_usage.start + layout.cpu_usage.len,
        layout.gpu_busy.start == layout.ram_usage.start + layout.ram_usage.len,
        layout.gpu_vram.start == layout.gpu_busy.start + layout.gpu_busy.len,
        layout.gpu_vram.start + layout.gpu_vram.len == start + n,
        layout.cpu_usage.len <= layout.ram_usage.len <= layout.cpu_usage.len + 1,
        ({
            let pump = layout.cpu_usage.len + layout.ram_usage.len;
            pump <= layout.gpu_busy.len <= layout.gpu_vram.len <= pump + 1
        }),
{
}

/// The main display uses no LED outside its zone.
pub proof fn active_leds_lie_in_the_zone(setting: Option<usize>, zone_count: int)
    requires
        0 <= zone_count,
    ensures
        0 <= active_leds(setting, zone_count) <= zone_count,
        setting matches Some(n) ==> (n <= zone_count ==> active_leds(setting, zone_count) == n),
{
}

// ---------------------------------------------------------------------------
// What the settings choose
// ---------------------------------------------------------------------------
/// The name of zone `i` holds the text, in either case.
pub open spec fn holds_text(zones: Seq<ZoneModel>, text: Seq<char>, i: int) -> bool {
    0 <= i < zones.len() && occurs_in(lowered(text), lowered(zones[i].name))
}

/// The name of some zone holds the text, in either case.
pub open spec fn some_holds(zones: Seq<ZoneModel>, text: Seq<char>) -> bool {
    exists|i: int| holds_text(zones, text, i)
}

/// The name of zone `i` is the text, in either case.
pub open spec fn is_text(zones: Seq<ZoneModel>, text: Seq<char>, i: int) -> bool {
    0 <= i < zones.len() && lowered(zones[i].name) == lowered(text)
}

/// A text means zone `i`: it is the first whose name is the text or, if there is none, the first
/// whose name holds it.
pub open spec fn means_zone(zones: Seq<ZoneModel>, text: Seq<char>, i: int) -> bool {
    if exists|j: int| is_text(zones, text, j) {
        is_text(zones, text, i) && forall|j: int| is_text(zones, text, j) ==> i <= j
    } else {
        holds_text(zones, text, i) && forall|j: int| holds_text(zones, text, j) ==> i <= j
    }
}

/// The span has the name and the LEDs of the zone.
pub open spec fn spans_zone(span: LedSpan, zone: ZoneModel) -> bool {
    span.label@ == zone.name && span.start == zone.start && span.len == zone.count
}

/// A text means a zone exactly where the name of some zone holds it, and then the first that is called
/// so or, if none is, the first whose name holds it.
pub proof fn a_text_means_the_first_zone_of_its_name(zones: Seq<ZoneModel>, text: Seq<char>)
    ensures
        match zone_named(zones, text) {
            Some(i) => means_zone(zones, text, i) && some_holds(zones, text),
            None => !some_holds(zones, text),
        },
{
    let exact = is_named(lowered(text));
    let part = name_mentions(lowered(text));
    first_where_is_first(zones, exact);
    first_where_is_first(zones, part);
    lemma_zone_named(zones, text);
    assert forall|j: int| 0 <= j < zones.len() implies (exact(#[trigger] zones[j]) <==> is_text(
        zones,
        text,
        j,
    )) && (part(zones[j]) <==> holds_text(zones, text, j)) by {}
    assert forall|j: int| #[trigger] is_text(zones, text, j) implies exact(zones[j]) by {
        assert(exact(zones[j]) <==> is_text(zones, text, j));
    }
    assert forall|j: int| #[trigger] holds_text(zones, text, j) implies part(zones[j]) by {
        assert(part(zones[j]) <==> holds_text(zones, text, j));
    }
    match first_where(zones, exact) {
        Some(i) => {
            assert(exact(zones[i]));
            assert(is_text(zones, text, i));
            assert forall|j: int| #[trigger] is_text(zones, text, j) implies i <= j by {
                assert(exact(zones[j]));
            }
            assert(holds_text(zones, text, i));
        },
        None => {
            assert forall|j: int| !(#[trigger] is_text(zones, text, j)) by {
                if is_text(zones, text, j) {
                    assert(exact(zones[j]));
                }
            }
            if let Some(i) = first_where(zones, part) {
                assert(part(zones[i]));
                assert(holds_text(zones, text, i));
                assert forall|j: int| #[trigger] holds_text(zones, text, j) implies i <= j by {
                    assert(part(zones[j]));
                }
            }
        },
    }
}

/// The span is that of the zone that the text means.
pub open spec fn shows_meant_zone(
    span: Option<LedSpan>,
    zones: Seq<ZoneModel>,
    text: Seq<char>,
) -> bool {
    &&& span is Some
    &&& exists|i: int|
        #![trigger means_zone(zones, text, i)]
        means_zone(zones, text, i) && spans_zone(span->Some_0, zones[i])
}

/// The span shows what the setting asks for: the zone that it means if it means one, or else the
/// zone that the first default means, or else the second; none of them means none.
pub open spec fn follows_setting(
    span: Option<LedSpan>,
    zones: Seq<ZoneModel>,
    setting: Option<Seq<char>>,
    first: Seq<char>,
    second: Seq<char>,
) -> bool {
    if setting is Some && some_holds(zones, setting->Some_0) {
        shows_meant_zone(span, zones, setting->Some_0)
    } else if some_holds(zones, first) {
        shows_meant_zone(span, zones, first)
    } else if some_holds(zones, second) {
        shows_meant_zone(span, zones, second)
    } else {
        span is None
    }
}

proof fn lemma_follows_setting(
    span: Option<LedSpan>,
    zones: Seq<ZoneModel>,
    setting: Option<Seq<char>>,
    first: Seq<char>,
    second: Seq<char>,
)
    requires
        is_zone_span(span, zones, chosen_zone(zones, setting, seq![first, second])),
    ensures
        follows_setting(span, zones, setting, first, second),
{
    let defaults = seq![first, second];
    reveal_with_fuel(default_zone, 3);
    assert(defaults.drop_first()[0] == second);
    assert(defaults.drop_first().drop_first().len() == 0);
    assert(default_zone(zones, defaults) == match zone_named(zones, first) {
        Some(i) => Some(i),
        None => zone_named(zones, second),
    });
    if let Some(s) = setting {
        a_text_means_the_first_zone_of_its_name(zones, s);
    }
    a_text_means_the_first_zone_of_its_name(zones, first);
    a_text_means_the_first_zone_of_its_name(zones, second);
    if let Some(i) = chosen_zone(zones, setting, defaults) {
        assert(span is Some);
        assert(spans_zone(span->Some_0, zones[i]));
        if setting is Some && some_holds(zones, setting->Some_0) {
            assert(means_zone(zones, setting->Some_0, i));
        } else if some_holds(zones, first) {
            assert(means_zone(zones, first, i));
        } else {
            assert(means_zone(zones, second, i));
        }
    }
}

/// Each temperature is shown where its own setting says: on the zone that the setting means, and
/// where it is not set or means none, the CPU's on `PCB` or else `IO Cover`, and the GPUs' on
/// `IO Cover` or else `PCB`.
pub proof fn temperatures_are_shown_where_they_are_set(
    layout: LedLayout,
    zones: Seq<ZoneModel>,
    config: Config,
)
    requires
        is_zone_span(layout.cpu_temp, zones, cpu_temp_zone(zones, config)),
        is_zone_span(layout.gpu_temp, zones, gpu_temp_zone(zones, config)),
    ensures
        follows_setting(
            layout.cpu_temp,
            zones,
            opt_text(config.cpu_temp_zone),
            "PCB"@,
            "IO Cover"@,
        ),
        follows_setting(
            layout.gpu_temp,
            zones,
            opt_text(config.gpu_temp_zone),
            "IO Cover"@,
            "PCB"@,
        ),
{
    lemma_follows_setting(
        layout.cpu_temp,
        zones,
        opt_text(config.cpu_temp_zone),
        "PCB"@,
        "IO Cover"@,
    );
    lemma_follows_setting(
        layout.gpu_temp,
        zones,
        opt_text(config.gpu_temp_zone),
        "IO Cover"@,
        "PCB"@,
    );
}

/// The name of zone `i` holds `addressable`, in either case.
pub open spec fn is_addressable_zone(zones: Seq<ZoneModel>, i: int) -> bool {
    0 <= i < zones.len() && occurs_in("addressable"@, lowered(zones[i].name))
}

/// The main display is the zone that the setting means; where it is not set or means none, the one
/// that `Addressable Header 3/Audio` means; where that means none, the largest of the zones that
/// are addressable by name, or of all zones if none is, and the last of several as large.
pub proof fn the_main_display_is_where_it_is_set(
    zones: Seq<ZoneModel>,
    setting: Option<Seq<char>>,
    k: int,
)
    requires
        0 <= k < zones.len(),
    ensures
        main_zone(zones, setting) matches Some(i) && 0 <= i < zones.len() && {
            if setting is Some && some_holds(zones, setting->Some_0) {
                means_zone(zones, setting->Some_0, i)
            } else if some_holds(zones, "Addressable Header 3/Audio"@) {
                means_zone(zones, "Addressable Header 3/Audio"@, i)
            } else if exists|j: int| is_addressable_zone(zones, j) {
                &&& is_addressable_zone(zones, i)
                &&& is_addressable_zone(zones, k) ==> zones[k].count < zones[i].count || (
                zones[k].count == zones[i].count && k <= i)
            } else {
                zones[k].count < zones[i].count || (zones[k].count == zones[i].count && k <= i)
            }
        },
{
    let name = "Addressable Header 3/Audio"@;
    let defaults = seq![name];
    some_zone_is_the_main_one(zones, setting);
    reveal_with_fuel(default_zone, 2);
    assert(defaults.drop_first().len() == 0);
    if let Some(s) = setting {
        a_text_means_the_first_zone_of_its_name(zones, s);
    }
    a_text_means_the_first_zone_of_its_name(zones, name);
    best_where_is_best(zones, is_addressable(), as_large());
    best_where_is_best(zones, any_zone(), as_large());
    assert forall|j: int| 0 <= j < zones.len() implies (is_addressable()(#[trigger] zones[j])
        <==> is_addressable_zone(zones, j)) && any_zone()(zones[j]) by {}
    assert(is_addressable()(zones[k]) <==> is_addressable_zone(zones, k));
    if exists|j: int| is_addressable_zone(zones, j) {
        let j = choose|j: int| is_addressable_zone(zones, j);
        assert(is_addressable()(zones[j]));
    }
    let i = main_zone(zones, setting)->Some_0;
    assert(is_addressable()(zones[i]) <==> is_addressable_zone(zones, i));
    assert(as_large()(zones[k], zones[i]) <==> zones[k].count >= zones[i].count);
    assert(as_large()(zones[i], zones[k]) <==> zones[i].count >= zones[k].count);
    assert(any_zone()(zones[k]));
}

/// Of the main display as many LEDs are used as are set, or 36 if no number is, but no more than
/// the zone has. From its first LED on a third of them show the pump, of which the first half is
/// for the CPU and the rest for the memory; the first half of the others shows how busy the GPUs
/// are, and the rest their memory.
pub proof fn the_main_display_is_divided_in_thirds(
    layout: LedLayout,
    zone: ZoneModel,
    setting: Option<usize>,
    n: int,
)
    requires
        0 <= zone.count,
        layout.divides(zone.start, active_leds(setting, zone.count)),
        setting matches Some(m) ==> n == vstd::math::min(m as int, zone.count),
        setting is None ==> n == vstd::math::min(36, zone.count),
    ensures
        layout.cpu_usage.label@ == "CPU usage"@,
        layout.ram_usage.label@ == "RAM usage"@,
        layout.gpu_busy.label@ == "GPU busy"@,
        layout.gpu_vram.label@ == "GPU VRAM"@,
        layout.cpu_usage.start == zone.start,
        layout.ram_usage.start == zone.start + layout.cpu_usage.len,
        layout.gpu_busy.start == zone.start + n / 3,
        layout.gpu_vram.start == zone.start + n / 3 + layout.gpu_busy.len,
        layout.cpu_usage.len == n / 3 / 2,
        layout.cpu_usage.len + layout.ram_usage.len == n / 3,
        layout.gpu_busy.len == (n - n / 3) / 2,
        layout.gpu_vram.start + layout.gpu_vram.len == zone.start + n,
{
}

/// A zone that was chosen by its position is that zone, and spans tell their LEDs.
pub proof fn positions_and_spans_mean_what_they_say(
    zone: Option<&Zone>,
    controller: Controller,
    position: Option<int>,
    span: LedSpan,
    led: int,
)
    ensures
        is_zone_of(zone, controller, position) ==> match position {
            Some(i) => 0 <= i < controller.zones@.len() && zone == Some(&controller.zones@[i]),
            None => zone is None,
        },
        span.holds(led) <==> span.start <= led < span.start + span.len,
        span.ends() <==> span.start + span.len <= usize::MAX,
{
}

/// LEDs can be laid out exactly where there is a zone and the LEDs in use of the main display end
/// within what a machine can count.
pub proof fn layouts_are_possible_where_there_is_a_zone(controller: Controller, config: Config)
    ensures
        controller.zones@.len() == 0 ==> !LedLayout::possible(controller, config),
        controller.zones@.len() > 0 ==> {
            let zones = controller@.zones;
            let zone = zones[main_zone(zones, opt_text(config.aio_zone))->Some_0];
            let wanted = match config.aio_leds {
                Some(n) => n as int,
                None => 36,
            };
            LedLayout::possible(controller, config) <==> zone.start + vstd::math::min(
                wanted,
                zone.count,
            ) <= usize::MAX
        },
{
    some_zone_is_the_main_one(controller@.zones, opt_text(config.aio_zone));
}

/// Of several default names the first that means a zone counts, and they come behind a selector
/// that means one.
pub proof fn the_first_default_that_means_a_zone_counts(
    zones: Seq<ZoneModel>,
    selector: Option<Seq<char>>,
    defaults: Seq<Seq<char>>,
    k: int,
)
    ensures
        selector is Some && some_holds(zones, selector->Some_0) ==> (chosen_zone(
            zones,
            selector,
            defaults,
        ) matches Some(i) && means_zone(zones, selector->Some_0, i)),
        (selector is None || !some_holds(zones, selector->Some_0)) && 0 <= k < defaults.len()
            && some_holds(zones, defaults[k]) && (forall|j: int|
            0 <= j < k ==> !some_holds(zones, #[trigger] defaults[j])) ==> (chosen_zone(
            zones,
            selector,
            defaults,
        ) matches Some(i) && means_zone(zones, defaults[k], i)),
        (selector is None || !some_holds(zones, selector->Some_0)) && (forall|j: int|
            0 <= j < defaults.len() ==> !some_holds(zones, #[trigger] defaults[j]))
            ==> chosen_zone(zones, selector, defaults) is None,
{
    if let Some(text) = selector {
        a_text_means_the_first_zone_of_its_name(zones, text);
    }
    lemma_first_default(zones, defaults, k);
}

proof fn lemma_first_default(zones: Seq<ZoneModel>, defaults: Seq<Seq<char>>, k: int)
    ensures
        0 <= k < defaults.len() && some_holds(zones, defaults[k]) && (forall|j: int|
            0 <= j < k ==> !some_holds(zones, #[trigger] defaults[j])) ==> (default_zone(
            zones,
            defaults,
        ) matches Some(i) && means_zone(zones, defaults[k], i)),
        (forall|j: int| 0 <= j < defaults.len() ==> !some_holds(zones, #[trigger] defaults[j]))
            ==> default_zone(zones, defaults) is None,
    decreases defaults.len(),
{
    if defaults.len() > 0 {
        let rest = defaults.drop_first();
        a_text_means_the_first_zone_of_its_name(zones, defaults[0]);
        lemma_first_default(zones, rest, k - 1);
        assert forall|j: int| 0 <= j < rest.len() implies #[trigger] rest[j] == defaults[j + 1] by {}
        if 0 < k < defaults.len() && (forall|j: int|
            0 <= j < k ==> !some_holds(zones, #[trigger] defaults[j])) {
            assert(rest[k - 1] == defaults[k]);
            assert(!some_holds(zones, defaults[0]));
            assert forall|j: int| 0 <= j < k - 1 implies !some_holds(
                zones,
                #[trigger] rest[j],
            ) by {
                assert(!some_holds(zones, defaults[j + 1]));
            }
        }
        if forall|j: int| 0 <= j < defaults.len() ==> !some_holds(zones, #[trigger] defaults[j]) {
            assert(!some_holds(zones, defaults[0]));
            assert forall|j: int| 0 <= j < rest.len() implies !some_holds(
                zones,
                #[trigger] rest[j],
            ) by {
                assert(!some_holds(zones, defaults[j + 1]));
            }
        }
    }
}

} // verus!
