//! The colors of all LEDs at one moment.
use crate::layout::{sections_tile_the_main_display, LedLayout, LedSpan};
use std::ops::Range;
use vstd::prelude::*;

verus! {

/// The color of one LED, as the server takes it.
pub type Led = [u8; 4];

// ---------------------------------------------------------------------------
// Sharing a span
// ---------------------------------------------------------------------------
/// How many GPUs are shown: as many as there are, but no more than there are LEDs.
pub open spec fn shown_gpus(gpu_count: int, led_capacity: int) -> int {
    if gpu_count < led_capacity {
        gpu_count
    } else {
        led_capacity
    }
}

/// How many GPUs are shown.
pub fn displayed_gpu_count(gpu_count: usize, led_capacity: usize) -> (r: usize)
    ensures
        r == shown_gpus(gpu_count as int, led_capacity as int),
{
    if gpu_count < led_capacity {
        gpu_count
    } else {
        led_capacity
    }
}

/// How many LEDs the smaller of the GPU sections has: so many GPUs can be shown.
pub open spec fn smaller_section(layout: LedLayout) -> int {
    if layout.gpu_busy.len < layout.gpu_vram.len {
        layout.gpu_busy.len as int
    } else {
        layout.gpu_vram.len as int
    }
}

/// Where the part of metric `i` begins when `n` metrics share a span.
pub open spec fn share_start(span: LedSpan, i: int, n: int) -> int {
    span.start + i * span.len / n
}

/// The LEDs of metric `metric_index` when `displayed_metrics` metrics share a span.
pub fn metric_led_range(span: &LedSpan, metric_index: usize, displayed_metrics: usize) -> (r: Range<
    usize,
>)
    requires
        displayed_metrics > 0,
        metric_index < usize::MAX,
        (metric_index + 1) * span.len <= usize::MAX,
        share_start(*span, metric_index + 1, displayed_metrics as int) <= usize::MAX,
    ensures
        r.start == share_start(*span, metric_index as int, displayed_metrics as int),
        r.end == share_start(*span, metric_index + 1, displayed_metrics as int),
{
    proof {
        let i = metric_index as int;
        let len = span.len as int;
        let n = displayed_metrics as int;
        assert(0 <= i * len <= (i + 1) * len) by (nonlinear_arith)
            requires
                0 <= i,
                0 <= len,
        ;
        vstd::arithmetic::div_mod::lemma_div_is_ordered(i * len, (i + 1) * len, n);
    }
    let start: usize = span.start + metric_index * span.len / displayed_metrics;
    let end: usize = span.start + (metric_index + 1) * span.len / displayed_metrics;
    start..end
}

proof fn lemma_share_order(span: LedSpan, i: int, j: int, n: int)
    requires
        0 <= i <= j <= n,
        0 < n,
    ensures
        span.start <= share_start(span, i, n) <= share_start(span, j, n) <= span.start + span.len,
{
    let len = span.len as int;
    assert(0 <= i * len <= j * len <= n * len) by (nonlinear_arith)
        requires
            0 <= i <= j <= n,
            0 <= len,
    ;
    vstd::arithmetic::div_mod::lemma_div_is_ordered(0, i * len, n);
    vstd::arithmetic::div_mod::lemma_div_is_ordered(i * len, j * len, n);
    vstd::arithmetic::div_mod::lemma_div_is_ordered(j * len, n * len, n);
    vstd::arithmetic::div_mod::lemma_div_multiples_vanish(len, n);
    vstd::arithmetic::div_mod::lemma_div_multiples_vanish(0, n);
}

/// The parts of the metrics that share a span begin and end with the span, lie in it, and each
/// part begins where the one before it ends.
pub proof fn shares_tile_the_span(span: LedSpan, i: int, n: int)
    requires
        0 <= i < n,
    ensures
        share_start(span, 0, n) == span.start,
        share_start(span, n, n) == span.start + span.len,
        span.start <= share_start(span, i, n) <= share_start(span, i + 1, n) <= span.start
            + span.len,
{
    let len = span.len as int;
    lemma_share_order(span, i, i + 1, n);
    vstd::arithmetic::div_mod::lemma_div_multiples_vanish(len, n);
    vstd::arithmetic::div_mod::lemma_div_multiples_vanish(0, n);
}

/// Every metric has an LED of its own as long as there are no more metrics than LEDs.
pub proof fn every_share_has_an_led(span: LedSpan, i: int, n: int)
    requires
        0 <= i < n <= span.len,
    ensures
        share_start(span, i, n) < share_start(span, i + 1, n),
{
    let len = span.len as int;
    assert((i + 1) * len == i * len + len) by (nonlinear_arith);
    vstd::arithmetic::div_mod::lemma_div_plus_one(i * len, n);
    vstd::arithmetic::div_mod::lemma_div_is_ordered(i * len + n, i * len + len, n);
}

/// However many GPUs there are, each that is shown has an LED of its own in both GPU sections.
pub proof fn displayed_gpus_are_visible(layout: LedLayout, gpu_count: int, gpu: int)
    requires
        0 <= gpu < shown_gpus(gpu_count, smaller_section(layout)),
    ensures
        ({
            let shown = shown_gpus(gpu_count, smaller_section(layout));
            &&& share_start(layout.gpu_busy, gpu, shown) < share_start(
                layout.gpu_busy,
                gpu + 1,
                shown,
            )
            &&& share_start(layout.gpu_vram, gpu, shown) < share_start(
                layout.gpu_vram,
                gpu + 1,
                shown,
            )
        }),
{
    let shown = shown_gpus(gpu_count, smaller_section(layout));
    every_share_has_an_led(layout.gpu_busy, gpu, shown);
    every_share_has_an_led(layout.gpu_vram, gpu, shown);
}

/// The parts of two metrics have no LED in common.
pub proof fn shares_are_disjoint(span: LedSpan, i: int, j: int, n: int, led: int)
    requires
        0 <= i < n,
        0 <= j < n,
        share_start(span, i, n) <= led < share_start(span, i + 1, n),
        share_start(span, j, n) <= led < share_start(span, j + 1, n),
    ensures
        i == j,
{
    if i < j {
        lemma_share_order(span, i + 1, j, n);
    }
    if j < i {
        lemma_share_order(span, j + 1, i, n);
    }
}

/// Every LED of a span belongs to some metric that shares it.
pub proof fn shares_cover_the_span(span: LedSpan, n: int, led: int)
    requires
        0 < n,
        span.holds(led),
    ensures
        exists|i: int|
            0 <= i < n && #[trigger] share_start(span, i, n) <= led < share_start(span, i + 1, n),
{
    shares_tile_the_span(span, 0, n);
    lemma_find_share(span, n, led, n);
}

proof fn lemma_find_share(span: LedSpan, n: int, led: int, k: int)
    requires
        0 < k <= n,
        span.start <= led < share_start(span, k, n),
    ensures
        exists|i: int|
            0 <= i < n && #[trigger] share_start(span, i, n) <= led < share_start(span, i + 1, n),
    decreases k,
{
    shares_tile_the_span(span, 0, n);
    if share_start(span, k - 1, n) <= led {
        assert(share_start(span, k - 1, n) <= led < share_start(span, (k - 1) + 1, n));
    } else {
        lemma_find_share(span, n, led, k - 1);
    }
}

// ---------------------------------------------------------------------------
// Filling
// ---------------------------------------------------------------------------
/// `leds` with `color` from `start` up to `end`.
pub open spec fn filled(leds: Seq<Led>, start: int, end: int, color: Led) -> Seq<Led> {
    Seq::new(
        leds.len(),
        |i: int|
            if start <= i < end {
                color
            } else {
                leds[i]
            },
    )
}

/// Gives the LEDs of a range a color. Positions behind the last LED do not matter.
pub fn fill_leds(leds: &mut [Led], range: Range<usize>, color: Led)
    ensures
        final(leds)@ == filled(old(leds)@, range.start as int, range.end as int, color),
{
    let mut idx: usize = range.start;
    while idx < range.end && idx < leds.len()
        invariant
            leds@.len() == old(leds)@.len(),
            range.start <= idx,
            range.start < range.end ==> idx <= range.end,
            forall|i: int|
                0 <= i < leds@.len() ==> #[trigger] leds@[i] == if range.start <= i < idx && i
                    < range.end {
                    color
                } else {
                    old(leds)@[i]
                },
        decreases leds.len() - idx,
    {
        leds[idx] = color;
        idx += 1;
    }
    assert(leds@ =~= filled(old(leds)@, range.start as int, range.end as int, color));
}

/// A color whose red and green have changed places, as the LEDs are wired.
pub open spec fn wired(rgb: Led) -> Led {
    [rgb[1], rgb[0], rgb[2], 0]
}

/// A color whose red and green have changed places.
pub fn swap_red_green(rgb: Led) -> (r: Led)
    ensures
        r == wired(rgb),
        green_first(r, rgb),
{
    [rgb[1], rgb[0], rgb[2], 0]
}

/// All LEDs dark.
pub open spec fn dark(n: int) -> Seq<Led> {
    Seq::new(n as nat, |i: int| [0u8, 0u8, 0u8, 0u8])
}

fn dark_leds(n: usize) -> (r: Vec<Led>)
    ensures
        r@ == dark(n as int),
{
    let mut r: Vec<Led> = Vec::new();
    let mut i: usize = 0;
    while i < n
        invariant
            i <= n,
            r@.len() == i,
            forall|j: int| 0 <= j < i ==> #[trigger] r@[j] == [0u8, 0u8, 0u8, 0u8],
        decreases n - i,
    {
        r.push([0, 0, 0, 0]);
        i += 1;
    }
    assert(r@ =~= dark(n as int));
    r
}

// ---------------------------------------------------------------------------
// Frames
// ---------------------------------------------------------------------------
/// The color of each metric, red first. There is one for each GPU that is shown.
pub struct FrameColors {
    pub cpu_temp: Led,
    pub gpu_temp: Led,
    pub cpu: Led,
    pub ram: Led,
    pub gpu_busy: Vec<Led>,
    pub gpu_vram: Vec<Led>,
}

/// `leds` with a span in one color.
pub open spec fn span_filled(leds: Seq<Led>, span: LedSpan, color: Led) -> Seq<Led> {
    filled(leds, span.start as int, span.start + span.len, color)
}

/// `leds` with a span in one color, if there is the span.
pub open spec fn zone_filled(leds: Seq<Led>, span: Option<LedSpan>, color: Led) -> Seq<Led> {
    match span {
        Some(span) => span_filled(leds, span, color),
        None => leds,
    }
}

/// `leds` with the parts of the first `k` of several metrics that share a span, each in its
/// color.
pub open spec fn shares_filled(leds: Seq<Led>, span: LedSpan, colors: Seq<Led>, k: int) -> Seq<Led>
    decreases k,
{
    if k <= 0 {
        leds
    } else {
        filled(
            shares_filled(leds, span, colors, k - 1),
            share_start(span, k - 1, colors.len() as int),
            share_start(span, k, colors.len() as int),
            wired(colors[k - 1]),
        )
    }
}

/// The frame that shows the given colors: temperatures first, then the main display over
/// them.
pub open spec fn frame_of(layout: LedLayout, colors: FrameColors) -> Seq<Led> {
    let start = dark(layout.led_count as int);
    let cpu_temp = zone_filled(start, layout.cpu_temp, wired(colors.cpu_temp));
    let gpu_temp = zone_filled(cpu_temp, layout.gpu_temp, wired(colors.gpu_temp));
    let cpu = span_filled(gpu_temp, layout.cpu_usage, wired(colors.cpu));
    let ram = span_filled(cpu, layout.ram_usage, wired(colors.ram));
    let busy = shares_filled(
        ram,
        layout.gpu_busy,
        colors.gpu_busy@,
        colors.gpu_busy@.len() as int,
    );
    shares_filled(busy, layout.gpu_vram, colors.gpu_vram@, colors.gpu_vram@.len() as int)
}

/// The frame in which every span has the same color.
pub open spec fn plain_frame_of(layout: LedLayout, color: Led) -> Seq<Led> {
    let start = dark(layout.led_count as int);
    let cpu = span_filled(start, layout.cpu_usage, color);
    let ram = span_filled(cpu, layout.ram_usage, color);
    let busy = span_filled(ram, layout.gpu_busy, color);
    let vram = span_filled(busy, layout.gpu_vram, color);
    let cpu_temp = zone_filled(vram, layout.cpu_temp, color);
    zone_filled(cpu_temp, layout.gpu_temp, color)
}

/// The span of a zone ends, if there is one.
pub open spec fn zone_ends(span: Option<LedSpan>) -> bool {
    span matches Some(span) ==> span.ends()
}

/// The ends of all spans can be counted.
pub open spec fn spans_end(layout: LedLayout) -> bool {
    &&& layout.cpu_usage.ends()
    &&& layout.ram_usage.ends()
    &&& layout.gpu_busy.ends()
    &&& layout.gpu_vram.ends()
    &&& zone_ends(layout.cpu_temp)
    &&& zone_ends(layout.gpu_temp)
}

/// The parts of `n` metrics in a span can be counted.
pub open spec fn can_share(span: LedSpan, n: int) -> bool {
    n * span.len <= usize::MAX
}

fn span_ends(span: &LedSpan) -> (r: bool)
    ensures
        r == span.ends(),
{
    span.len <= usize::MAX - span.start
}

fn optional_span_ends(span: &Option<LedSpan>) -> (r: bool)
    ensures
        r == zone_ends(*span),
{
    match span {
        Some(span) => span_ends(span),
        None => true,
    }
}

/// Whether the ends of all spans can be counted.
pub fn all_spans_end(layout: &LedLayout) -> (r: bool)
    ensures
        r == spans_end(*layout),
{
    span_ends(&layout.cpu_usage) && span_ends(&layout.ram_usage) && span_ends(&layout.gpu_busy)
        && span_ends(&layout.gpu_vram) && optional_span_ends(&layout.cpu_temp)
        && optional_span_ends(&layout.gpu_temp)
}

/// Whether the parts of `n` metrics in a span can be counted.
pub fn shares_can_be_counted(span: &LedSpan, n: usize) -> (r: bool)
    ensures
        r == can_share(*span, n as int),
{
    proof {
        let m = n as int;
        let len = span.len as int;
        assert(m * len == len * m) by (nonlinear_arith);
        assert(m == 0 ==> m * len == 0) by (nonlinear_arith);
    }
    if n == 0 {
        return true;
    }
    let limit: usize = usize::MAX / n;
    proof {
        let m = n as int;
        let len = span.len as int;
        let max = usize::MAX as int;
        if len <= max / m {
            assert(m * len <= max) by (nonlinear_arith)
                requires
                    0 < m,
                    len <= max / m,
            ;
        } else {
            assert(m * len > max) by (nonlinear_arith)
                requires
                    0 < m,
                    len > max / m,
            ;
        }
    }
    span.len <= limit
}

fn fill_span(leds: &mut Vec<Led>, span: &LedSpan, color: Led)
    requires
        span.ends(),
    ensures
        final(leds)@ == span_filled(old(leds)@, *span, color),
{
    fill_leds(leds.as_mut_slice(), span.range(), color);
}

fn fill_zone(leds: &mut Vec<Led>, span: &Option<LedSpan>, color: Led)
    requires
        zone_ends(*span),
    ensures
        final(leds)@ == zone_filled(old(leds)@, *span, color),
{
    if let Some(span) = span {
        fill_span(leds, span, color);
    }
}

fn fill_shares(leds: &mut Vec<Led>, span: &LedSpan, colors: &Vec<Led>)
    requires
        span.ends(),
        can_share(*span, colors@.len() as int),
    ensures
        final(leds)@ == shares_filled(old(leds)@, *span, colors@, colors@.len() as int),
{
    let n: usize = colors.len();
    let mut i: usize = 0;
    while i < n
        invariant
            i <= n,
            n == colors@.len(),
            span.ends(),
            can_share(*span, n as int),
            leds@ == shares_filled(old(leds)@, *span, colors@, i as int),
        decreases n - i,
    {
        proof {
            shares_tile_the_span(*span, i as int, n as int);
            let len = span.len as int;
            assert((i + 1) * len <= n * len) by (nonlinear_arith)
                requires
                    i + 1 <= n,
                    0 <= len,
            ;
        }
        let range = metric_led_range(span, i, n);
        fill_leds(leds.as_mut_slice(), range, swap_red_green(colors[i]));
        i += 1;
    }
}

/// Draws a frame.
pub fn draw_frame(layout: &LedLayout, colors: &FrameColors) -> (r: Vec<Led>)
    requires
        spans_end(*layout),
        can_share(layout.gpu_busy, colors.gpu_busy@.len() as int),
        can_share(layout.gpu_vram, colors.gpu_vram@.len() as int),
    ensures
        r@ == frame_of(*layout, *colors),
{
    let mut leds = dark_leds(layout.led_count);
    fill_zone(&mut leds, &layout.cpu_temp, swap_red_green(colors.cpu_temp));
    fill_zone(&mut leds, &layout.gpu_temp, swap_red_green(colors.gpu_temp));
    fill_span(&mut leds, &layout.cpu_usage, swap_red_green(colors.cpu));
    fill_span(&mut leds, &layout.ram_usage, swap_red_green(colors.ram));
    fill_shares(&mut leds, &layout.gpu_busy, &colors.gpu_busy);
    fill_shares(&mut leds, &layout.gpu_vram, &colors.gpu_vram);
    leds
}

/// Draws a frame in which every span has the same color.
pub fn draw_plain_frame(layout: &LedLayout, color: Led) -> (r: Vec<Led>)
    requires
        spans_end(*layout),
    ensures
        r@ == plain_frame_of(*layout, color),
{
    let mut leds = dark_leds(layout.led_count);
    fill_span(&mut leds, &layout.cpu_usage, color);
    fill_span(&mut leds, &layout.ram_usage, color);
    fill_span(&mut leds, &layout.gpu_busy, color);
    fill_span(&mut leds, &layout.gpu_vram, color);
    fill_zone(&mut leds, &layout.cpu_temp, color);
    fill_zone(&mut leds, &layout.gpu_temp, color);
    leds
}

// ---------------------------------------------------------------------------
// What a frame shows
// ---------------------------------------------------------------------------
/// LED `i` belongs to the span of a zone, if there is one.
pub open spec fn zone_holds(span: Option<LedSpan>, i: int) -> bool {
    span matches Some(span) && span.holds(i)
}

proof fn lemma_shares_filled(leds: Seq<Led>, span: LedSpan, colors: Seq<Led>, k: int, led: int)
    requires
        0 <= k <= colors.len(),
        0 <= led < leds.len(),
    ensures
        shares_filled(leds, span, colors, k).len() == leds.len(),
        !span.holds(led) ==> shares_filled(leds, span, colors, k)[led] == leds[led],
        forall|j: int|
            0 <= j < k && #[trigger] share_start(span, j, colors.len() as int) <= led < share_start(
                span,
                j + 1,
                colors.len() as int,
            ) ==> shares_filled(leds, span, colors, k)[led] == wired(colors[j]),
    decreases k,
{
    let n = colors.len() as int;
    if k > 0 {
        lemma_shares_filled(leds, span, colors, k - 1, led);
        shares_tile_the_span(span, k - 1, n);
        assert forall|j: int|
            0 <= j < k && #[trigger] share_start(span, j, n) <= led < share_start(
                span,
                j + 1,
                n,
            ) implies shares_filled(leds, span, colors, k)[led] == wired(colors[j]) by {
            if j < k - 1 {
                if share_start(span, k - 1, n) <= led < share_start(span, k, n) {
                    shares_are_disjoint(span, j, k - 1, n, led);
                }
            }
        }
    }
}

/// Every LED of a section of the main display shows its metric, whichever zones show the
/// temperatures: the CPU section the CPU, the memory section the memory, and in the GPU
/// sections the part of each GPU that GPU.
pub proof fn main_display_shows_its_metrics(
    layout: LedLayout,
    colors: FrameColors,
    start: int,
    n: int,
    led: int,
    gpu: int,
)
    requires
        0 <= n,
        layout.divides(start, n),
        0 <= led < layout.led_count,
    ensures
        frame_of(layout, colors).len() == layout.led_count,
        layout.cpu_usage.holds(led) ==> frame_of(layout, colors)[led] == wired(colors.cpu),
        layout.ram_usage.holds(led) ==> frame_of(layout, colors)[led] == wired(colors.ram),
        ({
            let shown = colors.gpu_busy@.len() as int;
            0 <= gpu < shown && share_start(layout.gpu_busy, gpu, shown) <= led < share_start(
                layout.gpu_busy,
                gpu + 1,
                shown,
            ) ==> frame_of(layout, colors)[led] == wired(colors.gpu_busy@[gpu])
        }),
        ({
            let shown = colors.gpu_vram@.len() as int;
            0 <= gpu < shown && share_start(layout.gpu_vram, gpu, shown) <= led < share_start(
                layout.gpu_vram,
                gpu + 1,
                shown,
            ) ==> frame_of(layout, colors)[led] == wired(colors.gpu_vram@[gpu])
        }),
{
    sections_tile_the_main_display(layout, start, n);
    lemma_frame(layout, colors, led);
    let busy = colors.gpu_busy@.len() as int;
    if 0 <= gpu < busy {
        shares_tile_the_span(layout.gpu_busy, gpu, busy);
    }
}

proof fn lemma_frame(layout: LedLayout, colors: FrameColors, led: int)
    requires
        0 <= led < layout.led_count,
    ensures
        frame_of(layout, colors).len() == layout.led_count,
        ({
            let frame = frame_of(layout, colors);
            let busy = colors.gpu_busy@.len() as int;
            let vram = colors.gpu_vram@.len() as int;
            &&& forall|j: int|
                0 <= j < vram && #[trigger] share_start(layout.gpu_vram, j, vram) <= led
                    < share_start(layout.gpu_vram, j + 1, vram) ==> frame[led] == wired(
                    colors.gpu_vram@[j],
                )
            &&& !layout.gpu_vram.holds(led) ==> {
                &&& forall|j: int|
                    0 <= j < busy && #[trigger] share_start(layout.gpu_busy, j, busy) <= led
                        < share_start(layout.gpu_busy, j + 1, busy) ==> frame[led] == wired(
                        colors.gpu_busy@[j],
                    )
                &&& !layout.gpu_busy.holds(led) ==> frame[led] == if layout.ram_usage.holds(led) {
                    wired(colors.ram)
                } else if layout.cpu_usage.holds(led) {
                    wired(colors.cpu)
                } else if zone_holds(layout.gpu_temp, led) {
                    wired(colors.gpu_temp)
                } else if zone_holds(layout.cpu_temp, led) {
                    wired(colors.cpu_temp)
                } else {
                    [0u8, 0u8, 0u8, 0u8]
                }
            }
        }),
{
    let start = dark(layout.led_count as int);
    let cpu_temp = zone_filled(start, layout.cpu_temp, wired(colors.cpu_temp));
    let gpu_temp = zone_filled(cpu_temp, layout.gpu_temp, wired(colors.gpu_temp));
    let cpu = span_filled(gpu_temp, layout.cpu_usage, wired(colors.cpu));
    let ram = span_filled(cpu, layout.ram_usage, wired(colors.ram));
    let busy_len = colors.gpu_busy@.len() as int;
    lemma_shares_filled(ram, layout.gpu_busy, colors.gpu_busy@, busy_len, led);
    let busy = shares_filled(ram, layout.gpu_busy, colors.gpu_busy@, busy_len);
    let vram_len = colors.gpu_vram@.len() as int;
    lemma_shares_filled(busy, layout.gpu_vram, colors.gpu_vram@, vram_len, led);
}

/// Outside the main display, an LED shows the GPU temperature where its zone is, or else the
/// CPU temperature where its zone is; any other LED is dark.
pub proof fn other_leds_show_temperatures_or_nothing(
    layout: LedLayout,
    colors: FrameColors,
    led: int,
)
    requires
        0 <= led < layout.led_count,
        !layout.cpu_usage.holds(led),
        !layout.ram_usage.holds(led),
        !layout.gpu_busy.holds(led),
        !layout.gpu_vram.holds(led),
    ensures
        frame_of(layout, colors)[led] == if zone_holds(layout.gpu_temp, led) {
            wired(colors.gpu_temp)
        } else if zone_holds(layout.cpu_temp, led) {
            wired(colors.cpu_temp)
        } else {
            [0u8, 0u8, 0u8, 0u8]
        },
{
    lemma_frame(layout, colors, led);
}

/// In a plain frame an LED has the color exactly where some span holds it.
pub proof fn plain_frame_covers_every_span(layout: LedLayout, color: Led, led: int)
    requires
        0 <= led < layout.led_count,
    ensures
        plain_frame_of(layout, color).len() == layout.led_count,
        plain_frame_of(layout, color)[led] == if layout.cpu_usage.holds(led)
            || layout.ram_usage.holds(led) || layout.gpu_busy.holds(led)
            || layout.gpu_vram.holds(led) || zone_holds(layout.cpu_temp, led) || zone_holds(
            layout.gpu_temp,
            led,
        ) {
            color
        } else {
            [0u8, 0u8, 0u8, 0u8]
        },
{
}

// ---------------------------------------------------------------------------
// What every LED of a frame is
// ---------------------------------------------------------------------------
/// An LED takes green first, then red, then blue, and nothing behind them.
pub open spec fn green_first(led: Led, rgb: Led) -> bool {
    led[0] == rgb[1] && led[1] == rgb[0] && led[2] == rgb[2] && led[3] == 0
}

/// Whatever its color, an LED is wired green first.
pub proof fn leds_are_wired_green_first(rgb: Led)
    ensures
        green_first(wired(rgb), rgb),
{
}

/// The part of a metric begins behind that share of the LEDs of its span, rounded down, that the
/// metrics before it have of all metrics.
pub proof fn shares_are_rounded_down(span: LedSpan, i: int, n: int)
    requires
        0 <= i,
        0 < n,
    ensures
        n * (share_start(span, i, n) - span.start) <= i * span.len,
        i * span.len < n * (share_start(span, i, n) - span.start + 1),
{
    let all = i * span.len;
    let q = all / n;
    vstd::arithmetic::div_mod::lemma_fundamental_div_mod(all, n);
    vstd::arithmetic::div_mod::lemma_mod_bound(all, n);
    assert(n * (q + 1) == n * q + n) by (nonlinear_arith);
}

/// Filling a range changes the LEDs in it, and no other.
pub proof fn filling_changes_the_range_only(leds: Seq<Led>, start: int, end: int, color: Led, i: int)
    requires
        0 <= i < leds.len(),
    ensures
        filled(leds, start, end, color).len() == leds.len(),
        start <= i && i < end ==> filled(leds, start, end, color)[i] == color,
        i < start || end <= i ==> filled(leds, start, end, color)[i] == leds[i],
{
}

/// As many GPUs are shown as there are, and no more than fit.
pub proof fn no_more_gpus_are_shown_than_fit(gpu_count: int, led_capacity: int)
    ensures
        shown_gpus(gpu_count, led_capacity) <= gpu_count,
        shown_gpus(gpu_count, led_capacity) <= led_capacity,
        shown_gpus(gpu_count, led_capacity) == gpu_count || shown_gpus(gpu_count, led_capacity)
            == led_capacity,
{
}

/// The LED lies in the span.
pub open spec fn lies_in(led: int, span: LedSpan) -> bool {
    span.start <= led && led < span.start + span.len
}

/// The LED lies in the part that metric `i` has of a span that `n` metrics share.
pub open spec fn lies_in_part(led: int, span: LedSpan, i: int, n: int) -> bool {
    span.start + i * span.len / n <= led && led < span.start + (i + 1) * span.len / n
}

/// A frame has a color for each LED of the controller. Where the sections of the main display do
/// not overlap, each LED of the CPU section has the color of the CPU, each of the memory section
/// that of the memory, and in the GPU sections each in the part of a GPU that of the GPU; outside
/// these sections, and in a GPU section without a GPU, an LED has the color of the GPU temperature
/// where that is shown, or else of the CPU temperature where that is, and any other LED is dark.
/// All colors are wired green first.
pub proof fn every_led_has_its_color(layout: LedLayout, colors: FrameColors, led: int, gpu: int)
    requires
        0 <= led < layout.led_count,
        layout.cpu_usage.start + layout.cpu_usage.len <= layout.ram_usage.start,
        layout.ram_usage.start + layout.ram_usage.len <= layout.gpu_busy.start,
        layout.gpu_busy.start + layout.gpu_busy.len <= layout.gpu_vram.start,
    ensures
        ({
            let frame = frame_of(layout, colors);
            let busy = colors.gpu_busy@.len() as int;
            let vram = colors.gpu_vram@.len() as int;
            let on_display = lies_in(led, layout.cpu_usage) || lies_in(led, layout.ram_usage) || (
            busy > 0 && lies_in(led, layout.gpu_busy)) || (vram > 0 && lies_in(
                led,
                layout.gpu_vram,
            ));
            let on_gpu_temp = layout.gpu_temp is Some && lies_in(led, layout.gpu_temp->Some_0);
            let on_cpu_temp = layout.cpu_temp is Some && lies_in(led, layout.cpu_temp->Some_0);
            &&& frame.len() == layout.led_count
            &&& lies_in(led, layout.cpu_usage) ==> green_first(frame[led], colors.cpu)
            &&& lies_in(led, layout.ram_usage) ==> green_first(frame[led], colors.ram)
            &&& 0 <= gpu < busy && lies_in_part(led, layout.gpu_busy, gpu, busy) ==> green_first(
                frame[led],
                colors.gpu_busy@[gpu],
            )
            &&& 0 <= gpu < vram && lies_in_part(led, layout.gpu_vram, gpu, vram) ==> green_first(
                frame[led],
                colors.gpu_vram@[gpu],
            )
            &&& !on_display && on_gpu_temp ==> green_first(frame[led], colors.gpu_temp)
            &&& !on_display && !on_gpu_temp && on_cpu_temp ==> green_first(
                frame[led],
                colors.cpu_temp,
            )
            &&& !on_display && !on_gpu_temp && !on_cpu_temp ==> frame[led] == [0u8, 0u8, 0u8, 0u8]
        }),
{
    let busy = colors.gpu_busy@.len() as int;
    let vram = colors.gpu_vram@.len() as int;
    lemma_frame(layout, colors, led);
    lemma_empty_sections(layout, colors, led);
    if 0 <= gpu < busy {
        shares_tile_the_span(layout.gpu_busy, gpu, busy);
        assert(share_start(layout.gpu_busy, gpu, busy) == layout.gpu_busy.start + gpu
            * layout.gpu_busy.len / busy);
    }
    if 0 <= gpu < vram {
        shares_tile_the_span(layout.gpu_vram, gpu, vram);
        assert(share_start(layout.gpu_vram, gpu, vram) == layout.gpu_vram.start + gpu
            * layout.gpu_vram.len / vram);
    }
}

proof fn lemma_empty_sections(layout: LedLayout, colors: FrameColors, led: int)
    requires
        0 <= led < layout.led_count,
    ensures
        ({
            let busy = colors.gpu_busy@.len();
            let vram = colors.gpu_vram@.len();
            (busy == 0 || !layout.gpu_busy.holds(led)) && (vram == 0 || !layout.gpu_vram.holds(led))
                ==> frame_of(layout, colors)[led] == if layout.ram_usage.holds(led) {
                wired(colors.ram)
            } else if layout.cpu_usage.holds(led) {
                wired(colors.cpu)
            } else if zone_holds(layout.gpu_temp, led) {
                wired(colors.gpu_temp)
            } else if zone_holds(layout.cpu_temp, led) {
                wired(colors.cpu_temp)
            } else {
                [0u8, 0u8, 0u8, 0u8]
            }
        }),
{
    let start = dark(layout.led_count as int);
    let cpu_temp = zone_filled(start, layout.cpu_temp, wired(colors.cpu_temp));
    let gpu_temp = zone_filled(cpu_temp, layout.gpu_temp, wired(colors.gpu_temp));
    let cpu = span_filled(gpu_temp, layout.cpu_usage, wired(colors.cpu));
    let ram = span_filled(cpu, layout.ram_usage, wired(colors.ram));
    let busy_len = colors.gpu_busy@.len() as int;
    lemma_shares_filled(ram, layout.gpu_busy, colors.gpu_busy@, busy_len, led);
    let busy = shares_filled(ram, layout.gpu_busy, colors.gpu_busy@, busy_len);
    let vram_len = colors.gpu_vram@.len() as int;
    lemma_shares_filled(busy, layout.gpu_vram, colors.gpu_vram@, vram_len, led);
}

/// A plain frame has a color for each LED of the controller, which is the given one in every span
/// and dark elsewhere.
pub proof fn every_span_has_the_plain_color(layout: LedLayout, color: Led, led: int)
    requires
        0 <= led < layout.led_count,
    ensures
        ({
            let frame = plain_frame_of(layout, color);
            let lit = lies_in(led, layout.cpu_usage) || lies_in(led, layout.ram_usage) || lies_in(
                led,
                layout.gpu_busy,
            ) || lies_in(led, layout.gpu_vram) || (layout.gpu_temp is Some && lies_in(
                led,
                layout.gpu_temp->Some_0,
            )) || (layout.cpu_temp is Some && lies_in(led, layout.cpu_temp->Some_0));
            &&& frame.len() == layout.led_count
            &&& lit ==> frame[led] == color
            &&& !lit ==> frame[led] == [0u8, 0u8, 0u8, 0u8]
        }),
{
    plain_frame_covers_every_span(layout, color, led);
}

/// Spans end, and can be shared, within what a machine can count.
pub proof fn spans_end_within_what_is_counted(layout: LedLayout, n: int)
    ensures
        spans_end(layout) <==> {
            &&& layout.cpu_usage.start + layout.cpu_usage.len <= usize::MAX
            &&& layout.ram_usage.start + layout.ram_usage.len <= usize::MAX
            &&& layout.gpu_busy.start + layout.gpu_busy.len <= usize::MAX
            &&& layout.gpu_vram.start + layout.gpu_vram.len <= usize::MAX
            &&& layout.cpu_temp is Some ==> layout.cpu_temp->Some_0.start
                + layout.cpu_temp->Some_0.len <= usize::MAX
            &&& layout.gpu_temp is Some ==> layout.gpu_temp->Some_0.start
                + layout.gpu_temp->Some_0.len <= usize::MAX
        },
        can_share(layout.gpu_busy, n) <==> n * layout.gpu_busy.len <= usize::MAX,
{
}

} // verus!
