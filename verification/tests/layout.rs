use sysmon::config::{Config, Environment};
use sysmon::frame::{
    all_spans_end, displayed_gpu_count, draw_frame, draw_plain_frame, fill_leds,
    metric_led_range, shares_can_be_counted, swap_red_green, FrameColors,
};
use sysmon::layout::{
    choose_aio_zone, choose_zone, matching_zone, span_from_parts, LedLayout, LedSpan,
};
use sysmon::openrgb::{Controller, Zone};

const TEST_ZONE_LEDS: usize = 12;

fn test_span() -> LedSpan {
    LedSpan {
        label: "test".to_string(),
        start: 0,
        len: TEST_ZONE_LEDS,
    }
}

fn zone_spans(displayed_gpus: usize) -> Vec<Vec<usize>> {
    let span = test_span();
    (0..displayed_gpus)
        .map(|i| metric_led_range(&span, i, displayed_gpus).collect())
        .collect()
}

#[test]
fn display_count_is_limited_by_physical_leds() {
    assert_eq!(displayed_gpu_count(0, TEST_ZONE_LEDS), 0);
    assert_eq!(displayed_gpu_count(5, TEST_ZONE_LEDS), 5);
    assert_eq!(displayed_gpu_count(20, TEST_ZONE_LEDS), TEST_ZONE_LEDS);
}

#[test]
fn gpu_led_ranges_fill_zone_for_common_gpu_counts() {
    assert_eq!(
        zone_spans(1),
        vec![vec![0, 1, 2, 3, 4, 5, 6, 7, 8, 9, 10, 11]]
    );
    assert_eq!(
        zone_spans(2),
        vec![vec![0, 1, 2, 3, 4, 5], vec![6, 7, 8, 9, 10, 11]]
    );
    assert_eq!(
        zone_spans(3),
        vec![vec![0, 1, 2, 3], vec![4, 5, 6, 7], vec![8, 9, 10, 11]]
    );
    assert_eq!(
        zone_spans(4),
        vec![vec![0, 1, 2], vec![3, 4, 5], vec![6, 7, 8], vec![9, 10, 11]]
    );
}

#[test]
fn gpu_led_ranges_keep_every_displayed_gpu_visible() {
    for displayed_gpus in 1..=TEST_ZONE_LEDS {
        let spans = zone_spans(displayed_gpus);
        assert!(spans.iter().all(|span| !span.is_empty()));

        let covered: Vec<_> = spans.into_iter().flatten().collect();
        assert_eq!(covered, (0..TEST_ZONE_LEDS).collect::<Vec<_>>());
    }
}

#[test]
fn uneven_shares_round_down() {
    let span = LedSpan { label: "test".to_string(), start: 100, len: 7 };
    assert_eq!(metric_led_range(&span, 0, 3), 100..102);
    assert_eq!(metric_led_range(&span, 1, 3), 102..104);
    assert_eq!(metric_led_range(&span, 2, 3), 104..107);
}

fn zone(index: usize, name: &str, start: usize, count: usize) -> Zone {
    Zone { index, name: name.to_string(), start, count }
}

fn controller(led_count: usize, zones: Vec<Zone>) -> Controller {
    Controller {
        id: 7,
        name: "Board".to_string(),
        vendor: String::new(),
        description: String::new(),
        location: String::new(),
        active_mode: 0,
        modes: Vec::new(),
        led_count,
        zones,
    }
}

fn settings(file: &str) -> Config {
    let env = Environment {
        openrgb_host: None,
        openrgb_port: None,
        openrgb_device: None,
        aio_zone: None,
        aio_leds: None,
        cpu_temp_zone: None,
        gpu_temp_zone: None,
    };
    Config::load(&env, Some(file))
}

fn board() -> Controller {
    controller(
        140,
        vec![
            zone(0, "PCB", 0, 4),
            zone(1, "IO Cover", 4, 6),
            zone(2, "Addressable Header 1", 10, 20),
            zone(3, "Addressable Header 3/Audio", 30, 80),
            zone(4, "Addressable Header 2", 110, 30),
        ],
    )
}

#[test]
fn zones_match_by_name_before_part_of_name() {
    let c = controller(
        30,
        vec![zone(0, "My PCB", 0, 10), zone(1, "pcb", 10, 10), zone(2, "PCB", 20, 10)],
    );
    assert_eq!(matching_zone(&c, "PCB").unwrap().index, 1);
    assert_eq!(matching_zone(&c, "my").unwrap().index, 0);
    assert!(matching_zone(&c, "header").is_none());
}

#[test]
fn a_selector_comes_before_the_defaults() {
    let c = board();
    assert_eq!(choose_zone(&c, Some("io"), &["PCB"]).unwrap().index, 1);
    assert_eq!(choose_zone(&c, Some("nothing"), &["none", "PCB"]).unwrap().index, 0);
    assert!(choose_zone(&c, None, &["none"]).is_none());
    assert!(choose_zone(&c, None, &[]).is_none());
}

#[test]
fn main_zone_falls_back_to_the_largest() {
    assert_eq!(choose_aio_zone(&board(), None).unwrap().index, 3);
    assert_eq!(choose_aio_zone(&board(), Some("header 1")).unwrap().index, 2);

    let addressable = controller(
        100,
        vec![
            zone(0, "Huge", 0, 60),
            zone(1, "addressable a", 60, 20),
            zone(2, "ADDRESSABLE b", 80, 20),
        ],
    );
    assert_eq!(choose_aio_zone(&addressable, None).unwrap().index, 2);

    let plain = controller(50, vec![zone(0, "A", 0, 30), zone(1, "B", 30, 20)]);
    assert_eq!(choose_aio_zone(&plain, None).unwrap().index, 0);
    assert!(choose_aio_zone(&controller(0, Vec::new()), None).is_none());
}

#[test]
fn the_main_display_has_three_sections() {
    let layout = LedLayout::discover(&board(), &settings(""));
    assert_eq!(layout.led_count, 140);
    assert_eq!(layout.cpu_usage.range(), 30..36);
    assert_eq!(layout.ram_usage.range(), 36..42);
    assert_eq!(layout.gpu_busy.range(), 42..54);
    assert_eq!(layout.gpu_vram.range(), 54..66);
    assert_eq!(layout.cpu_usage.label, "CPU usage");
    assert_eq!(layout.ram_usage.label, "RAM usage");
    assert_eq!(layout.gpu_busy.label, "GPU busy");
    assert_eq!(layout.gpu_vram.label, "GPU VRAM");
    assert_eq!(layout.cpu_temp.unwrap().label, "PCB");
    assert_eq!(layout.gpu_temp.unwrap().range(), 4..10);
}

#[test]
fn uneven_sections_and_limits() {
    let layout = LedLayout::discover(&board(), &settings("aio_leds=11"));
    assert_eq!(layout.cpu_usage.range(), 30..31);
    assert_eq!(layout.ram_usage.range(), 31..33);
    assert_eq!(layout.gpu_busy.range(), 33..37);
    assert_eq!(layout.gpu_vram.range(), 37..41);

    // No more LEDs than the zone has.
    let all = LedLayout::discover(&board(), &settings("aio_leds=1000"));
    assert_eq!(all.gpu_vram.range().end, 110);

    let chosen = settings("aio_zone=header 2\ncpu_temp_zone=io\ngpu_temp_zone=none");
    let layout = LedLayout::discover(&board(), &chosen);
    assert_eq!(layout.cpu_usage.start, 110);
    assert_eq!(layout.gpu_vram.range().end, 140);
    assert_eq!(layout.cpu_temp.unwrap().label, "IO Cover");
    assert_eq!(layout.gpu_temp.unwrap().label, "IO Cover");

    let bare = controller(9, vec![zone(0, "Strip", 0, 9)]);
    let layout = LedLayout::discover(&bare, &settings(""));
    assert!(layout.cpu_temp.is_none());
    assert!(layout.gpu_temp.is_none());
    assert_eq!(layout.gpu_vram.range(), 6..9);
}

#[test]
fn layouts_are_possible_where_there_is_a_zone_that_ends() {
    assert!(LedLayout::is_possible(&board(), &settings("")));
    assert!(!LedLayout::is_possible(&controller(0, Vec::new()), &settings("")));
    let far = controller(4, vec![zone(0, "A", usize::MAX - 2, 3)]);
    assert!(!LedLayout::is_possible(&far, &settings("")));
    assert!(LedLayout::is_possible(&far, &settings("aio_leds=2")));
}

#[test]
fn filling_stops_at_the_last_led() {
    let mut leds = vec![[0u8; 4]; 4];
    fill_leds(&mut leds, 2..9, [1, 2, 3, 0]);
    assert_eq!(leds, vec![[0, 0, 0, 0], [0, 0, 0, 0], [1, 2, 3, 0], [1, 2, 3, 0]]);
    fill_leds(&mut leds, 3..1, [9, 9, 9, 9]);
    fill_leds(&mut leds, 7..9, [9, 9, 9, 9]);
    assert_eq!(leds[3], [1, 2, 3, 0]);
}

#[test]
fn red_and_green_change_places() {
    assert_eq!(swap_red_green([1, 2, 3, 4]), [2, 1, 3, 0]);
}

fn small_layout() -> LedLayout {
    LedLayout {
        led_count: 12,
        cpu_usage: span_from_parts("c", 2, 1),
        ram_usage: span_from_parts("r", 3, 1),
        gpu_busy: span_from_parts("b", 4, 3),
        gpu_vram: span_from_parts("v", 7, 2),
        cpu_temp: Some(span_from_parts("t", 0, 3)),
        gpu_temp: Some(span_from_parts("g", 1, 1)),
    }
}

#[test]
fn frames_show_each_metric_in_its_place() {
    let colors = FrameColors {
        cpu_temp: [1, 10, 100, 0],
        gpu_temp: [2, 20, 200, 0],
        cpu: [3, 30, 0, 0],
        ram: [4, 40, 0, 0],
        gpu_busy: vec![[5, 50, 0, 0], [6, 60, 0, 0]],
        gpu_vram: vec![[7, 70, 0, 0], [8, 80, 0, 0]],
    };
    let layout = small_layout();
    assert!(all_spans_end(&layout));
    assert!(shares_can_be_counted(&layout.gpu_busy, 2));
    let frame = draw_frame(&layout, &colors);
    assert_eq!(
        frame,
        vec![
            [10, 1, 100, 0],
            [20, 2, 200, 0],
            [30, 3, 0, 0],
            [40, 4, 0, 0],
            [50, 5, 0, 0],
            [60, 6, 0, 0],
            [60, 6, 0, 0],
            [70, 7, 0, 0],
            [80, 8, 0, 0],
            [0, 0, 0, 0],
            [0, 0, 0, 0],
            [0, 0, 0, 0],
        ]
    );
}

#[test]
fn frames_without_gpus_leave_their_sections_dark() {
    let colors = FrameColors {
        cpu_temp: [1, 10, 100, 0],
        gpu_temp: [2, 20, 200, 0],
        cpu: [3, 30, 0, 0],
        ram: [4, 40, 0, 0],
        gpu_busy: Vec::new(),
        gpu_vram: Vec::new(),
    };
    let frame = draw_frame(&small_layout(), &colors);
    assert_eq!(frame.len(), 12);
    assert!(frame[4..].iter().all(|led| *led == [0, 0, 0, 0]));
}

#[test]
fn plain_frames_light_every_span() {
    let frame = draw_plain_frame(&small_layout(), [1, 2, 3, 0]);
    assert!(frame[..9].iter().all(|led| *led == [1, 2, 3, 0]));
    assert!(frame[9..].iter().all(|led| *led == [0, 0, 0, 0]));
}

#[test]
fn spans_that_cannot_be_counted_are_told() {
    let mut layout = small_layout();
    layout.gpu_temp = Some(span_from_parts("far", usize::MAX, 1));
    assert!(!all_spans_end(&layout));
    let wide = span_from_parts("wide", 0, usize::MAX / 2);
    assert!(shares_can_be_counted(&wide, 0));
    assert!(shares_can_be_counted(&wide, 2));
    assert!(!shares_can_be_counted(&wide, 3));
}
