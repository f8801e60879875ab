use sysmon::metrics::{
    gradient_segment, ramp_is_over, write_metrics, GpuText, ReportClock, RollingAvg, WINDOW_SIZE,
};

#[test]
fn the_window_holds_two_hundred_samples() {
    let mut avg: RollingAvg<i32> = RollingAvg::new(-1);
    for i in 0..200 {
        let replaced = avg.push(i);
        assert_eq!((replaced.old, replaced.count), (-1, i as usize + 1));
    }
    for i in 200..450 {
        let replaced = avg.push(i);
        assert_eq!((replaced.old, replaced.count), (i - 200, WINDOW_SIZE));
    }
}

#[test]
fn an_average_follows_from_what_is_replaced() {
    let mut avg: RollingAvg<f64> = RollingAvg::new(0.0);
    let mut sum = 0.0;
    let mut last = 0.0;
    for i in 0..300 {
        let val = if i < 100 { 40.0 } else { 80.0 };
        let replaced = avg.push(val);
        sum -= replaced.old;
        sum += val;
        last = sum / replaced.count as f64;
        if i == 99 {
            assert_eq!(last, 40.0);
        }
        if i == 199 {
            assert_eq!(last, 60.0);
        }
    }
    assert_eq!(last, 80.0);
}

#[test]
fn reports_come_once_in_a_hundred_rounds() {
    let mut clock = ReportClock::new();
    let due: Vec<usize> = (0..350).filter(|_| clock.tick()).collect();
    assert_eq!(due, vec![0, 100, 200, 300]);
    let mut late = ReportClock { rounds: u32::MAX };
    assert!(!late.tick());
    assert!(late.tick());
}

fn gpu(busy: &str, vram: &str, temp: &str) -> GpuText {
    GpuText { busy: busy.to_string(), vram: vram.to_string(), temp: temp.to_string() }
}

#[test]
fn the_report_is_a_json_object() {
    let gpus = vec![
        gpu("30.0", "75.2", "47.0"),
        gpu("25.0", "80.1", "48.0"),
        gpu("10.0", "44.0", "42.0"),
        gpu("60.0", "66.0", "57.0"),
        gpu("5.0", "0.1", "49.0"),
    ];
    assert_eq!(
        write_metrics("12.3", "45.6", "52.1", &gpus),
        "{\"cpu\":12.3,\"ram\":45.6,\"cpu_temp\":52.1,\
         \"gpu0_busy\":30.0,\"gpu0_vram\":75.2,\"gpu0_temp\":47.0,\
         \"gpu1_busy\":25.0,\"gpu1_vram\":80.1,\"gpu1_temp\":48.0,\
         \"gpu2_busy\":10.0,\"gpu2_vram\":44.0,\"gpu2_temp\":42.0,\
         \"gpu3_busy\":60.0,\"gpu3_vram\":66.0,\"gpu3_temp\":57.0,\
         \"gpu4_busy\":5.0,\"gpu4_vram\":0.1,\"gpu4_temp\":49.0}"
    );
    assert_eq!(
        write_metrics("0.0", "0.0", "0.0", &Vec::new()),
        "{\"cpu\":0.0,\"ram\":0.0,\"cpu_temp\":0.0}"
    );
    let many: Vec<GpuText> = (0..11).map(|_| gpu("1.0", "2.0", "3.0")).collect();
    assert!(write_metrics("0.0", "0.0", "0.0", &many)
        .ends_with(",\"gpu10_busy\":1.0,\"gpu10_vram\":2.0,\"gpu10_temp\":3.0}"));
}

#[test]
fn the_gradient_goes_from_blue_to_deep_red() {
    let stop = |tens: usize| gradient_segment(tens).from;
    assert_eq!(stop(0), (0, 0, 255));
    assert_eq!(stop(1), (0, 128, 255));
    assert_eq!(stop(2), (0, 255, 255));
    assert_eq!(stop(3), (0, 255, 128));
    assert_eq!(stop(4), (0, 255, 0));
    assert_eq!(stop(5), (255, 255, 0));
    assert_eq!(stop(6), (255, 128, 0));
    assert_eq!(stop(7), (255, 64, 0));
    assert_eq!(stop(8), (255, 0, 0));
    assert_eq!(stop(9), (128, 0, 0));
    assert_eq!(gradient_segment(10).lo, 9);
    assert_eq!(gradient_segment(usize::MAX).to, (128, 0, 0));
    for tens in 0..9 {
        assert_eq!(gradient_segment(tens).lo, tens);
        assert_eq!(gradient_segment(tens).to, stop(tens + 1));
    }
}

#[test]
fn the_ramp_takes_ten_seconds() {
    assert!(!ramp_is_over(9_999));
    assert!(ramp_is_over(10_000));
}
