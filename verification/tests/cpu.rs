use sysmon::cpu::CpuReader;

#[test]
fn counters_of_the_first_line() {
    let stat = "cpu  100 5 20 300 40 1 2 3 0 0\ncpu0 1 1 1 1 1\n";
    assert_eq!(CpuReader::read_stat(stat), (340, 471));
    let reader = CpuReader::new(stat);
    assert_eq!((reader.prev_idle, reader.prev_total), (340, 471));
}

#[test]
fn too_few_counters_count_as_no_time() {
    assert_eq!(CpuReader::read_stat(""), (0, 0));
    assert_eq!(CpuReader::read_stat("\n"), (0, 0));
    assert_eq!(CpuReader::read_stat("cpu 1 2 3 4"), (0, 0));
    assert_eq!(CpuReader::read_stat("cpu 1 2 x 3 4 5"), (9, 15));
}

#[test]
fn time_between_two_readings() {
    let mut reader = CpuReader::new("cpu 10 0 10 70 10");
    let time = reader.read("cpu 30 0 20 140 20").unwrap();
    assert_eq!((time.idle, time.total), (80, 110));
    assert!(reader.read("cpu 30 0 20 140 20").is_none());
    // Counters that went back wrap around.
    let back = reader.read("cpu 29 0 20 140 20").unwrap();
    assert_eq!((back.idle, back.total), (0, u64::MAX));
}

#[test]
fn sums_wrap_around() {
    let stat = format!("cpu 0 0 0 {} 2", u64::MAX);
    assert_eq!(CpuReader::read_stat(&stat), (1, 1));
}
