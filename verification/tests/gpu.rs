use sysmon::gpu::{
    discover, is_card, read_sysfs, read_u64, sort_gpus, DrmEntry, Gpu, GpuSource, NvidiaGpu,
    Reading, REFRESH_NANOS,
};
use sysmon::hwmon::{Hwmon, SensorFile};
use sysmon::nvidia::{
    parse_nvidia_discovery, parse_nvidia_discovery_line, parse_nvidia_metrics,
    parse_nvidia_metrics_line,
};
use sysmon::pci::{is_normalizable, normalize_pci_bus_id};
use sysmon::temp::CpuTemp;

fn number(text: &str) -> f64 {
    text.parse().unwrap()
}

#[test]
fn normalizes_nvidia_bus_ids_to_linux_pci_shape() {
    assert_eq!(normalize_pci_bus_id("00000000:1C:00.0"), "0000:1c:00.0");
    assert_eq!(normalize_pci_bus_id("0000:03:00.0"), "0000:03:00.0");
}

#[test]
fn parses_nvidia_discovery_rows() {
    let gpu = parse_nvidia_discovery_line(
        "0, 00000000:1C:00.0, NVIDIA GeForce RTX 3090, 7, 12288, 24576, 54",
    )
    .unwrap();

    assert_eq!(gpu.index, 0);
    assert_eq!(gpu.bus_id, "00000000:1C:00.0");
    assert_eq!(gpu.name, "NVIDIA GeForce RTX 3090");
    assert_eq!(number(&gpu.busy), 7.0);
    assert_eq!(number(&gpu.used_mib) / number(&gpu.total_mib) * 100.0, 50.0);
    assert_eq!(number(&gpu.temp), 54.0);
}

#[test]
fn parses_nvidia_metric_rows() {
    let metrics = parse_nvidia_metrics_line("12, 6144, 24576, 49").unwrap();

    assert_eq!(number(&metrics.busy), 12.0);
    assert_eq!(number(&metrics.used_mib) / number(&metrics.total_mib) * 100.0, 25.0);
    assert_eq!(number(&metrics.temp), 49.0);
}

#[test]
fn bus_ids_of_other_shapes_are_only_lowered() {
    assert_eq!(normalize_pci_bus_id("  CARD0\n"), "card0");
    assert_eq!(normalize_pci_bus_id("1:2"), "1:2");
    assert_eq!(normalize_pci_bus_id("12345:2:3:4"), "12345:2:3:4");
    assert_eq!(normalize_pci_bus_id("12345:2:3"), "2345:2:3");
}

#[test]
fn normalizing_twice_or_from_upper_case_changes_nothing() {
    let ids = [
        "", " ", ":", "::", "a:b", " 00000000:1C:00.0\n", "0000:03:00.0", "CARD0", "abcde::",
        "ABCDEF:1:2:3", "\t12345:A:b ", "12345:a",
    ];
    for id in ids {
        assert!(is_normalizable(id));
        let once = normalize_pci_bus_id(id);
        assert_eq!(normalize_pci_bus_id(&once), once);
        assert_eq!(normalize_pci_bus_id(&id.to_ascii_uppercase()), once);
    }
    assert_eq!(normalize_pci_bus_id("abcde::"), "bcde::");
    // White space that a cut uncovers goes the second time.
    assert_eq!(normalize_pci_bus_id("a 123:1:2"), " 123:1:2");
    assert_eq!(normalize_pci_bus_id(" 123:1:2"), "123:1:2");
}

#[test]
fn a_domain_is_cut_between_characters_only() {
    // Five bytes, of which the first character takes two.
    assert!(!is_normalizable("\u{e9}123:2:3"));
    // Six bytes: the cut falls behind the first character.
    assert!(is_normalizable("\u{e9}1234:2:3"));
    assert_eq!(normalize_pci_bus_id("\u{e9}1234:2:3"), "1234:2:3");
    assert!(is_normalizable("\u{e9}123:2"));
}

#[test]
fn rows_that_list_no_gpu_do_not_count() {
    assert!(parse_nvidia_discovery_line("0,a,b,1,2,3").is_none());
    assert!(parse_nvidia_discovery_line("x,a,b,1,2,3,4").is_none());
    assert!(parse_nvidia_discovery_line("4294967296,a,b,1,2,3,4").is_none());
    // Readings that are not supported are no numbers.
    assert!(parse_nvidia_discovery_line("0,a,b,[N/A],2,3,4").is_none());
    assert!(parse_nvidia_discovery_line("0,a,b,1,2,3,[N/A]").is_none());
    assert!(parse_nvidia_discovery_line("0,a,b,1,2,3,4,[N/A]").is_some());
    let gpus = parse_nvidia_discovery("bad\n4294967295,a,b,1,2,3,4,5\r\n\n1,c,d,5,6,7,8\n");
    assert_eq!(gpus.len(), 2);
    assert_eq!(gpus[0].index, u32::MAX);
    assert_eq!(gpus[1].name, "d");
    assert_eq!(gpus[1].temp, "8");
}

#[test]
fn the_first_line_has_the_readings() {
    assert_eq!(parse_nvidia_metrics("1,2,3,4\n5,6,7,8").unwrap().temp, "4");
    assert!(parse_nvidia_metrics("").is_none());
    assert!(parse_nvidia_metrics("1,2,3\n5,6,7,8").is_none());
    assert!(parse_nvidia_metrics_line("[N/A],2,3,4").is_none());
    assert!(parse_nvidia_metrics_line("1,2,3,x").is_none());
    assert!(parse_nvidia_metrics_line("1, 2.5 ,3,4,x").is_some());
}

#[test]
fn cards_have_a_number() {
    assert!(is_card("card0"));
    assert!(is_card("card12"));
    assert!(!is_card("card"));
    assert!(!is_card("card0-DP-1"));
    assert!(!is_card("renderD128"));
    assert!(!is_card("car"));
}

#[test]
fn files_hold_numbers() {
    assert_eq!(read_u64(&Some(" 42\n".to_string())), Some(42));
    assert_eq!(read_u64(&Some("4 2".to_string())), None);
    assert_eq!(read_u64(&None), None);
    let counts = read_sysfs(&None, &Some("x".to_string()), &None);
    assert_eq!((counts.busy, counts.vram_used, counts.vram_total), (0, 0, 1));
    let counts = read_sysfs(
        &Some("7\n".to_string()),
        &Some("8\n".to_string()),
        &Some("9\n".to_string()),
    );
    assert_eq!((counts.busy, counts.vram_used, counts.vram_total), (7, 8, 9));
}

fn label(name: &str, content: &str) -> SensorFile {
    SensorFile { name: name.to_string(), content: Some(content.to_string()) }
}

fn sensors(chip: &str, files: Vec<SensorFile>, inputs: &[&str]) -> Hwmon {
    Hwmon {
        path: format!("/h/{}", chip),
        name: Some(format!("{}\n", chip)),
        files,
        inputs: inputs.iter().map(|s| s.to_string()).collect(),
    }
}

fn card(name: &str, vram: &str, bus_id: Option<&str>, hwmons: Vec<Hwmon>) -> DrmEntry {
    DrmEntry {
        name: name.to_string(),
        device: format!("/d/{}/device", name),
        vram_total: Some(vram.to_string()),
        bus_id: bus_id.map(|s| s.to_string()),
        hwmons,
    }
}

fn nvidia(index: u32, bus_id: &str, large: bool) -> NvidiaGpu<u8> {
    NvidiaGpu {
        index,
        bus_id: bus_id.to_string(),
        name: "RTX".to_string(),
        large,
        metrics: 10,
    }
}

fn temp_path_of(hwmons: Vec<Hwmon>) -> Option<String> {
    let gpus: Vec<Gpu<u8>> =
        discover(&Some(vec![card("card0", "9000000000", None, hwmons)]), &Vec::new(), 0);
    assert_eq!(gpus.len(), 1);
    match &gpus[0].source {
        GpuSource::AmdSysfs { temp_path, .. } => temp_path.clone(),
        GpuSource::NvidiaSmi { .. } => unreachable!(),
    }
}

#[test]
fn the_junction_is_preferred_to_the_edge() {
    let both = sensors(
        "amdgpu",
        vec![label("temp1_label", "edge\n"), label("temp2_label", "junction\n")],
        &["temp1_input", "temp2_input"],
    );
    assert_eq!(temp_path_of(vec![both]).as_deref(), Some("/h/amdgpu/temp2_input"));

    let missing = sensors(
        "amdgpu",
        vec![label("temp1_label", "edge\n"), label("temp2_label", "junction\n")],
        &["temp1_input"],
    );
    assert_eq!(temp_path_of(vec![missing]).as_deref(), Some("/h/amdgpu/temp1_input"));

    let unlabelled = sensors("amdgpu", Vec::new(), &["temp1_input", "temp2_input"]);
    assert_eq!(temp_path_of(vec![unlabelled]).as_deref(), Some("/h/amdgpu/temp2_input"));

    let nothing = sensors("amdgpu", Vec::new(), &[]);
    let other = sensors("nvme", vec![label("temp2_label", "junction")], &["temp2_input"]);
    assert_eq!(temp_path_of(vec![other, nothing]), None);
}

#[test]
fn discrete_gpus_are_found_in_the_order_of_the_bus() {
    let drm = vec![
        card("card1", "8000000000\n", Some("0000:0A:00.0"), Vec::new()),
        card("card0", "4000000000", Some("0000:01:00.0"), Vec::new()),
        card("card0-DP-1", "8000000000", Some("0000:02:00.0"), Vec::new()),
        card("card2", "4000000001", Some("0000:03:00.0"), Vec::new()),
        card("card3", "8000000000", None, Vec::new()),
    ];
    let found = vec![
        nvidia(0, "00000000:0A:00.0", true),
        nvidia(1, "00000000:04:00.0", true),
        nvidia(2, "00000000:05:00.0", false),
        nvidia(3, "0000:04:00.0", true),
    ];
    let gpus = discover(&Some(drm), &found, 5);
    let ids: Vec<&str> = gpus.iter().map(|g| g.bus_id.as_str()).collect();
    assert_eq!(ids, vec!["0000:03:00.0", "0000:04:00.0", "0000:0a:00.0", "card3"]);
    assert_eq!(gpus[0].description(), "AMD GPU at 0000:03:00.0 via sysfs");
    assert_eq!(gpus[1].description(), "RTX at 0000:04:00.0 via nvidia-smi");
    assert!(!gpus[0].has_temp_sensor());
    assert!(gpus[1].has_temp_sensor());
}

#[test]
fn nvidia_gpus_stay_apart_even_where_cards_share_a_bus_id() {
    let drm = vec![
        card("card0", "8000000000", Some("0000:01:00.0"), Vec::new()),
        card("card1", "8000000000", Some("0000:01:00.0"), Vec::new()),
    ];
    let found = vec![
        nvidia(0, "0000:01:00.0", true),
        nvidia(1, "0000:02:00.0", true),
        nvidia(2, "0000:02:00.0", true),
    ];
    let gpus = discover(&Some(drm), &found, 5);
    let ids: Vec<&str> = gpus.iter().map(|g| g.bus_id.as_str()).collect();
    assert_eq!(ids, vec!["0000:01:00.0", "0000:01:00.0", "0000:02:00.0"]);
}

#[test]
fn without_a_list_of_cards_nvidia_gpus_stay_in_their_order() {
    let found = vec![nvidia(0, "0000:09:00.0", true), nvidia(1, "0000:04:00.0", true)];
    let gpus = discover(&None, &found, 5);
    assert_eq!(gpus[0].bus_id, "0000:09:00.0");
    assert_eq!(gpus[1].bus_id, "0000:04:00.0");
}

#[test]
fn equal_bus_ids_keep_their_order() {
    let gpu = |bus_id: &str, name: &str| Gpu::<u8> {
        bus_id: bus_id.to_string(),
        name: name.to_string(),
        source: GpuSource::AmdSysfs { path: String::new(), temp_path: None },
    };
    let sorted = sort_gpus(vec![gpu("b", "1"), gpu("a", "2"), gpu("b", "3"), gpu("a", "4")]);
    let names: Vec<&str> = sorted.iter().map(|g| g.name.as_str()).collect();
    assert_eq!(names, vec!["2", "4", "1", "3"]);
}

#[test]
fn readings_are_kept_for_a_second() {
    let mut gpus = discover(&None, &vec![nvidia(3, "0000:04:00.0", true)], 100);
    let gpu = &mut gpus[0];
    assert!(matches!(gpu.read_metrics(100 + REFRESH_NANOS - 1), Reading::Kept(10)));
    let now = 100 + REFRESH_NANOS;
    assert!(matches!(gpu.read_metrics(now), Reading::Query { index: 3 }));
    assert_eq!(gpu.refresh(Some(20), now), Some(20));
    assert!(matches!(gpu.read_metrics(now), Reading::Kept(20)));
    // A query that failed counts too.
    assert_eq!(gpu.refresh(None, now + REFRESH_NANOS), Some(20));
    assert!(matches!(gpu.read_metrics(now + REFRESH_NANOS + 1), Reading::Kept(20)));

    gpu.source = GpuSource::NvidiaSmi { index: 1, cached: 5, last_refresh: None };
    assert!(matches!(gpu.read_metrics(0), Reading::Query { index: 1 }));
}

#[test]
fn sysfs_gpus_are_read_from_their_files() {
    let mut gpus: Vec<Gpu<u8>> =
        discover(&Some(vec![card("card0", "9000000000", None, Vec::new())]), &Vec::new(), 0);
    match gpus[0].read_metrics(1) {
        Reading::Sysfs { path, temp_path } => {
            assert_eq!(path, "/d/card0/device");
            assert!(temp_path.is_none());
        }
        _ => unreachable!(),
    }
    assert_eq!(gpus[0].refresh(Some(1), 2), None);
}

#[test]
fn cpu_sensors() {
    let amd = || {
        sensors(
            "k10temp",
            vec![label("temp1_label", "Tccd1"), label("temp3_label", " Tctl\n")],
            &["temp1_input", "temp3_input"],
        )
    };
    let intel = || sensors("coretemp", vec![label("temp2_label", "Package id 0")], &["temp2_input"]);
    let other = || sensors("nvme", vec![label("temp1_label", "Tctl")], &["temp1_input"]);
    assert_eq!(CpuTemp::discover(&vec![other(), amd(), intel()]).unwrap().path, "/h/k10temp/temp3_input");
    assert_eq!(CpuTemp::discover(&vec![intel(), amd()]).unwrap().path, "/h/coretemp/temp2_input");
    assert!(CpuTemp::discover(&vec![other()]).is_none());
    assert!(CpuTemp::discover(&Vec::new()).is_none());

    let mut unlabelled = amd();
    unlabelled.files.clear();
    assert_eq!(CpuTemp::discover(&vec![unlabelled]).unwrap().path, "/h/k10temp/temp1_input");
    let mut unnamed = amd();
    unnamed.name = None;
    assert!(CpuTemp::discover(&vec![unnamed]).is_none());
    // Nothing usable in the first chip: the next one is tried.
    let bare = sensors("coretemp", Vec::new(), &["temp2_input"]);
    assert_eq!(CpuTemp::discover(&vec![bare, amd()]).unwrap().path, "/h/k10temp/temp3_input");
}
