use std::time::Duration;
use sysmon_core::csv::{parse_disk_csv_line, parse_gpu_csv_line, parse_header, split_csv};
use sysmon_core::feed::{
    clear_disk, clear_gpu, gpu_counters, publish_disk_bytes, publish_disk_line, publish_gpu_line, typeperf_args, Feed,
    FeedAction, FeedEvent, Phase, FEED_SECONDS,
};
use sysmon_core::num::{num, Num};
use sysmon_core::sampler::{
    is_virtual_iface, names_virtual, pick_network, procs_wanted, publish_stats, read_acpi_temp, read_gpu_info,
    temp_state, top_processes, Iface, RawProc, RawStats, StatsClock, VideoController, STATS_INTERVAL,
};
use sysmon_core::settings::Mode;
use sysmon_core::{AppState, GpuInfo, GpuInfoCache, SessionStats};

fn n(x: f64) -> Num {
    num(x.to_bits())
}

fn f(x: Num) -> f64 {
    f64::from_bits(x.bits)
}

fn texts(all: &[&str]) -> Vec<String> {
    all.iter().map(|t| t.to_string()).collect()
}

// --- GPU lines ---------------------------------------------------------------

#[test]
fn sampler_parse_gpu_csv_line_agrega_por_engtype_y_toma_maximo() {
    let types = texts(&["3d", "3d", "videodecode"]);
    let line = "\"08/09/2026 10:00:00.000\",\"10\",\"20\",\"30\"";
    let v = parse_gpu_csv_line(line, &types).unwrap();
    assert_eq!(v, n(30.0));
}

#[test]
fn sampler_parse_gpu_csv_line_clampa_a_100() {
    let types = texts(&["3d"]);
    let line = "\"t\",\"150\"";
    assert_eq!(parse_gpu_csv_line(line, &types).unwrap(), n(100.0));
}

#[test]
fn sampler_parse_gpu_csv_line_ignora_cabecera_y_valores_invalidos() {
    assert!(parse_gpu_csv_line("\"(PDH-CSV 4.0)\",\"x\"", &texts(&["3d"])).is_none());
    assert!(parse_gpu_csv_line("sin comillas", &texts(&["3d"])).is_none());
    let line = "\"t\",\"0\",\"-5\"";
    assert_eq!(parse_gpu_csv_line(line, &texts(&["3d", "3d"])).unwrap(), n(0.0));
}

#[test]
fn sampler_parse_header_extrae_engtype() {
    let line = "\"(PDH-CSV 4.0)\",\"\\\\HOST\\GPU Engine(pid_1_luid_0_eng_0_engtype_3D)\\Utilization Percentage\"";
    let types = parse_header(line);
    assert_eq!(types, vec!["3d"]);
}

#[test]
fn sampler_is_virtual_iface_filtra_adaptadores_fantasma() {
    assert!(is_virtual_iface("vEthernet (WSL)"));
    assert!(is_virtual_iface("Loopback"));
    assert!(!is_virtual_iface("Wi-Fi"));
    assert!(!is_virtual_iface("Ethernet"));
}

#[test]
fn parse_header_extrae_engtype() {
    let line = "\"(PDH-CSV 4.0)\",\"\\\\HOST\\GPU Engine(pid_1_luid_0_eng_0_engtype_3D)\\Utilization Percentage\"";
    let types = parse_header(line);
    assert_eq!(types, vec!["3d"]);
}

#[test]
fn is_virtual_iface_filtra_adaptadores_fantasma() {
    assert!(is_virtual_iface("vEthernet (WSL)"));
    assert!(is_virtual_iface("Loopback"));
    assert!(!is_virtual_iface("Wi-Fi"));
    assert!(!is_virtual_iface("Ethernet"));
}

#[test]
fn parse_disk_csv_line_agrupa_por_contador() {
    let line = "\"08/09/2026 10:00:00.000\",\"100\",\"50\",\"200\",\"25\"";
    let (r, w) = parse_disk_csv_line(line).unwrap();
    assert_eq!(r, n(150.0));
    assert_eq!(w, n(225.0));
}

#[test]
fn parse_disk_csv_line_un_solo_disco_y_valores_invalidos() {
    let line = "\"t\",\"1024\",\"2048\"";
    let (r, w) = parse_disk_csv_line(line).unwrap();
    assert_eq!((r, w), (n(1024.0), n(2048.0)));
    assert!(parse_disk_csv_line("\"t\",\"x\",\"y\"").is_none());
    assert!(parse_disk_csv_line("\"t\",\"5\",\"malo\",\"7\"").is_none());
}

#[test]
fn parse_disk_csv_line_rechaza_basura_y_cabecera() {
    assert!(parse_disk_csv_line("sin comillas").is_none());
    assert!(parse_disk_csv_line("\"(PDH-CSV 4.0)\",\"1\",\"2\"").is_none());
    assert!(parse_disk_csv_line("\"t\"").is_none());
    assert!(parse_disk_csv_line("").is_none());
}

#[test]
fn stats_interval_iguala_cadencia_de_consumo() {
    assert_eq!(Duration::from_millis(STATS_INTERVAL), Duration::from_millis(2500));
}

#[test]
fn fields_are_parted_outside_quotes() {
    let line: Vec<char> = "\"a,b\",c,,\"d\"e,\"\"".chars().collect();
    let got: Vec<String> = split_csv(&line).iter().map(|c| c.iter().collect()).collect();
    assert_eq!(got, vec!["a,b", "c", "", "de", ""]);
    let none: Vec<String> = split_csv(&Vec::new()).iter().map(|c| c.iter().collect()).collect();
    assert_eq!(none, vec![""]);
}

#[test]
fn fields_in_quotes_are_read_back() {
    let values = ["08/09/2026 10:00:00.000", "", "1,5", "x y", "-"];
    let line: String = values.iter().map(|v| format!("\"{}\"", v)).collect::<Vec<_>>().join(",");
    let chars: Vec<char> = line.chars().collect();
    let got: Vec<String> = split_csv(&chars).iter().map(|c| c.iter().collect()).collect();
    assert_eq!(got, values);
}

#[test]
fn fields_hold_the_whole_line() {
    for line in ["", ",", "a,\"b,c\",d", "\"open,", "x\"y\"z,,\"\",1"] {
        let chars: Vec<char> = line.chars().collect();
        let got: Vec<String> = split_csv(&chars).iter().map(|c| c.iter().collect()).collect();
        assert_eq!(got.join(","), line.replace('"', ""));
    }
    let chars: Vec<char> = "a,\"b,c\",d".chars().collect();
    assert_eq!(split_csv(&chars).len(), 3);
}

#[test]
fn headers_name_every_column() {
    let line = "\"(PDH-CSV 4.0) (UTC)(0)\",\"\\\\H\\GPU Engine(pid_1_engtype_Copy )\\U\",\"\\\\H\\other\",\"ENGTYPE_ÄB\"";
    assert_eq!(parse_header(line), vec!["copy", "unknown", "äb"]);
    assert!(parse_header("\"(PDH-CSV 4.0)\"").is_empty());
}

#[test]
fn columns_without_a_type_are_unknown() {
    // Three columns, one type: the other two add up as unknown.
    let line = "\"t\",\"10\",\"8.5\",\"4\"";
    assert_eq!(parse_gpu_csv_line(line, &texts(&["3d"])).unwrap(), n(12.5));
    // Without a header there is no telling.
    assert!(parse_gpu_csv_line(line, &Vec::new()).is_none());
    assert!(parse_gpu_csv_line("\"\",\"10\"", &texts(&["3d"])).is_none());
    assert!(parse_gpu_csv_line("\"t\"", &texts(&["3d"])).is_none());
    assert_eq!(parse_gpu_csv_line("\"t\",\"nan\",\"inf\",\" 3\",\"2\"", &texts(&["3d"])).unwrap(), n(2.0));
}

#[test]
fn disk_values_are_trimmed_and_at_least_zero() {
    let (r, w) = parse_disk_csv_line("\"t\",\" 0.1 \",\"0.2\",\"-7\",\"3\"\r\n").unwrap();
    assert_eq!(f(r), 0.1 + 0.2);
    assert_eq!(f(w), 3.0);
    assert!(parse_disk_csv_line("\"t\",\"1\",\"inf\"").is_none());
    assert!(parse_disk_csv_line("\"t\",\"1\",\"2\",\"3\"").is_none());
    assert!(parse_disk_csv_line("\"\",\"1\",\"2\"").is_none());
}

// --- Feeds -------------------------------------------------------------------

#[test]
fn gpu_lines_go_into_the_state() {
    let mut state = AppState::default();
    let mut columns: Vec<String> = Vec::new();
    publish_gpu_line(&mut state, &mut columns, "\"t\",\"10\"");
    assert_eq!(state.gpu_util, -10);
    publish_gpu_line(&mut state, &mut columns, "\"(PDH-CSV 4.0)\",\"engtype_3d)\",\"engtype_copy)\"");
    assert_eq!(columns, vec!["3d", "copy"]);
    assert_eq!(state.gpu_util, -10);
    publish_gpu_line(&mut state, &mut columns, "\"t\",\"12.34\",\"3\"");
    assert_eq!(state.gpu_util, 123);
    publish_gpu_line(&mut state, &mut columns, "noise");
    assert_eq!(state.gpu_util, 123);
    publish_gpu_line(&mut state, &mut columns, "\"t\",\"900\",\"900\"");
    assert_eq!(state.gpu_util, 1000);
    clear_gpu(&mut state);
    assert_eq!(state.gpu_util, -10);
}

#[test]
fn disk_lines_go_into_the_state() {
    let mut state = AppState::default();
    publish_disk_line(&mut state, "\"(PDH-CSV 4.0)\",\"1\",\"2\"");
    assert_eq!((state.disk_read, state.disk_write), (-1, -1));
    publish_disk_line(&mut state, "\"t\",\"100.26\",\"0.04\"");
    assert_eq!((state.disk_read, state.disk_write), (1003, 0));
    // A header in the code page of the system is not UTF-8.
    let mut header = b"\"(PDH-CSV 4.0)\",\"\\\\H\\Disco f".to_vec();
    header.push(0xed);
    header.extend_from_slice(b"sico\"\r\n");
    publish_disk_bytes(&mut state, &header);
    assert_eq!((state.disk_read, state.disk_write), (1003, 0));
    publish_disk_bytes(&mut state, &b"\"t\",\"5\",\"7\"\r\n".to_vec());
    assert_eq!((state.disk_read, state.disk_write), (50, 70));
    clear_disk(&mut state);
    assert_eq!((state.disk_read, state.disk_write), (-1, -1));
}

#[test]
fn a_feed_is_suspended_once_and_resumed_once() {
    let mut feed = Feed::new();
    assert_eq!(feed.step(FeedEvent::Started), vec![FeedAction::Look]);
    assert_eq!(
        feed.step(FeedEvent::Looked { visible: false }),
        vec![FeedAction::Suspend, FeedAction::Sleep { millis: 500 }, FeedAction::Look]
    );
    for _ in 0..10 {
        assert_eq!(
            feed.step(FeedEvent::Looked { visible: false }),
            vec![FeedAction::Sleep { millis: 500 }, FeedAction::Look]
        );
    }
    assert_eq!(feed.step(FeedEvent::Looked { visible: true }), vec![FeedAction::Resume, FeedAction::ReadLine]);
    assert!(!feed.suspended);
    assert_eq!(feed.step(FeedEvent::Line), vec![FeedAction::Look]);
    assert_eq!(feed.step(FeedEvent::Looked { visible: true }), vec![FeedAction::ReadLine]);
    // Hidden between two lines, it is suspended again.
    assert_eq!(feed.step(FeedEvent::Line), vec![FeedAction::Look]);
    assert_eq!(feed.step(FeedEvent::Looked { visible: false })[0], FeedAction::Suspend);
    assert_eq!(feed.step(FeedEvent::Looked { visible: false })[0], FeedAction::Sleep { millis: 500 });
    assert_eq!(feed.step(FeedEvent::Looked { visible: true })[0], FeedAction::Resume);
}

#[test]
fn a_feed_is_started_again_three_times() {
    let mut feed = Feed::new();
    let mut starts = 1;
    loop {
        assert_eq!(feed.step(FeedEvent::Started), vec![FeedAction::Look]);
        assert_eq!(feed.step(FeedEvent::Looked { visible: true }), vec![FeedAction::ReadLine]);
        let actions = feed.step(FeedEvent::Closed);
        if actions.contains(&FeedAction::Start) {
            assert_eq!(actions, vec![FeedAction::Reap, FeedAction::Sleep { millis: 10_000 }, FeedAction::Start]);
            starts += 1;
        } else {
            assert_eq!(actions, vec![FeedAction::Reap, FeedAction::ClearData]);
            break;
        }
    }
    assert_eq!(starts, 4);
    assert_eq!(feed.phase, Phase::Stopped);
    assert!(feed.step(FeedEvent::Started).is_empty());
}

#[test]
fn a_feed_that_cannot_start_is_over() {
    let mut feed = Feed::new();
    assert_eq!(feed.step(FeedEvent::Failed), vec![FeedAction::ClearData]);
    assert_eq!(feed.phase, Phase::Stopped);
}

#[test]
fn typeperf_gets_counters_and_interval() {
    assert_eq!(
        typeperf_args(&gpu_counters(), FEED_SECONDS),
        vec!["\\GPU Engine(*)\\Utilization Percentage", "-si", "2"]
    );
    assert_eq!(typeperf_args(&texts(&["\\a", "\\b"]), 15), vec!["\\a", "\\b", "-si", "15"]);
}

// --- Network -----------------------------------------------------------------

fn iface(name: &str, received: u64, transmitted: u64) -> Iface {
    Iface { name: name.to_string(), received, transmitted }
}

#[test]
fn the_busiest_real_interface_is_picked() {
    let list = vec![iface("vEthernet", 9000, 9000), iface("Ethernet", 100, 50), iface("Wi-Fi", 300, 100), iface("LAN", 400, 0)];
    let (name, rx, tx) = pick_network(&list, n(2.0));
    assert_eq!(name, "Wi-Fi");
    assert_eq!((f(rx), f(tx)), (150.0, 50.0));
}

#[test]
fn the_complete_list_is_better_than_nothing() {
    // An idle real interface comes before a virtual one, whatever the order.
    for list in [
        vec![iface("Loopback", 0, 0), iface("Wi-Fi", 0, 0)],
        vec![iface("Wi-Fi", 0, 0), iface("Loopback", 0, 0)],
        vec![iface("Docker0", 5, 3), iface("Wi-Fi", 0, 0), iface("Ethernet", 0, 0)],
    ] {
        let (name, rx, tx) = pick_network(&list, n(1.0));
        assert_eq!(name, "Wi-Fi");
        assert_eq!((f(rx), f(tx)), (0.0, 0.0));
    }
    // All are virtual: the busiest of them is shown.
    let (name, rx, tx) = pick_network(&vec![iface("tun0", 5, 5), iface("wsl", 9, 2)], n(2.0));
    assert_eq!(name, "wsl");
    assert_eq!((f(rx), f(tx)), (4.5, 1.0));
    let (name, _, _) = pick_network(&vec![iface("Ethernet", 0, 0), iface("tun0", 0, 0)], n(1.0));
    assert_eq!(name, "Ethernet");
    let (name, rx, tx) = pick_network(&Vec::new(), n(1.0));
    assert_eq!(name, "n/a");
    assert_eq!((f(rx), f(tx)), (0.0, 0.0));
}

#[test]
fn virtual_names_are_found_in_lower_case() {
    for name in [
        "docker0", "vethernet (wsl)", "vmware network", "virtualbox host", "loopback", "wsl", "hyper-v", "tap-windows", "tun0",
        "bluetooth", "hibernate", "teredo",
    ] {
        assert!(names_virtual(name), "{}", name);
        assert!(is_virtual_iface(&name.to_uppercase()), "{}", name);
    }
    assert!(!names_virtual("ethernet 2"));
    // The words are in lower case.
    assert!(!names_virtual("DOCKER0"));
}

// --- Snapshot ----------------------------------------------------------------

#[test]
fn a_snapshot_holds_all_readings() {
    let mut state = AppState::default();
    state.gpu_util = 425;
    state.disk_read = 10_240;
    state.temp = temp_state(Some(n(61.5)), false);
    let raw = RawStats {
        cpu: n(12.345f32 as f64),
        total_memory: 17_179_869_184,
        available_memory: 8_000_000_000,
        networks: vec![iface("Wi-Fi", 2500, 1000)],
        elapsed: n(2.5),
    };
    publish_stats(&mut state, &raw);
    let s = &state.snapshot;
    assert!(s.ok && s.error.is_none());
    assert_eq!(f(s.cpu), 12.3);
    assert_eq!(f(s.memory.percent), 53.4);
    assert_eq!(f(s.memory.used_gb), 8.55);
    assert_eq!(f(s.memory.total_gb), 16.0);
    assert_eq!(s.network.iface, "Wi-Fi");
    assert_eq!((f(s.network.rx_bytes_sec), f(s.network.tx_bytes_sec)), (1000.0, 400.0));
    assert_eq!((f(s.disk.read_bytes_sec), f(s.disk.write_bytes_sec)), (1024.0, -1.0));
    assert_eq!(f(s.cpu_temp), 61.5);
    assert_eq!(s.temp_status, "ok");
    assert_eq!(f(s.gpu), 42.5);
    assert_eq!(state.session.samples, 1);
    assert_eq!(state.session.gpu_samples, 1);
    assert_eq!(f(state.session.net_max), 1400.0);
    let used = 17_179_869_184f64 - 8_000_000_000f64;
    assert_eq!(f(state.session.mem_max), used / 17_179_869_184f64 * 100.0);
}

#[test]
fn a_snapshot_without_memory_divides_by_nothing() {
    let mut state = AppState::default();
    let raw = RawStats { cpu: n(1.0), total_memory: 0, available_memory: 5, networks: Vec::new(), elapsed: n(1.0) };
    publish_stats(&mut state, &raw);
    assert_eq!(f(state.snapshot.memory.percent), 0.0);
    assert_eq!(f(state.snapshot.memory.used_gb), 0.0);
    assert_eq!(state.snapshot.network.iface, "n/a");
    assert_eq!(f(state.snapshot.gpu), -1.0);
    assert_eq!(f(state.snapshot.disk.read_bytes_sec), -1.0 / 10.0 * 10.0);
    assert_eq!(state.session.gpu_samples, 0);
    // The sum of the session holds what is not a number; the maximum does not.
    assert!(state.session.mem_sum.is_nan());
    assert_eq!(f(state.session.mem_max), 0.0);
}

#[test]
fn memory_in_use_stays_within_the_percentages() {
    for (total, available) in [(1u64, 0u64), (1, 1), (3, 2), (16_000_000_000, 1), (u64::MAX, 0), (u64::MAX, u64::MAX - 1)] {
        let mut state = AppState::default();
        let raw = RawStats { cpu: n(1.0), total_memory: total, available_memory: available, networks: Vec::new(), elapsed: n(1.0) };
        publish_stats(&mut state, &raw);
        let percent = f(state.snapshot.memory.percent);
        assert!((0.0..=100.0).contains(&percent), "{}", percent);
    }
}

#[test]
fn hidden_time_is_part_of_the_next_span() {
    let mut clock = StatsClock { prev: 1_000_000_000 };
    assert_eq!(clock.tick(true, 3_500_000_000).map(f), Some(2.5));
    for i in 0..5u64 {
        assert!(clock.tick(false, 4_000_000_000 + i).is_none());
    }
    assert_eq!(clock.tick(true, 13_500_000_000).map(f), Some(10.0));
    // The shortest span is a thousandth of a second.
    assert_eq!(clock.tick(true, 13_500_000_000).map(f), Some(0.001));
    assert_eq!(clock.tick(true, 13_500_000_001).map(f), Some(0.001));
    assert_eq!(clock.tick(true, 0).map(f), Some(0.001));
    let span = Duration::from_nanos(123_456_789_012);
    assert_eq!(clock.tick(true, 123_456_789_012).map(f), Some(span.as_secs_f64()));
}

// --- Processes ---------------------------------------------------------------

fn process(pid: u32, name: &str, cpu: f64) -> RawProc {
    RawProc { pid, name: name.to_string(), cpu: n(cpu), memory: 1 << 20, exe: None }
}

#[test]
fn the_five_busiest_processes_are_listed() {
    let raw = vec![
        process(0, "idle", 99.0),
        process(1, "a", 1.0),
        process(2, "System Idle Process", 98.0),
        process(3, "b", 7.0),
        process(4, "SYSTEM INTERRUPTS ", 97.0),
        process(5, "c", 7.0),
        process(6, "d", 0.0),
        process(7, "e\r\n", 30.06),
        process(8, "f", 7.04),
    ];
    let top = top_processes(&raw, 1 << 23);
    let shown: Vec<(u32, f64)> = top.iter().map(|p| (p.pid, f(p.cpu))).collect();
    // Equals keep their order.
    assert_eq!(shown, vec![(7, 30.1), (3, 7.0), (5, 7.0), (8, 7.0), (1, 1.0)]);
    assert_eq!(top[0].name, "e");
    assert!((0..5).all(|i| (0..i).all(|j| top[i].pid != top[j].pid)));
    assert_eq!(f(top[0].mem), 12.5);
}

#[test]
fn few_processes_are_all_listed() {
    let mut p = process(9, "x", 2.0);
    p.exe = Some(" C:\\x\0.exe ".to_string());
    let top = top_processes(&vec![p, process(10, "", 3.0)], 0);
    assert_eq!(top.len(), 2);
    assert_eq!(top[0].pid, 10);
    assert_eq!(top[1].exe.as_deref(), Some("C:\\x .exe"));
    assert_eq!(f(top[1].mem), 0.0);
    assert!(top_processes(&Vec::new(), 1).is_empty());
}

#[test]
fn the_list_is_wanted_where_it_is_shown() {
    assert!(procs_wanted(true, Mode::Dev));
    assert!(procs_wanted(true, Mode::Procs));
    assert!(!procs_wanted(true, Mode::Mini));
    assert!(!procs_wanted(true, Mode::Charts));
    assert!(!procs_wanted(false, Mode::Procs));
}

// --- Temperature and graphics card -------------------------------------------

#[test]
fn temperatures_come_from_tenths_of_kelvin() {
    assert_eq!(read_acpi_temp(&vec![3232, 9999]).map(f), Some(50.1));
    assert_eq!(read_acpi_temp(&vec![3001]).map(f), Some(((3001.0f64 / 10.0 - 273.15) * 10.0).round() / 10.0));
    assert_eq!(read_acpi_temp(&vec![2731]), None);
    assert_eq!(read_acpi_temp(&vec![2732]).map(f), Some(0.1));
    assert_eq!(read_acpi_temp(&vec![3932]), None);
    assert_eq!(read_acpi_temp(&vec![3931]).map(f), Some(120.0));
    assert_eq!(read_acpi_temp(&Vec::new()), None);
}

#[test]
fn the_temperature_says_why_it_is_missing() {
    let t = temp_state(Some(n(42.0)), false);
    assert_eq!((f(t.celsius), t.status.as_str()), (42.0, "ok"));
    let t = temp_state(None, false);
    assert_eq!((f(t.celsius), t.status.as_str()), (-1.0, "admin"));
    let t = temp_state(None, true);
    assert_eq!((f(t.celsius), t.status.as_str()), (-1.0, "none"));
}

#[test]
fn the_first_card_with_a_name_is_told() {
    let cards = vec![
        VideoController { name: None, adapter_ram: Some(1), driver_version: None },
        VideoController { name: Some(String::new()), adapter_ram: Some(1), driver_version: None },
        VideoController { name: Some("GTX".into()), adapter_ram: Some(4_293_918_720), driver_version: Some("31.0".into()) },
        VideoController { name: Some("Other".into()), adapter_ram: None, driver_version: None },
    ];
    let info = read_gpu_info(&cards);
    assert!(info.ok);
    assert_eq!((info.model.as_str(), info.vendor.as_str(), info.vram_mb, info.driver.as_str()), ("GTX", "", Some(4095), "31.0"));
    let info = read_gpu_info(&vec![VideoController { name: Some("Only".into()), adapter_ram: None, driver_version: None }]);
    assert_eq!((info.ok, info.vram_mb, info.driver.as_str()), (true, None, ""));
    let info = read_gpu_info(&Vec::new());
    assert_eq!((info.ok, info.model.as_str(), info.vram_mb), (false, "GPU", None));
}

#[test]
fn card_data_stay_fresh_for_ten_minutes() {
    let mut cache = GpuInfoCache { at: None, info: GpuInfo::default() };
    assert!(cache.stale(0));
    cache.store(read_gpu_info(&Vec::new()), 5_000);
    assert_eq!(cache.info.model, "GPU");
    assert!(!cache.stale(5_000));
    assert!(!cache.stale(604_999));
    assert!(cache.stale(605_000));
}

// --- Session -----------------------------------------------------------------

#[test]
fn lib_session_stats_registra_maximos_y_promedios() {
    let mut s = SessionStats::default();
    s.record(n(10.0), n(40.0), n(5.0), n(1024.0));
    s.record(n(30.0), n(60.0), n(-1.0), n(2048.0));
    s.record(n(20.0), n(50.0), n(25.0), n(512.0));
    assert_eq!(s.samples, 3);
    assert_eq!(s.gpu_samples, 2);
    assert_eq!(s.cpu_max, n(30.0));
    assert_eq!(s.gpu_max, n(25.0));
    assert!((f(s.cpu_avg()) - 20.0).abs() < 1e-9);
    assert!((f(s.gpu_avg()) - 15.0).abs() < 1e-9);
}

#[test]
fn lib_session_stats_vacia_no_divide_por_cero() {
    let s = SessionStats::default();
    assert_eq!(s.cpu_avg(), n(0.0));
    assert_eq!(s.gpu_avg(), n(0.0));
}

#[test]
fn sampler_session_stats_registra_maximos_y_promedios() {
    let mut s = SessionStats::default();
    s.record(n(10.0), n(40.0), n(5.0), n(1024.0));
    s.record(n(30.0), n(60.0), n(-1.0), n(2048.0));
    s.record(n(20.0), n(50.0), n(25.0), n(512.0));
    assert_eq!(s.samples, 3);
    assert_eq!(s.gpu_samples, 2);
    assert_eq!(s.cpu_max, n(30.0));
    assert_eq!(s.mem_max, n(60.0));
    assert_eq!(s.gpu_max, n(25.0));
    assert_eq!(s.net_max, n(2048.0));
    assert!((f(s.cpu_avg()) - 20.0).abs() < 1e-9);
    assert!((f(s.gpu_avg()) - 15.0).abs() < 1e-9);
    assert!((f(s.net_avg()) - (1024.0 + 2048.0 + 512.0) / 3.0).abs() < 1e-6);
}

#[test]
fn sampler_session_stats_vacia_no_divide_por_cero() {
    let s = SessionStats::default();
    assert_eq!(s.cpu_avg(), n(0.0));
    assert_eq!(s.mem_avg(), n(0.0));
    assert_eq!(s.gpu_avg(), n(0.0));
    assert_eq!(s.net_avg(), n(0.0));
}

#[test]
fn no_sample_lies_above_the_maxima() {
    let mut s = SessionStats::default();
    let mut seen = Vec::new();
    for i in 0..50u32 {
        let v = ((i * 37) % 101) as f64;
        seen.push(v);
        s.record(n(v), n(v / 2.0), n(v - 50.0), n(v * 1000.0));
    }
    assert!(seen.contains(&f(s.cpu_max)) && seen.contains(&(f(s.gpu_max) + 50.0)));
    for v in seen {
        assert!(f(s.cpu_max) >= v && f(s.mem_max) >= v / 2.0 && f(s.gpu_max) >= v - 50.0 && f(s.net_max) >= v * 1000.0);
    }
    assert_eq!(s.samples, 50);
    assert!(s.gpu_samples < 50);
}
