use sysmon_core::format::{disk_speed, exe_path, gb, gpu, pct, speed, temp};
use sysmon_core::num::{num, Num};
use sysmon_core::{round1, round2, sanitize};

fn n(x: f64) -> Num {
    num(x.to_bits())
}

fn f(x: Num) -> f64 {
    f64::from_bits(x.bits)
}

#[test]
fn speed_coincide_con_metrics_js() {
    assert_eq!(speed(n(0.0)), "0.0 KB/s");
    assert_eq!(speed(n(1536.0)), "1.5 KB/s");
    assert_eq!(speed(n(2048.0 * 1024.0)), "2.00 MB/s");
    assert_eq!(speed(n(f64::NAN)), "--");
}

#[test]
fn disk_speed_sentinel_es_na() {
    assert_eq!(disk_speed(n(-1.0)), "n/a");
    assert_eq!(disk_speed(n(1024.0)), "1.0 KB/s");
}

#[test]
fn temp_y_gpu_sentinel() {
    assert_eq!(temp(n(-1.0)), "n/a");
    assert_eq!(temp(n(72.4)), "72°C");
    assert_eq!(gpu(n(-1.0)), "n/a");
    assert_eq!(gpu(n(42.0)), "42%");
}

#[test]
fn exe_path_igual_que_metrics_js() {
    let larga = r"C:\Users\Breiner\AppData\Local\app.exe";
    assert_eq!(exe_path(Some(larga)), r"…\Local\app.exe");
    let corta = r"C:\app.exe";
    assert_eq!(exe_path(Some(corta)), corta);
    assert_eq!(exe_path(None), "ruta no disponible");
    assert_eq!(exe_path(Some("  ")), "ruta no disponible");
}

#[test]
fn lib_utilidades_sanitize_y_round() {
    assert_eq!(sanitize("explorer.exe"), "explorer.exe");
    assert_eq!(sanitize("bad\0name"), "bad name");
    assert_eq!(sanitize("weird\r\nname"), "weird  name");
    assert_eq!(f(round1(n(23.44))), 23.4);
    assert_eq!(f(round1(n(23.45))), 23.5);
    assert_eq!(f(round2(n(7.006))), 7.01);
    assert_eq!(f(round1(n(-1.25))), -1.3);
}

#[test]
fn main_utilidades_sanitize_y_round() {
    assert_eq!(sanitize("explorer.exe"), "explorer.exe");
    assert_eq!(sanitize("bad\0name"), "bad name");
    assert_eq!(sanitize("weird\r\nname"), "weird  name");
    assert_eq!(sanitize("  padded  "), "padded");
    assert_eq!(f(round1(n(23.44))), 23.4);
    assert_eq!(f(round1(n(23.45))), 23.5);
    assert_eq!(f(round2(n(7.006))), 7.01);
    assert_eq!(f(round1(n(-1.25))), -1.3);
}

#[test]
fn rounding_of_what_is_not_finite() {
    assert_eq!(f(sysmon_core::format::round1(n(f64::NAN))), 0.0);
    assert_eq!(f(sysmon_core::format::round2(n(f64::INFINITY))), 0.0);
    assert!(f(round1(n(f64::NAN))).is_nan());
    assert_eq!(f(round2(n(f64::INFINITY))), f64::INFINITY);
    assert_eq!(f(sysmon_core::format::round2(n(7.006))), 7.01);
}

#[test]
fn rates_change_their_unit_at_one_mebibyte() {
    assert_eq!(speed(n(1048576.0)), "1.00 MB/s");
    assert_eq!(speed(n(1048575.0)), "1024.0 KB/s");
    assert_eq!(speed(n(-2048.0)), "-2.0 KB/s");
    assert_eq!(speed(n(f64::INFINITY)), "--");
    assert_eq!(disk_speed(n(f64::NAN)), "n/a");
    assert_eq!(disk_speed(n(0.0)), "0.0 KB/s");
    assert_eq!(disk_speed(n(3.0 * 1048576.0)), "3.00 MB/s");
}

#[test]
fn percentages_and_gigabytes() {
    assert_eq!(pct(n(42.04)), "42.0%");
    assert_eq!(pct(n(f64::NAN)), "0.0%");
    assert_eq!(gb(n(15.905)), "15.90 GB");
    assert_eq!(gpu(n(0.0)), "0%");
    assert_eq!(gpu(n(-0.5)), "-0%");
    assert_eq!(temp(n(0.0)), "0°C");
    assert_eq!(temp(n(0.4)), "0°C");
    assert_eq!(temp(n(-1.0)), "n/a");
    assert_eq!(temp(n(f64::INFINITY)), "n/a");
}

#[test]
fn short_paths_keep_two_parts() {
    assert_eq!(exe_path(Some("/usr/local/bin/tool")), "…/bin/tool");
    assert_eq!(exe_path(Some("/usr/bin")), "/usr/bin");
    assert_eq!(exe_path(Some(" C:/a\\b/ñ.exe ")), "…\\b/ñ.exe");
    assert_eq!(exe_path(Some("a/b/c/")), "…/c/");
    assert_eq!(exe_path(Some("tool")), "tool");
    // A shortened path stays as it is.
    for path in ["/usr/local/bin/tool", " C:/a\\b/ñ.exe ", "a/b/c/", "", "  "] {
        let once = exe_path(Some(path));
        assert_eq!(exe_path(Some(&once)), once);
    }
}

#[test]
fn names_come_on_one_line() {
    let shown = sanitize("\n a\0b\rc\u{3000}\t");
    assert_eq!(shown, "a b c");
    assert!(!shown.contains('\0') && !shown.contains('\n') && !shown.contains('\r'));
    assert_eq!(sanitize(""), "");
    assert_eq!(sanitize("\u{85}x\u{2009}"), "x");
    assert_eq!(sanitize(&sanitize("\0 a\rb \n")), sanitize("\0 a\rb \n"));
}
