use sysmon_core::num::{num, Num};
use sysmon_core::settings::{without_marks, Location, Mode, Parsed, SaveStep, Settings, Thresholds};

fn n(x: f64) -> Num {
    num(x.to_bits())
}

fn thresholds(cpu: f64, ram: f64, gpu: f64, temp: f64) -> Thresholds {
    Thresholds { cpu: n(cpu), ram: n(ram), gpu: n(gpu), temp: n(temp) }
}

fn same(a: &Settings, b: &Settings) -> bool {
    a.mode == b.mode && a.pinned == b.pinned && a.x == b.x && a.y == b.y && a.thresholds == b.thresholds
}

#[test]
fn defaults_igual_que_el_renderer_original() {
    let t = Thresholds::default();
    assert_eq!(t, thresholds(85.0, 90.0, 90.0, 80.0));
}

#[test]
fn set_con_clamp_y_nombres_validos() {
    let mut t = Thresholds::default();
    assert!(t.set("cpu", n(70.0)));
    assert_eq!(t.cpu, n(70.0));
    assert!(t.set("temp", n(500.0)));
    assert_eq!(t.temp, n(120.0));
    assert!(t.set("gpu", n(-5.0)));
    assert_eq!(t.gpu, n(1.0));
    let before = t;
    assert!(!t.set("red", n(50.0)));
    assert_eq!(t, before);
}

#[test]
fn roundtrip_guarda_y_carga() {
    let s = Settings {
        mode: "charts".into(),
        pinned: false,
        x: Some(1600),
        y: Some(120),
        thresholds: Thresholds { cpu: n(70.0), ..Default::default() },
    };
    let loaded = Settings::load(Some(Parsed::Settings(s.clone())));
    assert!(same(&loaded, &s));
    assert_eq!(loaded.thresholds.cpu, n(70.0));
}

#[test]
fn load_tolera_bom_inicial() {
    let bom = char::from_u32(0xFEFF).unwrap();
    let with_bom = format!("{bom}{{ \"mode\": \"charts\", \"thresholds\": {{ \"cpu\": 70.0 }} }}");
    assert!(serde_json::from_str::<serde_json::Value>(&with_bom).is_err());
    let value: serde_json::Value = serde_json::from_str(&without_marks(&with_bom)).unwrap();
    let mut parsed = Settings::default();
    parsed.mode = value["mode"].as_str().unwrap().to_string();
    parsed.thresholds.cpu = n(value["thresholds"]["cpu"].as_f64().unwrap());
    let s = Settings::load(Some(Parsed::Settings(parsed)));
    assert_eq!(s.mode, "charts");
    assert_eq!(s.thresholds.cpu, n(70.0));
}

#[test]
fn json_corrupto_y_campos_faltantes_caidan_a_defaults() {
    assert!(serde_json::from_str::<serde_json::Value>("{ esto no es json").is_err());
    let s = Settings::load(Some(Parsed::Neither));
    assert!(same(&s, &Settings::default()));

    let value: serde_json::Value = serde_json::from_str(r#"{ "mode": "mini" }"#).unwrap();
    let mut parcial = Settings::default();
    parcial.mode = value["mode"].as_str().unwrap().to_string();
    let parcial = Settings::load(Some(Parsed::Settings(parcial)));
    assert_eq!(parcial.mode, "mini");
    assert_eq!(parcial.thresholds, Thresholds::default());
    assert!(parcial.x.is_none());
}

#[test]
fn sanitize_modos_invalidos() {
    let s = Settings { mode: "fullscreen".into(), ..Default::default() }.sanitized();
    assert_eq!(s.mode, "dev");
    let s = Settings { mode: "procs".into(), ..Default::default() }.sanitized();
    assert_eq!(s.mode, "procs");
}

#[test]
fn a_missing_file_gives_the_defaults() {
    let s = Settings::load(None);
    assert!(same(&s, &Settings::default()));
    assert_eq!(s.mode, "dev");
    assert!(s.pinned);
}

#[test]
fn thresholds_alone_are_rescued_and_held() {
    let s = Settings::load(Some(Parsed::Thresholds(thresholds(500.0, 0.0, 42.0, 10.0))));
    assert_eq!(s.thresholds, thresholds(100.0, 1.0, 42.0, 30.0));
    assert_eq!(s.mode, "dev");
    assert!(s.pinned && s.x.is_none() && s.y.is_none());
}

#[test]
fn a_file_is_known_by_its_keys() {
    let keys = |names: &[&str]| names.iter().map(|k| k.to_string()).collect::<Vec<String>>();
    let t = thresholds(70.0, 71.0, 72.0, 73.0);
    let mini = || Some(Settings { mode: "mini".to_string(), ..Default::default() });
    // Thresholds alone can be read as settings without any key of theirs.
    let s = Settings::load(Some(Parsed::of(&keys(&["cpu", "gpu"]), Some(Settings::default()), Some(t))));
    assert_eq!(s.thresholds, t);
    let s = Settings::load(Some(Parsed::of(&keys(&["cpu", "mode"]), mini(), Some(t))));
    assert_eq!((s.mode.as_str(), s.thresholds), ("mini", Thresholds::default()));
    let s = Settings::load(Some(Parsed::of(&keys(&["other"]), mini(), Some(t))));
    assert_eq!(s.mode, "mini");
    assert!(matches!(Parsed::of(&keys(&["mode", "cpu"]), None, Some(t)), Parsed::Thresholds(_)));
    assert!(matches!(Parsed::of(&keys(&["cpu"]), mini(), None), Parsed::Settings(_)));
    assert!(matches!(Parsed::of(&Vec::new(), None, None), Parsed::Neither));
}

#[test]
fn held_thresholds_stay_as_they_are() {
    let t = thresholds(0.5, 101.0, 77.7, 121.0).clamped();
    assert_eq!(t, thresholds(1.0, 100.0, 77.7, 120.0));
    assert_eq!(t.clamped(), t);
    // What is not a number becomes the default.
    assert_eq!(thresholds(f64::NAN, 50.0, 50.0, 50.0).clamped(), thresholds(85.0, 50.0, 50.0, 50.0));
    let nan = f64::NAN;
    assert_eq!(thresholds(nan, nan, -nan, nan).clamped(), Thresholds::default());
    let endless = thresholds(f64::INFINITY, f64::NEG_INFINITY, 1.0, f64::INFINITY).clamped();
    assert_eq!(endless, thresholds(100.0, 1.0, 1.0, 120.0));
}

#[test]
fn a_threshold_is_found_by_its_name() {
    let t = thresholds(1.0, 2.0, 3.0, 40.0);
    assert_eq!(t.get("cpu"), Some(n(1.0)));
    assert_eq!(t.get("ram"), Some(n(2.0)));
    assert_eq!(t.get("gpu"), Some(n(3.0)));
    assert_eq!(t.get("temp"), Some(n(40.0)));
    assert_eq!(t.get("CPU"), None);
}

#[test]
fn modes_are_found_by_their_names() {
    for mode in [Mode::Dev, Mode::Mini, Mode::Charts, Mode::Procs] {
        assert_eq!(Mode::named(mode.name()), Some(mode));
    }
    assert_eq!(Mode::named("Dev"), None);
    assert_eq!(Mode::named(""), None);
}

#[test]
fn the_environment_chooses_the_file() {
    assert_eq!(Settings::path(true, true), Location::Prescribed);
    assert_eq!(Settings::path(true, false), Location::Prescribed);
    assert_eq!(Settings::path(false, true), Location::AppData);
    assert_eq!(Settings::path(false, false), Location::Current);
}

#[test]
fn marks_go_only_from_the_start() {
    assert_eq!(without_marks("\u{feff}\u{feff}{}\u{feff}"), "{}\u{feff}");
    assert_eq!(without_marks("{}"), "{}");
    assert_eq!(without_marks(""), "");
}

#[test]
fn a_save_writes_beside_the_file_and_moves() {
    let mut step = SaveStep::MakeFolder;
    let mut seen = vec![step];
    for yes in [true, true, true, true, true] {
        step = Settings::save(step, yes);
        seen.push(step);
    }
    assert_eq!(
        seen,
        vec![
            SaveStep::MakeFolder,
            SaveStep::WriteTemp,
            SaveStep::LookForOld,
            SaveStep::RemoveOld,
            SaveStep::MoveTemp,
            SaveStep::Done
        ]
    );
    // Without an old file there is nothing to remove.
    assert_eq!(Settings::save(SaveStep::LookForOld, false), SaveStep::MoveTemp);
    // The first failure ends the saving.
    for step in [SaveStep::MakeFolder, SaveStep::WriteTemp, SaveStep::RemoveOld, SaveStep::MoveTemp] {
        assert_eq!(Settings::save(step, false), SaveStep::Failed);
    }
    assert_eq!(Settings::save(SaveStep::Done, false), SaveStep::Done);
    assert_eq!(Settings::save(SaveStep::Failed, true), SaveStep::Failed);
}

/// Runs a save on two files and stops after `steps` of its steps.
fn files_after(steps: usize, old: Option<&str>, text: &str) -> (Option<String>, Option<String>) {
    let mut file: Option<String> = old.map(|t| t.to_string());
    let mut temp: Option<String> = None;
    let mut step = SaveStep::MakeFolder;
    for _ in 0..steps {
        let yes = match step {
            SaveStep::WriteTemp => {
                temp = Some(text.to_string());
                true
            }
            SaveStep::LookForOld => file.is_some(),
            SaveStep::RemoveOld => {
                file = None;
                true
            }
            SaveStep::MoveTemp => {
                file = temp.take();
                true
            }
            _ => true,
        };
        step = Settings::save(step, yes);
    }
    (file, temp)
}

#[test]
fn an_interrupted_save_leaves_no_half_file() {
    for old in [None, Some("old")] {
        for steps in 0..7 {
            let (file, _) = files_after(steps, old, "new");
            assert!(file.is_none() || file.as_deref() == old || file.as_deref() == Some("new"));
        }
        assert_eq!(files_after(6, old, "new").0.as_deref(), Some("new"));
    }
}
