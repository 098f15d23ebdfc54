use sysmon_core::commands::{
    apply_threshold, get_session_stats, hide_widget, mode_size, moved, restore, second_start, set_widget_mode, show_widget,
    toggle_always_on_top, toggle_widget, tray_menu_event, Effect, ThresholdChange,
};
use sysmon_core::kill::{failed_message, kill_outcome, kill_process, validate_kill_pid, KillRun};
use sysmon_core::num::{num, Num};
use sysmon_core::settings::{Mode, Settings};
use sysmon_core::{AppState, MINI_H, WIDGET_H, WIDGET_W};

fn n(x: f64) -> Num {
    num(x.to_bits())
}

fn modes_told(effects: &[Effect]) -> Vec<&'static str> {
    effects
        .iter()
        .filter_map(|e| match e {
            Effect::EmitMode { mode } => Some(mode.name()),
            _ => None,
        })
        .collect()
}

fn visibility_told(effects: &[Effect]) -> Vec<bool> {
    effects
        .iter()
        .filter_map(|e| match e {
            Effect::EmitVisibility { visible } => Some(*visible),
            _ => None,
        })
        .collect()
}

// --- Display mode ------------------------------------------------------------

#[test]
fn modo_valido_emite_mode_changed_y_actualiza_estado() {
    let mut state = AppState::default();
    let (res, effects) = set_widget_mode(&mut state, Some("mini"), true);
    assert_eq!(res.map(|m| m.name()), Ok("mini"));
    assert_eq!(state.mode.name(), "mini");
    assert_eq!(modes_told(&effects), ["mini"]);
    assert_eq!(
        effects,
        vec![
            Effect::SaveSettings,
            Effect::SetSize { width: WIDGET_W, height: MINI_H },
            Effect::EmitMode { mode: Mode::Mini }
        ]
    );
    assert_eq!(state.settings.mode, "mini");
}

#[test]
fn modo_invalido_no_emite_ni_cambia_estado() {
    let mut state = AppState::default();
    let (res, effects) = set_widget_mode(&mut state, None, true);
    assert_eq!(res, Err("Invalid mode"));
    assert!(effects.is_empty());
    let (res, effects) = set_widget_mode(&mut state, Some("fullscreen"), true);
    assert_eq!(res, Err("Invalid mode"));
    assert!(effects.is_empty());
    assert_eq!(state.mode.name(), "dev");
}

#[test]
fn cada_modo_valido_emite_su_propio_payload() {
    let mut state = AppState::default();
    let mut told = Vec::new();
    for modo in ["mini", "charts", "procs", "dev"] {
        let (res, effects) = set_widget_mode(&mut state, Some(modo), false);
        assert_eq!(res.map(|m| m.name()), Ok(modo));
        told.extend(modes_told(&effects));
    }
    assert_eq!(told, ["mini", "charts", "procs", "dev"]);
}

#[test]
fn the_present_mode_is_not_told_again() {
    let mut state = AppState::default();
    let (res, effects) = set_widget_mode(&mut state, Some("dev"), true);
    assert_eq!(res, Ok(Mode::Dev));
    assert!(effects.is_empty());
    set_widget_mode(&mut state, Some("charts"), true);
    assert!(set_widget_mode(&mut state, Some("charts"), true).1.is_empty());
}

#[test]
fn the_small_mode_has_a_small_window() {
    assert_eq!(mode_size("mini"), (340, 245));
    for mode in ["dev", "charts", "procs", "anything"] {
        assert_eq!(mode_size(mode), (WIDGET_W, WIDGET_H));
    }
    assert_eq!(mode_size("dev"), (340, 500));
}

// --- Thresholds --------------------------------------------------------------

#[test]
fn get_settings_devuelve_estado_y_set_threshold_clampea() {
    let mut state = AppState::default();
    let (bad, effects) = apply_threshold(&mut state, Some("nope"), Some(n(50.0)), ThresholdChange::Absolute);
    assert_eq!(bad, Err("Invalid kind"));
    assert!(effects.is_empty());
    let (nan, effects) = apply_threshold(&mut state, Some("cpu"), Some(n(f64::NAN)), ThresholdChange::Absolute);
    assert_eq!(nan, Err("Invalid value"));
    assert!(effects.is_empty());
    let (clamped, effects) = apply_threshold(&mut state, Some("cpu"), Some(n(5000.0)), ThresholdChange::Absolute);
    assert_eq!(clamped.unwrap().cpu, n(100.0));
    assert_eq!(effects, vec![Effect::SaveSettings, Effect::EmitThresholds { thresholds: state.settings.thresholds }]);
    let (delta, _) = apply_threshold(&mut state, Some("cpu"), Some(n(-120.0)), ThresholdChange::Delta);
    assert_eq!(delta.unwrap().cpu, n(1.0));
    assert_eq!(state.settings.thresholds.cpu, n(1.0));
    assert_eq!(state.settings.mode, "dev");
}

#[test]
fn thresholds_move_one_at_a_time() {
    let mut state = AppState::default();
    for (kind, expected) in [("cpu", 90.0), ("ram", 95.0), ("gpu", 95.0), ("temp", 85.0)] {
        let before = state.settings.thresholds;
        let (got, _) = apply_threshold(&mut state, Some(kind), Some(n(5.0)), ThresholdChange::Delta);
        let after = got.unwrap();
        assert_eq!(after.get(kind), Some(n(expected)));
        for other in ["cpu", "ram", "gpu", "temp"] {
            if other != kind {
                assert_eq!(after.get(other), before.get(other));
            }
        }
    }
    assert_eq!(apply_threshold(&mut state, None, Some(n(1.0)), ThresholdChange::Delta).0, Err("Invalid kind"));
    assert_eq!(apply_threshold(&mut state, Some("ram"), None, ThresholdChange::Delta).0, Err("Invalid value"));
    assert_eq!(
        apply_threshold(&mut state, Some("ram"), Some(n(f64::INFINITY)), ThresholdChange::Delta).0,
        Err("Invalid value")
    );
}

// --- Visibility --------------------------------------------------------------

#[test]
fn mock_app_arranca_con_estado_por_defecto() {
    let state = AppState::default();
    assert_eq!(state.mode.name(), "dev");
    assert!(state.visible);
}

#[test]
fn hide_widget_marca_invisible_y_show_widget_lo_restaura() {
    let mut state = AppState::default();
    assert!(state.visible);
    hide_widget(&mut state, true);
    assert!(!state.visible);
    show_widget(&mut state, true);
    assert!(state.visible);
}

#[test]
fn transiciones_repetidas_son_idempotentes_y_coherentes() {
    let mut state = AppState::default();
    hide_widget(&mut state, true);
    hide_widget(&mut state, true);
    assert!(!state.visible);
    show_widget(&mut state, true);
    show_widget(&mut state, true);
    assert!(state.visible);
}

#[test]
fn comandos_no_entran_en_panico_sin_ventana() {
    let mut state = AppState::default();
    assert_eq!(hide_widget(&mut state, false), vec![Effect::EmitVisibility { visible: false }]);
    assert!(!state.visible);
    assert_eq!(show_widget(&mut state, false), vec![Effect::EmitVisibility { visible: true }]);
    assert!(state.visible);
}

#[test]
fn hide_y_show_emiten_visibility_changed_con_payload_bool() {
    let mut state = AppState::default();
    let effects = hide_widget(&mut state, true);
    assert_eq!(effects, vec![Effect::HideWindow, Effect::EmitVisibility { visible: false }]);
    let effects = show_widget(&mut state, true);
    assert_eq!(effects, vec![Effect::ShowWindow, Effect::FocusWindow, Effect::EmitVisibility { visible: true }]);
}

#[test]
fn toggle_widget_emite_un_evento_por_transicion_real() {
    let mut state = AppState::default();
    let mut told = visibility_told(&toggle_widget(&mut state, true));
    told.extend(visibility_told(&toggle_widget(&mut state, true)));
    assert_eq!(told, vec![false, true]);
    assert!(state.visible);
}

#[test]
fn a_second_start_needs_a_window() {
    let mut state = AppState::default();
    state.visible = false;
    assert!(second_start(&mut state, false).is_empty());
    assert!(!state.visible);
    assert_eq!(
        second_start(&mut state, true),
        vec![Effect::ShowWindow, Effect::FocusWindow, Effect::EmitVisibility { visible: true }]
    );
    assert!(state.visible);
}

#[test]
fn the_tray_menu_toggles_and_quits() {
    let mut state = AppState::default();
    assert_eq!(tray_menu_event(&mut state, "toggle", true), vec![Effect::HideWindow, Effect::EmitVisibility { visible: false }]);
    assert!(!state.visible);
    assert_eq!(tray_menu_event(&mut state, "quit", true), vec![Effect::Exit]);
    assert!(tray_menu_event(&mut state, "other", true).is_empty());
    assert!(!state.visible);
}

// --- Pin, position, session --------------------------------------------------

#[test]
fn toggle_always_on_top_invierte_y_reporta_el_estado() {
    let mut state = AppState::default();
    assert!(state.pinned);
    let (pinned, effects) = toggle_always_on_top(&mut state, true);
    assert!(!pinned);
    assert!(!state.pinned);
    assert_eq!(effects[0], Effect::SetAlwaysOnTop { pinned: false });
    let (pinned, _) = toggle_always_on_top(&mut state, true);
    assert!(pinned);
    assert!(state.pinned);
}

#[test]
fn the_pin_is_remembered() {
    let mut state = AppState::default();
    let (_, effects) = toggle_always_on_top(&mut state, false);
    assert_eq!(effects, vec![Effect::SaveSettings]);
    assert!(!state.settings.pinned);
    assert_eq!(state.settings.pinned, state.pinned);
}

#[test]
fn settings_are_restored_at_the_start() {
    let mut state = AppState::default();
    let loaded = Settings { pinned: false, x: Some(-5), y: Some(7), ..Default::default() };
    assert_eq!(
        restore(&mut state, loaded.clone(), true),
        vec![Effect::SetAlwaysOnTop { pinned: false }, Effect::SetPosition { x: -5, y: 7 }]
    );
    assert!(!state.pinned && !state.settings.pinned);
    let half = Settings { x: Some(1), ..Default::default() };
    assert_eq!(restore(&mut state, half, true), vec![Effect::SetAlwaysOnTop { pinned: true }]);
    assert!(restore(&mut state, loaded, false).is_empty());
    assert!(!state.pinned);
}

#[test]
fn the_page_brings_the_mode_back() {
    let mut state = AppState::default();
    restore(&mut state, Settings { mode: "charts".to_string(), pinned: false, ..Default::default() }, false);
    assert_eq!((state.mode, state.settings.mode.as_str()), (Mode::Dev, "charts"));
    assert_eq!(set_widget_mode(&mut state, Some("charts"), false).0, Ok(Mode::Charts));
    assert_eq!((state.mode.name(), state.settings.mode.as_str()), ("charts", "charts"));
    assert!(!state.pinned && !state.settings.pinned);
}

#[test]
fn a_moved_window_is_remembered() {
    let mut state = AppState::default();
    assert_eq!(moved(&mut state, 1600, -120), vec![Effect::SaveSettings]);
    assert_eq!((state.settings.x, state.settings.y), (Some(1600), Some(-120)));
}

#[test]
fn get_session_stats_refleja_maximos_y_promedios_grabados() {
    let mut state = AppState::default();
    state.session.record(n(10.0), n(40.0), n(5.0), n(1024.0));
    state.session.record(n(30.0), n(60.0), n(-1.0), n(2048.0));
    state.session.record(n(20.0), n(50.0), n(25.0), n(512.0));
    let res = get_session_stats(&state.session);
    assert_eq!(res.samples, 3);
    assert_eq!(res.cpu.max, n(30.0));
    assert_eq!(res.cpu.avg, n(20.0));
    assert_eq!(res.mem.max, n(60.0));
    assert_eq!(res.gpu.max, n(25.0));
    assert_eq!(res.gpu.avg, n(15.0));
    assert_eq!(res.net.max, n(2048.0));
}

#[test]
fn snapshot_inicial_y_session_stats_arrancan_en_neutro_honesto() {
    let state = AppState::default();
    assert_eq!(state.snapshot.disk.read_bytes_sec, n(-1.0));
    assert_eq!(state.snapshot.disk.write_bytes_sec, n(-1.0));
    let res = get_session_stats(&state.session);
    assert_eq!(res.samples, 0);
    assert_eq!(res.cpu.avg, n(0.0));
    assert_eq!(res.gpu.max, n(0.0));
}

#[test]
fn session_replies_have_one_place() {
    let mut state = AppState::default();
    state.session.record(n(10.04), n(1.0), n(0.25), n(7.0));
    state.session.record(n(10.0), n(2.0), n(0.25), n(8.0));
    let res = get_session_stats(&state.session);
    assert_eq!(res.cpu.max, n(10.0));
    assert_eq!(res.mem.avg, n(1.5));
    assert_eq!(res.gpu.avg, n(0.3));
    assert_eq!(res.net.avg, n(7.5));
}

// --- Ending processes --------------------------------------------------------

const OWN: u32 = 4321;

#[test]
fn rechaza_pids_peligrosos_sin_ejecutar_nada() {
    assert_eq!(validate_kill_pid(None, OWN, true), Err("Invalid PID"));
    assert_eq!(validate_kill_pid(Some(0), OWN, true), Err("Invalid PID"));
    assert_eq!(validate_kill_pid(Some(-3), OWN, true), Err("Invalid PID"));
    assert_eq!(validate_kill_pid(Some(OWN as i64), OWN, true), Err("Refusing to kill the widget itself"));
    assert_eq!(validate_kill_pid(Some(4), OWN, true), Err("Refusing to kill a system-critical process"));
}

#[test]
fn acepta_pids_validos() {
    assert_eq!(validate_kill_pid(Some(1234), OWN, true), Ok(1234));
}

#[test]
fn kill_process_rechaza_pids_peligrosos_sin_ejecutar_nada() {
    for windows in [true, false] {
        let refused = |pid: Option<i64>| kill_process(pid, OWN, windows).err().unwrap();
        assert_eq!(refused(None), "Invalid PID");
        assert_eq!(refused(Some(0)), "Invalid PID");
        assert_eq!(refused(Some(-3)), "Invalid PID");
        assert_eq!(refused(Some(OWN as i64)), "Refusing to kill the widget itself");
    }
    assert_eq!(kill_process(Some(4), OWN, true).err().unwrap(), "Refusing to kill a system-critical process");
}

#[test]
fn the_whole_number_names_the_process() {
    assert_eq!(validate_kill_pid(Some((1 << 32) + OWN as i64), OWN, true), Ok((1 << 32) + OWN as i64));
    assert_eq!(validate_kill_pid(Some((1 << 32) + 4), OWN, true), Ok((1 << 32) + 4));
    assert_eq!(validate_kill_pid(Some(4), OWN, false), Ok(4));
    assert_eq!(validate_kill_pid(Some(i64::MAX), OWN, true), Ok(i64::MAX));
}

#[test]
fn taskkill_gets_force_tree_and_number() {
    let command = kill_process(Some(1234), OWN, true).ok().unwrap();
    assert_eq!(command.pid, 1234);
    assert_eq!(command.args, vec!["/F", "/T", "/PID", "1234"]);
    assert_eq!(kill_process(Some(1234), OWN, false).err().unwrap(), "Unsupported platform");
    assert_eq!(kill_process(Some(4), OWN, false).err().unwrap(), "Unsupported platform");
}

#[test]
fn a_failed_kill_says_why() {
    assert_eq!(kill_outcome(7, KillRun::Succeeded), Ok(7));
    assert_eq!(
        kill_outcome(7, KillRun::NotStarted("not found".to_string())),
        Err("Failed to kill process 7 (not found)".to_string())
    );
    assert_eq!(
        kill_outcome(7, KillRun::Failed(b" ERROR: Access denied.\r\n".to_vec())),
        Err("Failed to kill process 7: ERROR: Access denied.".to_string())
    );
    // Output in another code page is not UTF-8.
    assert_eq!(
        kill_outcome(7, KillRun::Failed(vec![b'n', 0xf3, b'!', b'\n'])),
        Err("Failed to kill process 7: n\u{fffd}!".to_string())
    );
    assert_eq!(failed_message(8, "\tx "), "Failed to kill process 8: x");
}
