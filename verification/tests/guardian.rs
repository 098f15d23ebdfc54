use sysmon_core::guardian::{thresholds_of, Alert, Guardian, GuardianInput, COOLDOWN};
use sysmon_core::num::{num, Num};
use sysmon_core::AppState;

fn n(x: f64) -> Num {
    num(x.to_bits())
}

/// The time of the ticks, unless a test says otherwise.
const NOW: u64 = 1_000_000;

fn input(cpu: f64) -> GuardianInput {
    GuardianInput {
        cpu: n(cpu),
        temp: n(-1.0),
        gpu: n(-1.0),
        ram: n(40.0),
        used_gb: n(8.0),
        total_gb: n(16.0),
        th_cpu: n(85.0),
        th_temp: n(80.0),
        th_gpu: n(90.0),
        th_ram: n(90.0),
    }
}

fn tick(g: &mut Guardian, m: &GuardianInput) -> Vec<String> {
    g.evaluate(m, NOW).iter().map(|a| a.title().to_string()).collect()
}

#[test]
fn no_dispara_si_nunca_supera_el_umbral() {
    let mut g = Guardian::default();
    for _ in 0..10 {
        assert!(tick(&mut g, &input(84.9)).is_empty());
    }
}

#[test]
fn umbral_es_estricto_cpu_mayor_no_mayor_igual() {
    let mut g = Guardian::default();
    assert!(tick(&mut g, &input(85.0)).is_empty());
    assert!(tick(&mut g, &input(85.0)).is_empty());
    assert!(tick(&mut g, &input(85.1)).is_empty());
    assert_eq!(tick(&mut g, &input(85.1)).len(), 1);
}

#[test]
fn streak_necesita_2_ticks_consecutivos() {
    let mut g = Guardian::default();
    assert!(tick(&mut g, &input(99.0)).is_empty());
    assert!(tick(&mut g, &input(50.0)).is_empty());
    assert!(tick(&mut g, &input(99.0)).is_empty());
    assert_eq!(tick(&mut g, &input(99.0)).len(), 1);
}

#[test]
fn latch_dispara_una_sola_vez_por_episodio() {
    let mut g = Guardian::default();
    assert!(tick(&mut g, &input(99.0)).is_empty());
    let first = tick(&mut g, &input(99.0));
    assert_eq!(first.len(), 1);
    assert!(first[0].contains("CPU"));
    for _ in 0..20 {
        assert!(tick(&mut g, &input(99.0)).is_empty());
    }
}

#[test]
fn cooldown_permite_renotificar_tras_episodio_separado() {
    let mut g = Guardian::default();
    tick(&mut g, &input(99.0));
    tick(&mut g, &input(99.0));
    for _ in 0..5 {
        tick(&mut g, &input(30.0));
    }
    tick(&mut g, &input(99.0));
    assert!(tick(&mut g, &input(99.0)).is_empty());
    tick(&mut g, &input(30.0));
    tick(&mut g, &input(99.0));
    tick(&mut g, &input(99.0));
    assert!(tick(&mut g, &input(99.0)).is_empty());
    tick(&mut g, &input(30.0));
    g.cpu.last = Some(NOW - COOLDOWN - 1000);
    tick(&mut g, &input(99.0));
    assert_eq!(tick(&mut g, &input(99.0)).len(), 1);
}

#[test]
fn cooldown_vencido_renotifica_en_nuevo_episodio() {
    let mut g = Guardian::default();
    tick(&mut g, &input(99.0));
    tick(&mut g, &input(99.0));
    tick(&mut g, &input(30.0));
    g.cpu.last = Some(NOW - COOLDOWN - 1000);
    tick(&mut g, &input(99.0));
    let fired = tick(&mut g, &input(99.0));
    assert_eq!(fired.len(), 1);
    assert!(fired[0].contains("CPU"));
}

#[test]
fn sentinela_negativo_no_alerta_nunca_temp_y_gpu() {
    let mut g = Guardian::default();
    let mut m = input(30.0);
    m.temp = n(-1.0);
    m.gpu = n(-1.0);
    m.th_temp = n(-10.0);
    m.th_gpu = n(-10.0);
    for _ in 0..10 {
        assert!(tick(&mut g, &m).is_empty());
    }
}

#[test]
fn temp_y_gpu_disparan_con_datos_validos() {
    let mut g = Guardian::default();
    let mut m = input(30.0);
    m.temp = n(95.0);
    m.gpu = n(95.0);
    assert!(tick(&mut g, &m).is_empty());
    let fired = tick(&mut g, &m);
    assert_eq!(fired.len(), 2);
    assert!(fired.iter().any(|t| t.contains("Thermal")));
    assert!(fired.iter().any(|t| t.contains("GPU")));
}

#[test]
fn cpu_y_ram_son_canales_independientes() {
    let mut g = Guardian::default();
    let mut m = input(99.0);
    m.ram = n(95.0);
    assert!(tick(&mut g, &m).is_empty());
    let fired = tick(&mut g, &m);
    assert_eq!(fired.len(), 2);
    assert!(fired.iter().any(|t| t.contains("CPU")));
    assert!(fired.iter().any(|t| t.contains("RAM")));
    let mut m2 = input(30.0);
    m2.ram = n(95.0);
    for _ in 0..5 {
        assert!(tick(&mut g, &m2).is_empty());
    }
}

#[test]
fn ram_umbral_incluyente_y_mensaje_con_gigas() {
    let mut g = Guardian::default();
    let mut m = input(30.0);
    m.ram = n(90.0);
    assert!(tick(&mut g, &m).is_empty());
    let bodies: Vec<String> = g.evaluate(&m, NOW).iter().map(|a| a.body("90")).collect();
    assert_eq!(bodies.len(), 1);
    assert!(bodies[0].contains("8.0/16.0 GB"));
}

#[test]
fn thresholds_of_lee_los_umbrales_configurables() {
    let mut app = AppState::default();
    let th = thresholds_of(&app);
    assert_eq!(th.cpu, n(85.0));
    assert_eq!(th.ram, n(90.0));
    assert_eq!(th.gpu, n(90.0));
    assert_eq!(th.temp, n(80.0));
    app.settings.thresholds.set("cpu", n(70.0));
    assert_eq!(thresholds_of(&app).cpu, n(70.0));
}

#[test]
fn default_arranca_con_latch_apagado_y_cooldown_vencido() {
    let g = Guardian::default();
    assert!(!g.cpu.fired && !g.temp.fired && !g.gpu.fired && !g.ram.fired);
    assert_eq!(g.cpu.streak, 0);
    for watch in [g.cpu, g.temp, g.gpu, g.ram] {
        assert!(watch.ready(0));
        assert!(watch.ready(NOW));
    }
}

#[test]
fn alerts_have_their_words() {
    let mut g = Guardian::default();
    let mut m = input(99.04);
    m.temp = n(83.9);
    m.gpu = n(95.25);
    m.ram = n(91.0);
    assert!(g.evaluate(&m, NOW).is_empty());
    let alerts = g.evaluate(&m, NOW + 2500);
    let shown: Vec<(String, String)> = alerts.iter().map(|a| (a.title().to_string(), a.body("85.5"))).collect();
    assert_eq!(
        shown,
        vec![
            ("⚠\u{FE0F} CPU Alert".to_string(), "CPU 99.0% sostenida sobre 85.5%".to_string()),
            ("🌡\u{FE0F} Thermal Alert".to_string(), "CPU 83°C sostenida sobre 85.5°C".to_string()),
            ("🎮 GPU Alert".to_string(), "GPU 95.2% sostenida sobre 85.5%".to_string()),
            ("🧠 RAM Alert".to_string(), "Memoria 91.0% sostenida sobre 85.5% (8.0/16.0 GB)".to_string()),
        ]
    );
    assert_eq!(alerts[0].threshold(), n(85.0));
    assert_eq!(alerts[1].threshold(), n(80.0));
    assert_eq!(alerts[2].threshold(), n(90.0));
    assert_eq!(alerts[3], Alert::Ram { percent: n(91.0), threshold: n(90.0), used_gb: n(8.0), total_gb: n(16.0) });
}

#[test]
fn two_alerts_of_a_channel_are_a_minute_apart() {
    let mut g = Guardian::default();
    let mut times = Vec::new();
    for i in 0..100u64 {
        // Two readings above, one below.
        let cpu = if i % 3 == 2 { 10.0 } else { 99.0 };
        let now = i * 2500;
        if !g.evaluate(&input(cpu), now).is_empty() {
            times.push(now);
        }
    }
    assert_eq!(times[0], 2500);
    assert!(times.len() >= 3);
    for pair in times.windows(2) {
        assert!(pair[1] - pair[0] >= COOLDOWN);
    }
}

#[test]
fn the_cooldown_ends_after_exactly_a_minute() {
    let mut g = Guardian::default();
    g.evaluate(&input(99.0), 0);
    assert_eq!(g.evaluate(&input(99.0), 1).len(), 1);
    g.evaluate(&input(10.0), 2);
    g.evaluate(&input(99.0), 3);
    assert!(g.evaluate(&input(99.0), 60_000).is_empty());
    // The episode goes on, and its alert comes as soon as the minute is over.
    assert_eq!(g.evaluate(&input(99.0), 60_001).len(), 1);
}

#[test]
fn a_check_reads_the_snapshot_and_the_settings() {
    let mut app = AppState::default();
    app.snapshot.cpu = n(250.0);
    app.snapshot.memory.percent = n(-3.0);
    let mut g = Guardian::default();
    assert!(g.check(&app, NOW).is_empty());
    let alerts = g.check(&app, NOW + 2500);
    assert_eq!(alerts.len(), 1);
    assert_eq!(alerts[0], Alert::Cpu { percent: n(100.0), threshold: n(85.0) });
    app.settings.thresholds.set("cpu", n(100.0));
    assert!(g.check(&app, NOW + 5000).is_empty());
    assert_eq!(g.cpu.streak, 0);
}
