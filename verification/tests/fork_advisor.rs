use lucy::fork_advisor::{advise, extract_hostnames, extract_list_items, extract_paths, ForkAdvice, FORK_THRESHOLD_PCT};

const FORK_THRESHOLD: f32 = FORK_THRESHOLD_PCT as f32 / 100.0;

fn confidence(a: &ForkAdvice) -> f32 {
    a.confidence_pct as f32 / 100.0
}

#[test]
fn empty_prompt_returns_zero() {
    let a = advise("");
    assert!(!a.should_fork);
    assert_eq!(confidence(&a), 0.0);
    assert!(a.signals.is_empty());
}

#[test]
fn single_simple_task_does_not_fork() {
    let a = advise("reinicia el servicio de IIS");
    assert!(!a.should_fork, "got {:?}", a);
}

#[test]
fn two_hosts_triggers_fork() {
    let a = advise("audita PROD-AD-01 y PROD-WEB-02 buscando puertos abiertos");
    assert!(a.should_fork, "got {:?}", a);
    assert!(confidence(&a) >= FORK_THRESHOLD, "score {}", confidence(&a));
    assert!(a.branches.iter().any(|b| b.contains("PROD-AD-01")));
    assert!(a.branches.iter().any(|b| b.contains("PROD-WEB-02")));
}

#[test]
fn explicit_parallel_alone_triggers() {
    let a = advise("haz esto en paralelo");
    assert!(a.should_fork, "got {:?}", a);
}

#[test]
fn explicit_parallel_plus_compare_triggers_strongly() {
    let a = advise("compara los dos enfoques en paralelo");
    assert!(a.should_fork, "got {:?}", a);
    assert!(confidence(&a) >= 0.90, "should accumulate signals: {}", confidence(&a));
}

#[test]
fn bullet_list_triggers() {
    let prompt = "Revisa lo siguiente:\n- estado de IIS\n- logs del Event Viewer\n- conexiones TCP en el firewall";
    let a = advise(prompt);
    assert!(a.should_fork, "got {:?}", a);
    assert!(!a.branches.is_empty());
}

#[test]
fn comma_list_of_three_triggers() {
    let a = advise("para cada uno de estos archivos: a.log, b.log, c.log, dime el tamaño");
    assert!(a.should_fork || confidence(&a) > 0.45, "got {:?}", a);
}

#[test]
fn cross_domain_conjunction_triggers() {
    let a = advise("audita IIS y revisa el Event Viewer en busca de errores");
    assert!(!a.should_fork, "got {:?}", a);
    assert!(confidence(&a) > 0.0);
}

#[test]
fn signals_carry_evidence() {
    let a = advise("audita PROD-AD-01 y PROD-WEB-02 en paralelo");
    let kinds: Vec<&str> = a.signals.iter().map(|s| s.kind.as_str()).collect();
    assert!(kinds.contains(&"explicit_parallel"));
    assert!(kinds.contains(&"multi_host"));
}

#[test]
fn hostname_extraction_ignores_common_words() {
    let a = advise("ejecuta un script powershell en lucy");
    assert_eq!(a.signals.iter().filter(|s| s.kind == "multi_host").count(), 0);
}

#[test]
fn confidence_caps_below_two() {
    let prompt = "Compara PROD-AD-01 vs PROD-WEB-02 en paralelo, revisando:\n\
                  - logs de \\\\PROD-AD-01\\C$\\Windows\\System32\\logs\n\
                  - logs de \\\\PROD-WEB-02\\C$\\Windows\\System32\\logs\n\
                  - conectividad TCP\n\
                  audita IIS y revisa Event Viewer simultáneamente";
    let a = advise(prompt);
    assert!(a.should_fork);
    assert!(confidence(&a) < 3.0, "score {}", confidence(&a));
}

#[test]
fn bypass_marker_suppresses_advice() {
    let a = advise("audita PROD-AD-01 y PROD-WEB-02 [NO-FORK]");
    assert!(!a.should_fork, "got {:?}", a);
    assert_eq!(confidence(&a), 0.0);
    assert_eq!(a.signals.len(), 1);
    assert_eq!(a.signals[0].kind, "bypass");
}

#[test]
fn path_extraction_picks_up_urls_and_unc() {
    let a = advise("descarga https://example.com/a.zip y https://example.com/b.zip");
    let paths_hit = a.signals.iter().any(|s| s.kind == "multi_path");
    assert!(paths_hit, "got {:?}", a);
}

#[test]
fn extractors_on_their_own() {
    assert_eq!(extract_hostnames("PROD-AD-01 prod-ad-01 web-001 lucy"), vec!["PROD-AD-01", "web-001"]);
    assert_eq!(extract_list_items("pasos: uno, dos; tres."), vec!["uno", "dos", "tres"]);
    assert!(extract_list_items("solo: uno, dos").is_empty());
    assert_eq!(extract_list_items("- a\n* b\n1. c"), vec!["a", "b", "c"]);
    assert_eq!(extract_paths("/var/log/a.log y /var/log/a.log y C:\\temp\\x"), vec!["/var/log/a.log", "C:\\temp\\x"]);
}

#[test]
fn weights_and_evidence() {
    let a = advise("audita PROD-AD-01 y PROD-WEB-02 buscando puertos abiertos");
    let s = a.signals.iter().find(|s| s.kind == "multi_host").unwrap();
    assert_eq!(s.weight_pct, 65);
    assert_eq!(s.evidence, "hosts=PROD-AD-01,PROD-WEB-02");
    assert_eq!(a.branches, vec!["Host: PROD-AD-01", "Host: PROD-WEB-02"]);
}
