use lucy::local::{NetConnection, TaskEntry};
use lucy::snapshots::{
    diff_category, network_diff, network_snapshot_reply, tasks_diff, tasks_snapshot_reply, DiffCategory,
};

fn task(name: &str, pid: u32) -> TaskEntry {
    TaskEntry { name: name.into(), pid, session: "Console".into(), mem_kb: 100 }
}

fn conn(proto: &str, la: &str, lp: u16, ra: &str, rp: u16, pid: Option<u32>) -> NetConnection {
    NetConnection {
        protocol: proto.into(),
        local_addr: la.into(),
        local_port: lp,
        remote_addr: ra.into(),
        remote_port: rp,
        state: "ESTABLISHED".into(),
        pid,
    }
}

#[test]
fn categories_by_name() {
    assert_eq!(diff_category("tasks"), Ok(DiffCategory::Tasks));
    assert_eq!(diff_category("processes"), Ok(DiffCategory::Tasks));
    assert_eq!(diff_category("network"), Ok(DiffCategory::Network));
    assert_eq!(diff_category("ports"), Ok(DiffCategory::Network));
    assert_eq!(diff_category("disk"), Err("Categoría no soportada. Usa 'tasks' o 'network'.".to_string()));
}

#[test]
fn first_call_takes_the_snapshot() {
    assert_eq!(
        tasks_snapshot_reply(None, &vec![task("a", 1)]),
        "SNAPSHOT INICIAL DE PROCESOS ESTABLECIDA. Realiza tus comandos y vuelve a llamar a system_diff."
    );
    assert_eq!(
        network_snapshot_reply(None, &vec![]),
        "SNAPSHOT INICIAL DE RED ESTABLECIDA. Realiza tus comandos y vuelve a llamar a system_diff."
    );
}

#[test]
fn process_diff_by_pid() {
    let prev = vec![task("a", 1), task("b", 2)];
    let curr = vec![task("b-renamed", 2), task("c", 3)];
    assert_eq!(
        tasks_diff(&prev, &curr),
        "--- DIFF DE PROCESOS (1 murieron, 1 nacieron) ---\n[-] MURIÓ: a (PID: 1)\n[+] NACIÓ: c (PID: 3)\n"
    );
    assert_eq!(tasks_snapshot_reply(Some(&prev), &curr), tasks_diff(&prev, &curr));
}

#[test]
fn process_diff_lists_fifty() {
    let prev: Vec<TaskEntry> = (0..60).map(|i| task("p", i)).collect();
    let d = tasks_diff(&prev, &vec![]);
    assert!(d.starts_with("--- DIFF DE PROCESOS (60 murieron, 0 nacieron) ---\n"));
    assert_eq!(d.matches("[-] MURIÓ").count(), 50);
}

#[test]
fn network_diff_lists_each_connection_once() {
    let c1 = conn("TCP", "0.0.0.0", 80, "1.2.3.4", 5, Some(7));
    let c2 = conn("TCP", "0.0.0.0", 443, "1.2.3.4", 6, Some(8));
    let c3 = conn("UDP", "[::]", 53, "*", 0, None);
    let prev = vec![c1.clone(), c1.clone(), c2.clone()];
    let curr = vec![c2.clone(), c3.clone()];
    assert_eq!(
        network_diff(&prev, &curr),
        "--- DIFF DE RED (1 cerradas, 1 abiertas) ---\n[-] CERRÓ: TCP 0.0.0.0:80 -> 1.2.3.4:5 (PID: Some(7))\n[+] ABRIÓ: UDP [::]:53 -> *:0 (PID: None)\n"
    );
}

#[test]
fn network_diff_of_same_listing_is_empty() {
    let c1 = conn("TCP", "127.0.0.1", 1, "127.0.0.1", 2, Some(1));
    assert_eq!(
        network_diff(&vec![c1.clone()], &vec![c1]),
        "--- DIFF DE RED (0 cerradas, 0 abiertas) ---\n"
    );
}
