use lucy::inventory_drift::{diff_certs, diff_ports, diff_scheduled, diff_services, diff_software, DriftTotals};

fn s(v: &[&str]) -> Vec<String> {
    v.iter().map(|x| x.to_string()).collect()
}

#[test]
fn software_added_and_removed_correctly() {
    let c = diff_software(
        &s(&["OpenSSL", "Python"]), &s(&["1.0.1", "3.11"]),
        &s(&["OpenSSL", "NodeJS"]), &s(&["1.0.1", "20.0"]),
    );
    assert_eq!(c.added.len(), 1, "NodeJS should be added");
    assert_eq!(c.removed.len(), 1, "Python should be removed");
    assert_eq!(c.changed.len(), 0, "OpenSSL same version → no change");
    assert_eq!(c.added, vec![1]);
    assert_eq!(c.removed, vec![1]);
}

#[test]
fn software_version_drift_flagged_as_changed() {
    let c = diff_software(&s(&["OpenSSL"]), &s(&["1.0.1"]), &s(&["OpenSSL"]), &s(&["3.0.0"]));
    assert_eq!(c.added.len(), 0);
    assert_eq!(c.removed.len(), 0);
    assert_eq!(c.changed.len(), 1);
    assert_eq!(c.changed[0].field, "version");
    assert_eq!(c.changed[0].from, "1.0.1");
    assert_eq!(c.changed[0].to, "3.0.0");
}

#[test]
fn ports_added_and_process_change_detected() {
    let c = diff_ports(
        &vec![80, 22], &s(&["nginx", "sshd"]),
        &vec![80, 22, 443], &s(&["apache", "sshd", "nginx"]),
    );
    assert_eq!(c.added.len(), 1);
    assert_eq!(c.removed.len(), 0);
    assert_eq!(c.changed.len(), 1);
    assert_eq!(c.changed[0].identifier, "port 80");
    assert_eq!(c.changed[0].from, "nginx");
    assert_eq!(c.changed[0].to, "apache");
}

#[test]
fn services_status_drift_flagged() {
    let c = diff_services(&s(&["spooler"]), &s(&["Running"]), &s(&["spooler"]), &s(&["Stopped"]));
    assert_eq!(c.changed.len(), 1);
    assert_eq!(c.changed[0].from, "Running");
    assert_eq!(c.changed[0].to, "Stopped");
}

#[test]
fn empty_baseline_yields_all_added() {
    let sw = diff_software(&s(&[]), &s(&[]), &s(&["OpenSSL"]), &s(&["3.0"]));
    let p = diff_ports(&vec![], &s(&[]), &vec![22], &s(&["sshd"]));
    let sv = diff_services(&s(&[]), &s(&[]), &s(&["spooler"]), &s(&["Running"]));
    assert_eq!(sw.added.len() + p.added.len() + sv.added.len(), 3);
    assert_eq!(sw.removed.len() + p.removed.len() + sv.removed.len(), 0);
}

#[test]
fn case_insensitive_software_name_match() {
    let c = diff_software(&s(&["OpenSSL"]), &s(&["1.0"]), &s(&["openssl"]), &s(&["1.0"]));
    assert_eq!(c.added.len(), 0, "case-only difference must NOT count as added");
    assert_eq!(c.removed.len(), 0, "case-only difference must NOT count as removed");
    assert_eq!(c.changed.len(), 0, "same version → no change either");
}

#[test]
fn ports_are_ordered_and_first_entry_wins() {
    let c = diff_ports(
        &vec![8080, 9, 22, -1], &s(&["a", "b", "c", "x"]),
        &vec![443, 8080, 8080, 22, 9, 25, -1], &s(&["h", "z", "a", "c", "q", "m", "y"]),
    );
    // added ports 443 (index 0) and 25 (index 5), by port number
    assert_eq!(c.added, vec![5, 0]);
    assert!(c.removed.is_empty());
    // 8080 compares against its first current entry ("z"); names sort as strings
    let ids: Vec<&str> = c.changed.iter().map(|x| x.identifier.as_str()).collect();
    assert_eq!(ids, vec!["port 8080", "port 9"]);
}

#[test]
fn certs_and_scheduled_and_totals() {
    let c = diff_certs(&s(&["CN=a", "CN=b"]), &s(&["2026", "2027"]), &s(&["CN=b"]), &s(&["2028"]));
    assert_eq!(c.removed, vec![0]);
    assert_eq!(c.changed[0].identifier, "CN=b");
    assert_eq!(c.changed[0].field, "expires");
    let sc = diff_scheduled(&s(&["0 * * * * a", ""]), &s(&["0 * * * * b", "0 * * * * b", ""]));
    assert_eq!(sc.added, vec![0, 1]);
    assert_eq!(sc.removed, vec![0]);
    let t = DriftTotals::of(&vec![c, sc]);
    assert_eq!(t, DriftTotals { added: 2, removed: 2, changed: 1 });
}

#[test]
fn drift_sets_match_the_name_sets() {
    let bn = s(&["Git", "git", "Vim", "Curl", ""]);
    let bv = s(&["2.40", "2.39", "9.0", "8.0", ""]);
    let cn = s(&["GIT", "Zsh", "curl", "zsh", "", "Emacs"]);
    let cv = s(&["2.41", "5.9", "8.0", "5.8", "x", "29"]);
    let c = diff_software(&bn, &bv, &cn, &cv);
    // Added: each new lowercased name once, by its first entry.
    assert_eq!(c.added, vec![1, 5]);
    // Removed: vim only.
    assert_eq!(c.removed, vec![2]);
    // Changed: git, compared by first entries (2.40 -> 2.41); curl is unchanged.
    assert_eq!(c.changed.len(), 1);
    assert_eq!(c.changed[0].identifier, "GIT");
    assert_eq!(c.changed[0].from, "2.40");
    assert_eq!(c.changed[0].to, "2.41");
}
