//! The decisions of the background housekeeping loops: the audit-chain and
//! MCP health reports, the memory-crystal rows, snapshot retention, clock
//! drift against an HTTP `Date` header, the embedding server's heartbeat,
//! the required embedding model, and certificates about to expire. Each
//! report returns the line to log, if any, as (level, message).
use vstd::prelude::*;
use crate::text::{append, chars_of, dec, decimal, has_prefix, join, join_strings, starts_with, trim, trim_bounds, views};
use crate::log_analysis::{truncate_utf8, utf8_prefix};
use vstd::utf8::encode_utf8;
use crate::digest::{signed_decimal, signed_dec};

verus! {

// ── Audit chain and MCP health ─────────────────────────────────────────

/// The error for the incidents whose audit chain failed to verify: how
/// many, and the first five.
pub open spec fn audit_broken_line(broken: Seq<Seq<char>>) -> Option<(Seq<char>, Seq<char>)> {
    if broken.len() == 0 {
        None
    } else {
        Some((
            "ERROR"@,
            "housekeeping/audit_verify: chain BROKEN for "@ + decimal(broken.len()) + " incident(s): "@ + join(
                broken.take(vstd::math::min(broken.len() as int, 5)),
                ", "@,
            ),
        ))
    }
}

/// The first `n` strings of `v`, copied.
fn first_strings(v: &Vec<String>, n: usize) -> (r: Vec<String>)
    requires
        n <= v.len(),
    ensures
        views(r@) == views(v@).take(n as int),
{
    let mut r: Vec<String> = Vec::new();
    let mut i: usize = 0;
    while i < n
        invariant
            i <= n,
            n <= v.len(),
            views(r@) == views(v@).take(i as int),
        decreases n - i,
    {
        let ghost before = views(r@);
        r.push(v[i].clone());
        assert(views(r@) =~= before.push(v@[i as int]@));
        assert(views(v@).take(i + 1) =~= views(v@).take(i as int).push(v@[i as int]@));
        i += 1;
    }
    r
}

/// The error for the incidents whose chain is broken, if any.
pub fn audit_broken_report(broken: &Vec<String>) -> (r: Option<(String, String)>)
    ensures
        match (r, audit_broken_line(views(broken@))) {
            (Some((l, m)), Some((ls, ms))) => l@ == ls && m@ == ms,
            (None, None) => true,
            _ => false,
        },
{
    if broken.len() == 0 {
        return None;
    }
    let n = if broken.len() < 5 { broken.len() } else { 5 };
    let head = first_strings(broken, n);
    let mut m = String::from_str("housekeeping/audit_verify: chain BROKEN for ");
    append(&mut m, dec(broken.len() as u64).as_str());
    append(&mut m, " incident(s): ");
    append(&mut m, join_strings(&head, ", ").as_str());
    Some((String::from_str("ERROR"), m))
}

/// The warning for the MCP servers that did not answer: how many, and
/// all their names.
pub open spec fn mcp_down_line(down: Seq<Seq<char>>) -> Option<(Seq<char>, Seq<char>)> {
    if down.len() == 0 {
        None
    } else {
        Some((
            "WARN"@,
            "housekeeping/mcp_health: "@ + decimal(down.len()) + " server(s) unreachable: "@ + join(down, ", "@),
        ))
    }
}

/// The warning for the unreachable MCP servers, if any.
pub fn mcp_down_report(down: &Vec<String>) -> (r: Option<(String, String)>)
    ensures
        match (r, mcp_down_line(views(down@))) {
            (Some((l, m)), Some((ls, ms))) => l@ == ls && m@ == ms,
            (None, None) => true,
            _ => false,
        },
{
    if down.len() == 0 {
        return None;
    }
    let mut m = String::from_str("housekeeping/mcp_health: ");
    append(&mut m, dec(down.len() as u64).as_str());
    append(&mut m, " server(s) unreachable: ");
    append(&mut m, join_strings(down, ", ").as_str());
    Some((String::from_str("WARN"), m))
}

// ── Memory crystals ────────────────────────────────────────────────────

/// The longest narrative a crystal keeps, in bytes.
pub const CRYSTAL_NARRATIVE_MAX_BYTES: usize = 8192;

/// A crystal's narrative: the memory's title, a blank line and its
/// content (the content alone when there is no title), cut to 8189 bytes
/// with an ellipsis when it is over 8192.
pub open spec fn crystal_narrative_spec(title: Seq<char>, content: Seq<char>) -> Seq<char> {
    let n = if title.len() == 0 {
        content
    } else {
        title + "\n\n"@ + content
    };
    if encode_utf8(n).len() > CRYSTAL_NARRATIVE_MAX_BYTES {
        utf8_prefix(n, 8189) + "\u{2026}"@
    } else {
        n
    }
}

/// The narrative of the crystal a memory is promoted into.
pub fn crystal_narrative(title: &str, content: &str) -> (r: String)
    ensures
        r@ == crystal_narrative_spec(title@, content@),
{
    let n = if title.is_empty() {
        content.to_owned()
    } else {
        let mut n = title.to_owned();
        append(&mut n, "\n\n");
        append(&mut n, content);
        n
    };
    if n.as_str().as_bytes().len() > CRYSTAL_NARRATIVE_MAX_BYTES {
        let mut cut = truncate_utf8(n.as_str(), 8189);
        append(&mut cut, "\u{2026}");
        cut
    } else {
        n
    }
}

/// A crystal's key outcomes: the memory's tags when they read as a JSON
/// array (first non-blank character `[`), else an empty array.
pub open spec fn key_outcomes_spec(tags: Seq<char>) -> Seq<char> {
    if trim(tags).len() > 0 && trim(tags)[0] == '[' {
        tags
    } else {
        "[]"@
    }
}

/// The key outcomes of the crystal a memory is promoted into.
pub fn crystal_key_outcomes(tags: &str) -> (r: String)
    ensures
        r@ == key_outcomes_spec(tags@),
{
    let v = chars_of(tags);
    let (lo, hi) = trim_bounds(&v);
    if lo < hi && v[lo] == '[' {
        assert(trim(tags@)[0] == v@[lo as int]);
        tags.to_owned()
    } else {
        String::from_str("[]")
    }
}

// ── Snapshot retention ─────────────────────────────────────────────────

/// The note after pruning snapshots, when any went.
pub open spec fn retention_line(by_age: int, by_count: int) -> Option<(Seq<char>, Seq<char>)> {
    if by_age + by_count > 0 {
        Some((
            "INFO"@,
            "housekeeping/snapshot_retention: pruned "@ + signed_decimal(by_age + by_count) + " (by_age="@
                + signed_decimal(by_age) + ", by_count="@ + signed_decimal(by_count) + ")"@,
        ))
    } else {
        None
    }
}

/// The note after pruning `by_age` snapshots for age and `by_count` for
/// the count cap.
pub fn retention_report(by_age: i64, by_count: i64) -> (r: Option<(String, String)>)
    requires
        i64::MIN <= by_age + by_count <= i64::MAX,
    ensures
        match (r, retention_line(by_age as int, by_count as int)) {
            (Some((l, m)), Some((ls, ms))) => l@ == ls && m@ == ms,
            (None, None) => true,
            _ => false,
        },
{
    let total = by_age + by_count;
    if total > 0 {
        let mut m = String::from_str("housekeeping/snapshot_retention: pruned ");
        append(&mut m, signed_dec(total).as_str());
        append(&mut m, " (by_age=");
        append(&mut m, signed_dec(by_age).as_str());
        append(&mut m, ", by_count=");
        append(&mut m, signed_dec(by_count).as_str());
        append(&mut m, ")");
        Some((String::from_str("INFO"), m))
    } else {
        None
    }
}

// ── Clock drift ────────────────────────────────────────────────────────

/// Drift worth a warning, in seconds.
pub const DRIFT_WARN_SECS: i64 = 300;
/// Drift worth an error, in seconds.
pub const DRIFT_CRIT_SECS: i64 = 1800;

/// What `chrono::DateTime::parse_from_rfc2822(date)` gives, as seconds
/// since the Unix epoch.
pub uninterp spec fn rfc2822_seconds(date: Seq<char>) -> Option<int>;

/// `chrono::DateTime::parse_from_rfc2822` then `timestamp`: the instant an
/// RFC 2822 date names, in seconds since the epoch, or none when it does
/// not parse. The parse is only named.
#[verifier::external_body]
fn http_date_seconds(date: &str) -> (r: Option<i64>)
    ensures
        match r {
            Some(s) => rfc2822_seconds(date@) == Some(s as int),
            None => rfc2822_seconds(date@) is None,
        },
{
    chrono::DateTime::parse_from_rfc2822(date).ok().map(|t| t.timestamp())
}

/// The line a drift of `delta` seconds (local minus remote) logs: an error
/// past half an hour, a warning past five minutes, else nothing.
pub open spec fn drift_line(delta: int) -> Option<(Seq<char>, Seq<char>)> {
    let mag = if delta < 0 { -delta } else { delta };
    if mag >= DRIFT_CRIT_SECS {
        Some((
            "ERROR"@,
            "housekeeping/clock_drift: local clock off by "@ + signed_decimal(delta) + " s ("@
                + (if delta > 0 { "local"@ } else { "remote"@ })
                + " ahead). Audit timestamps unreliable. Sync via w32tm /resync."@,
        ))
    } else if mag >= DRIFT_WARN_SECS {
        Some(("WARN"@, "housekeeping/clock_drift: local clock off by "@ + signed_decimal(delta) + " s."@))
    } else {
        None
    }
}

/// The line a drift of `delta` seconds logs.
pub fn drift_report(delta: i64) -> (r: Option<(String, String)>)
    requires
        delta > i64::MIN,
    ensures
        match (r, drift_line(delta as int)) {
            (Some((l, m)), Some((ls, ms))) => l@ == ls && m@ == ms,
            (None, None) => true,
            _ => false,
        },
{
    let mag = if delta < 0 { -delta } else { delta };
    if mag >= DRIFT_CRIT_SECS {
        let mut m = String::from_str("housekeeping/clock_drift: local clock off by ");
        append(&mut m, signed_dec(delta).as_str());
        append(&mut m, " s (");
        append(&mut m, if delta > 0 { "local" } else { "remote" });
        append(&mut m, " ahead). Audit timestamps unreliable. Sync via w32tm /resync.");
        Some((String::from_str("ERROR"), m))
    } else if mag >= DRIFT_WARN_SECS {
        let mut m = String::from_str("housekeeping/clock_drift: local clock off by ");
        append(&mut m, signed_dec(delta).as_str());
        append(&mut m, " s.");
        Some((String::from_str("WARN"), m))
    } else {
        None
    }
}

/// What the drift check logs given the server's `Date` header and the
/// local time (seconds since the epoch): nothing when the header does not
/// parse.
pub fn clock_drift_check(date_header: &str, local_now: i64) -> (r: Option<(String, String)>)
    ensures
        match rfc2822_seconds(date_header@) {
            None => r is None,
            Some(server) => {
                let delta = local_now - server;
                (i64::MIN < delta <= i64::MAX) ==> match (r, drift_line(delta)) {
                    (Some((l, m)), Some((ls, ms))) => l@ == ls && m@ == ms,
                    (None, None) => true,
                    _ => false,
                }
            },
        },
{
    match http_date_seconds(date_header) {
        None => None,
        Some(server) => {
            match local_now.checked_sub(server) {
                Some(delta) => if delta > i64::MIN {
                    drift_report(delta)
                } else {
                    None
                },
                None => None,
            }
        },
    }
}

// ── Heartbeat ──────────────────────────────────────────────────────────

/// The heartbeat after a probe: whether the server is now counted as
/// missing, and the line to log (a warning on the second miss in a row, a
/// note on recovery after a miss).
pub open spec fn heartbeat_spec(was_missing: bool, reachable: bool) -> (bool, Option<(Seq<char>, Seq<char>)>) {
    if reachable {
        (false, if was_missing { Some(("INFO"@, "housekeeping/network_heartbeat: Ollama recovered."@)) } else { None })
    } else {
        (
            true,
            if was_missing {
                Some((
                    "WARN"@,
                    "housekeeping/network_heartbeat: Ollama unreachable at 127.0.0.1:11434 for \u{2265}2 ticks. Semantic recall is degraded."@,
                ))
            } else {
                None
            },
        )
    }
}

/// One heartbeat probe's outcome.
pub fn heartbeat_step(was_missing: bool, reachable: bool) -> (r: (bool, Option<(String, String)>))
    ensures
        r.0 == heartbeat_spec(was_missing, reachable).0,
        match (r.1, heartbeat_spec(was_missing, reachable).1) {
            (Some((l, m)), Some((ls, ms))) => l@ == ls && m@ == ms,
            (None, None) => true,
            _ => false,
        },
{
    if reachable {
        if was_missing {
            (false, Some((String::from_str("INFO"), String::from_str("housekeeping/network_heartbeat: Ollama recovered."))))
        } else {
            (false, None)
        }
    } else if was_missing {
        (
            true,
            Some((
                String::from_str("WARN"),
                String::from_str(
                    "housekeeping/network_heartbeat: Ollama unreachable at 127.0.0.1:11434 for \u{2265}2 ticks. Semantic recall is degraded.",
                ),
            )),
        )
    } else {
        (true, None)
    }
}

// ── Embedding model ────────────────────────────────────────────────────

/// The embedding model semantic recall needs.
pub const REQUIRED_MODEL: &'static str = "nomic-embed-text";

/// Some installed model is the required one (any tag).
pub open spec fn model_present(names: Seq<Seq<char>>) -> bool {
    exists|i: int| 0 <= i < names.len() && starts_with(names[i], REQUIRED_MODEL@)
}

/// The warning when the required embedding model is missing from the
/// installed models, if it is.
pub fn model_health(names: &Vec<String>) -> (r: Option<(String, String)>)
    ensures
        r is None <==> model_present(views(names@)),
        r matches Some((l, m)) ==> l@ == "WARN"@ && m@
            == "housekeeping/ollama_model_health: required embedding model `nomic-embed-text` is NOT present in Ollama. Run: ollama pull nomic-embed-text"@,
{
    let req = chars_of(REQUIRED_MODEL);
    let mut i: usize = 0;
    while i < names.len()
        invariant
            i <= names.len(),
            req@ == REQUIRED_MODEL@,
            forall|j: int| 0 <= j < i ==> !starts_with(#[trigger] views(names@)[j], REQUIRED_MODEL@),
        decreases names.len() - i,
    {
        assert(views(names@)[i as int] == names@[i as int]@);
        if has_prefix(&chars_of(names[i].as_str()), &req) {
            return None;
        }
        i += 1;
    }
    Some((
        String::from_str("WARN"),
        String::from_str(
            "housekeeping/ollama_model_health: required embedding model `nomic-embed-text` is NOT present in Ollama. Run: ollama pull nomic-embed-text",
        ),
    ))
}

/// What `/api/tags` lists, as `serde_json` reads the body: `None` when
/// the body is not JSON; else the `models` array, when there is one, each
/// model's `name` when it is a string.
pub uninterp spec fn json_model_names(body: Seq<char>) -> Option<Option<Seq<Option<Seq<char>>>>>;

/// `serde_json::from_str::<Value>`, then `get("models")`, `as_array`, and
/// for each model `get("name")` and `as_str`.
#[verifier::external_body]
fn model_names_of(body: &str) -> (r: Option<Option<Vec<Option<String>>>>)
    ensures
        match r {
            None => json_model_names(body@) is None,
            Some(None) => json_model_names(body@) == Some(None::<Seq<Option<Seq<char>>>>),
            Some(Some(v)) => json_model_names(body@) == Some(Some(opt_views(v@))),
        },
{
    serde_json::from_str::<serde_json::Value>(body).ok().map(|json| {
        json.get("models").and_then(|m| m.as_array()).map(|arr| {
            arr.iter().map(|m| m.get("name").and_then(|n| n.as_str()).map(|s| s.to_string())).collect()
        })
    })
}

/// The views of optional strings.
pub open spec fn opt_views(v: Seq<Option<String>>) -> Seq<Option<Seq<char>>> {
    v.map_values(|x: Option<String>| match x {
        Some(s) => Some(s@),
        None => None,
    })
}

/// The strings among optional ones, in order.
pub open spec fn present_strings(v: Seq<Option<Seq<char>>>) -> Seq<Seq<char>>
    decreases v.len(),
{
    if v.len() == 0 {
        Seq::empty()
    } else {
        let rest = present_strings(v.drop_last());
        match v.last() {
            Some(s) => rest.push(s),
            None => rest,
        }
    }
}

/// The installed model names an `/api/tags` body gives: none when it is
/// not JSON (nothing is checked then), an empty list without a `models`
/// array, else the string names.
pub open spec fn model_names_spec(body: Seq<char>) -> Option<Seq<Seq<char>>> {
    match json_model_names(body) {
        None => None,
        Some(None) => Some(Seq::empty()),
        Some(Some(items)) => Some(present_strings(items)),
    }
}

/// The warning for an `/api/tags` reply body: nothing when the body is
/// not JSON, else as `model_health` says for the names it lists.
pub fn model_health_from_body(body: &str) -> (r: Option<(String, String)>)
    ensures
        match model_names_spec(body@) {
            None => r is None,
            Some(ns) => (r is None <==> model_present(ns)) && (r matches Some((l, m)) ==> l@ == "WARN"@ && m@
                == "housekeeping/ollama_model_health: required embedding model `nomic-embed-text` is NOT present in Ollama. Run: ollama pull nomic-embed-text"@),
        },
{
    match model_names_of(body) {
        None => None,
        Some(None) => {
            let names: Vec<String> = Vec::new();
            assert(views(names@) =~= Seq::<Seq<char>>::empty());
            model_health(&names)
        },
        Some(Some(items)) => {
            let ghost iv = opt_views(items@);
            let mut names: Vec<String> = Vec::new();
            let mut i: usize = 0;
            while i < items.len()
                invariant
                    i <= items.len(),
                    iv == opt_views(items@),
                    views(names@) == present_strings(iv.take(i as int)),
                decreases items.len() - i,
            {
                assert(iv.take(i + 1).drop_last() =~= iv.take(i as int));
                match &items[i] {
                    Some(n) => {
                        let ghost before = views(names@);
                        names.push(n.clone());
                        assert(views(names@) =~= before.push(n@));
                    },
                    None => {},
                }
                i += 1;
            }
            assert(iv.take(items.len() as int) =~= iv);
            model_health(&names)
        },
    }
}

// ── Certificates ───────────────────────────────────────────────────────

/// Days ahead an expiring certificate is reported.
pub const CERT_WARN_DAYS: u64 = 30;

/// One expiring certificate: `subject (expires date)`.
pub open spec fn cert_item(c: (Seq<char>, Seq<char>)) -> Seq<char> {
    c.0 + " (expires "@ + c.1 + ")"@
}

/// The warning for the certificates about to expire (subject and expiry
/// of each, `?` where missing): how many, and the first five.
pub open spec fn cert_line(certs: Seq<(Seq<char>, Seq<char>)>) -> Option<(Seq<char>, Seq<char>)> {
    if certs.len() == 0 {
        None
    } else {
        Some((
            "WARN"@,
            "housekeeping/cert_expiry: "@ + decimal(certs.len()) + " cert(s) in CurrentUser\\My expire within 30 days \u{2014} "@
                + join(
                certs.take(vstd::math::min(certs.len() as int, 5)).map_values(|c: (Seq<char>, Seq<char>)| cert_item(c)),
                "; "@,
            ),
        ))
    }
}

/// The warning for the certificates about to expire, if any.
pub fn cert_expiry_report(certs: &Vec<(String, String)>) -> (r: Option<(String, String)>)
    ensures
        match (r, cert_line(certs@.map_values(|c: (String, String)| (c.0@, c.1@)))) {
            (Some((l, m)), Some((ls, ms))) => l@ == ls && m@ == ms,
            (None, None) => true,
            _ => false,
        },
{
    let ghost cv = certs@.map_values(|c: (String, String)| (c.0@, c.1@));
    if certs.len() == 0 {
        return None;
    }
    let n = if certs.len() < 5 { certs.len() } else { 5 };
    let mut items: Vec<String> = Vec::new();
    let mut i: usize = 0;
    while i < n
        invariant
            i <= n,
            n <= certs.len(),
            cv == certs@.map_values(|c: (String, String)| (c.0@, c.1@)),
            views(items@) == cv.take(i as int).map_values(|c: (Seq<char>, Seq<char>)| cert_item(c)),
        decreases n - i,
    {
        let mut s = certs[i].0.clone();
        append(&mut s, " (expires ");
        append(&mut s, certs[i].1.as_str());
        append(&mut s, ")");
        assert(cv[i as int] == (certs@[i as int].0@, certs@[i as int].1@));
        let ghost before = views(items@);
        items.push(s);
        assert(views(items@) =~= before.push(cert_item(cv[i as int])));
        assert(cv.take(i + 1).map_values(|c: (Seq<char>, Seq<char>)| cert_item(c))
            =~= cv.take(i as int).map_values(|c: (Seq<char>, Seq<char>)| cert_item(c)).push(cert_item(cv[i as int])));
        i += 1;
    }
    let mut m = String::from_str("housekeeping/cert_expiry: ");
    append(&mut m, dec(certs.len() as u64).as_str());
    append(&mut m, " cert(s) in CurrentUser\\My expire within 30 days \u{2014} ");
    append(&mut m, join_strings(&items, "; ").as_str());
    Some((String::from_str("WARN"), m))
}

/// What `serde_json` reads from a certificate listing: `None` when it is
/// not JSON; else the items (the array's elements, or the one value when
/// it is not an array), each with its `Subject` and `NotAfter` when they
/// are strings.
pub uninterp spec fn json_cert_fields(text: Seq<char>) -> Option<Seq<(Option<Seq<char>>, Option<Seq<char>>)>>;

/// The views of pairs of optional strings.
pub open spec fn opt_pair_views(v: Seq<(Option<String>, Option<String>)>) -> Seq<(Option<Seq<char>>, Option<Seq<char>>)> {
    v.map_values(|p: (Option<String>, Option<String>)| (
        match p.0 {
            Some(s) => Some(s@),
            None => None,
        },
        match p.1 {
            Some(s) => Some(s@),
            None => None,
        },
    ))
}

/// `serde_json::from_str::<Value>`; an array's elements, or the single
/// value; for each, `get("Subject")` and `get("NotAfter")` with `as_str`.
#[verifier::external_body]
fn cert_fields_of(text: &str) -> (r: Option<Vec<(Option<String>, Option<String>)>>)
    ensures
        match r {
            None => json_cert_fields(text@) is None,
            Some(v) => json_cert_fields(text@) == Some(opt_pair_views(v@)),
        },
{
    serde_json::from_str::<serde_json::Value>(text).ok().map(|value| {
        let arr = match value {
            serde_json::Value::Array(a) => a,
            other => vec![other],
        };
        arr.iter().map(|c| (
            c.get("Subject").and_then(|v| v.as_str()).map(|s| s.to_string()),
            c.get("NotAfter").and_then(|v| v.as_str()).map(|s| s.to_string()),
        )).collect()
    })
}

/// A field's text, `?` when missing.
pub open spec fn or_question(f: Option<Seq<char>>) -> Seq<char> {
    match f {
        Some(s) => s,
        None => "?"@,
    }
}

/// The certificates a PowerShell listing names (subject and expiry, `?`
/// where missing): none when the command failed, printed nothing or
/// `null`, or printed no JSON.
pub open spec fn cert_listing_spec(stdout: Seq<char>, ok: bool) -> Option<Seq<(Seq<char>, Seq<char>)>> {
    let t = trim(stdout);
    if !ok || t.len() == 0 || t == "null"@ {
        None
    } else {
        match json_cert_fields(t) {
            None => None,
            Some(items) => Some(
                items.map_values(|p: (Option<Seq<char>>, Option<Seq<char>>)| (or_question(p.0), or_question(p.1))),
            ),
        }
    }
}

/// The warning for a PowerShell listing of expiring certificates, if any.
pub fn cert_expiry_tick(stdout: &str, ok: bool) -> (r: Option<(String, String)>)
    ensures
        match cert_listing_spec(stdout@, ok) {
            None => r is None,
            Some(certs) => match (r, cert_line(certs)) {
                (Some((l, m)), Some((ls, ms))) => l@ == ls && m@ == ms,
                (None, None) => true,
                _ => false,
            },
        },
{
    if !ok {
        return None;
    }
    let t = crate::text::trim_str(stdout);
    let tv = chars_of(t.as_str());
    if tv.len() == 0 || crate::text::same(&tv, &chars_of("null")) {
        return None;
    }
    match cert_fields_of(t.as_str()) {
        None => None,
        Some(items) => {
            let ghost iv = opt_pair_views(items@);
            let ghost want = iv.map_values(|p: (Option<Seq<char>>, Option<Seq<char>>)| (or_question(p.0), or_question(p.1)));
            let mut certs: Vec<(String, String)> = Vec::new();
            let mut i: usize = 0;
            while i < items.len()
                invariant
                    i <= items.len(),
                    iv == opt_pair_views(items@),
                    want == iv.map_values(|p: (Option<Seq<char>>, Option<Seq<char>>)| (or_question(p.0), or_question(p.1))),
                    certs@.map_values(|c: (String, String)| (c.0@, c.1@)) == want.take(i as int),
                decreases items.len() - i,
            {
                let subj = match &items[i].0 {
                    Some(s) => s.clone(),
                    None => String::from_str("?"),
                };
                let exp = match &items[i].1 {
                    Some(s) => s.clone(),
                    None => String::from_str("?"),
                };
                let ghost before = certs@.map_values(|c: (String, String)| (c.0@, c.1@));
                assert(want[i as int] == (subj@, exp@));
                certs.push((subj, exp));
                assert(certs@.map_values(|c: (String, String)| (c.0@, c.1@)) =~= before.push(want[i as int]));
                assert(want.take(i + 1) =~= want.take(i as int).push(want[i as int]));
                i += 1;
            }
            assert(want.take(items.len() as int) =~= want);
            cert_expiry_report(&certs)
        },
    }
}

// ── Laws ───────────────────────────────────────────────────────────────

/// The heartbeat warns only on the second miss in a row: a single failed
/// probe after a good one logs nothing, and a good probe always clears
/// the streak.
pub proof fn law_heartbeat_warns_after_two_misses(was_missing: bool, reachable: bool)
    ensures
        heartbeat_spec(false, false).1 is None,
        heartbeat_spec(true, false).1 matches Some((l, _)) && l == "WARN"@,
        !heartbeat_spec(was_missing, true).0,
        heartbeat_spec(was_missing, false).0,
{
}

/// Drift below five minutes either way is never logged, and drift of half
/// an hour or more either way is always an error.
pub proof fn law_drift_levels(delta: int)
    ensures
        -DRIFT_WARN_SECS < delta < DRIFT_WARN_SECS ==> drift_line(delta) is None,
        (delta >= DRIFT_CRIT_SECS || delta <= -DRIFT_CRIT_SECS) ==> (drift_line(delta) matches Some((l, _)) && l == "ERROR"@),
{
}

} // verus!
