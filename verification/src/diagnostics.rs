//! Self-diagnostics: how the checks' statuses add up to the report's, how
//! a database integrity answer is read, and the verdicts of the checks
//! that rest on counts alone.
use vstd::prelude::*;
use crate::text::{append, chars_of, contains, dec, decimal, has_sub, same, to_lowercase, unicode_lower, views};
use crate::digest::{signed_dec, signed_decimal};

verus! {

/// How bad a check's status is: `error` 3, `warning` 2, `unknown` 1,
/// anything else 0.
pub open spec fn severity(status: Seq<char>) -> nat {
    if status == "error"@ {
        3
    } else if status == "warning"@ {
        2
    } else if status == "unknown"@ {
        1
    } else {
        0
    }
}

/// The worst severity among the first `n` statuses.
pub open spec fn worst_upto(statuses: Seq<Seq<char>>, n: int) -> nat
    decreases n,
{
    if n <= 0 {
        0
    } else {
        let w = worst_upto(statuses, n - 1);
        let s = severity(statuses[n - 1]);
        if s > w { s } else { w }
    }
}

/// The status a severity stands for.
pub open spec fn status_of(sev: nat) -> Seq<char> {
    if sev == 3 {
        "error"@
    } else if sev == 2 {
        "warning"@
    } else if sev == 1 {
        "unknown"@
    } else {
        "ok"@
    }
}

fn severity_of(status: &str) -> (s: u8)
    ensures
        s as nat == severity(status@),
{
    let v = chars_of(status);
    if same(&v, &chars_of("error")) {
        3
    } else if same(&v, &chars_of("warning")) {
        2
    } else if same(&v, &chars_of("unknown")) {
        1
    } else {
        0
    }
}

/// The report's status: the worst status among its checks (`ok` when there
/// are none).
pub fn overall_status(statuses: &Vec<String>) -> (r: String)
    ensures
        r@ == status_of(worst_upto(views(statuses@), statuses.len() as int)),
{
    let ghost sv = views(statuses@);
    let mut worst: u8 = 0;
    let mut i: usize = 0;
    while i < statuses.len()
        invariant
            i <= statuses.len(),
            sv == views(statuses@),
            worst as nat == worst_upto(sv, i as int),
            worst <= 3,
        decreases statuses.len() - i,
    {
        let s = severity_of(statuses[i].as_str());
        assert(sv[i as int] == statuses@[i as int]@);
        if s > worst {
            worst = s;
        }
        i += 1;
    }
    let text = if worst == 3 {
        "error"
    } else if worst == 2 {
        "warning"
    } else if worst == 1 {
        "unknown"
    } else {
        "ok"
    };
    String::from_str(text)
}

/// How a database integrity answer reads.
#[derive(Clone, Copy, Debug, PartialEq, Eq)]
pub enum Integrity {
    /// `ok`.
    Sound,
    /// The check could not run because the database was busy.
    Busy,
    /// Anything else: corruption.
    Damaged,
}

/// An integrity answer other than `ok` that only says the database was
/// locked (or the query failed) is transient, not corruption.
pub open spec fn looks_locked(answer: Seq<char>) -> bool {
    contains(unicode_lower(answer), "locked"@) || contains(unicode_lower(answer), "query error"@)
}

/// Reads a `PRAGMA quick_check` answer.
pub fn integrity_kind(answer: &str) -> (k: Integrity)
    ensures
        k == (if answer@ == "ok"@ {
            Integrity::Sound
        } else if looks_locked(answer@) {
            Integrity::Busy
        } else {
            Integrity::Damaged
        }),
{
    if same(&chars_of(answer), &chars_of("ok")) {
        return Integrity::Sound;
    }
    let lower = chars_of(to_lowercase(answer).as_str());
    if has_sub(&lower, &chars_of("locked")) || has_sub(&lower, &chars_of("query error")) {
        Integrity::Busy
    } else {
        Integrity::Damaged
    }
}

/// Whether a failed integrity answer is worth one retry: it mentions a
/// lock or a failed query.
pub fn is_transient_lock(answer: &str) -> (b: bool)
    ensures
        b == (contains(unicode_lower(answer@), "database is locked"@) || contains(unicode_lower(answer@), "is locked"@)
            || contains(unicode_lower(answer@), "query error"@)),
{
    let lower = chars_of(to_lowercase(answer).as_str());
    has_sub(&lower, &chars_of("database is locked")) || has_sub(&lower, &chars_of("is locked")) || has_sub(
        &lower,
        &chars_of("query error"),
    )
}

// ── Laws ───────────────────────────────────────────────────────────────

proof fn lemma_worst_bounds(statuses: Seq<Seq<char>>, n: int)
    ensures
        worst_upto(statuses, n) <= 3,
        forall|i: int| 0 <= i < n ==> severity(#[trigger] statuses[i]) <= worst_upto(statuses, n),
        n > 0 ==> exists|i: int| 0 <= i < n && severity(#[trigger] statuses[i]) == worst_upto(statuses, n),
    decreases n,
{
    if n > 0 {
        lemma_worst_bounds(statuses, n - 1);
        if n - 1 > 0 {
            let j = choose|i: int| 0 <= i < n - 1 && severity(#[trigger] statuses[i]) == worst_upto(statuses, n - 1);
            assert(0 <= j < n);
        }
        assert(severity(statuses[n - 1]) <= worst_upto(statuses, n));
    }
}

// ── Check verdicts from counts ─────────────────────────────────────────

/// The memory pipeline check from its counts: a warning past a hundred
/// expired memories awaiting cleanup; the message lists the counts and
/// the expired ones when there are any.
pub open spec fn memory_pipeline_spec(memories: int, crystals: int, insights: int, expired: int) -> (Seq<char>, Seq<char>) {
    (
        if expired > 100 { "warning"@ } else { "ok"@ },
        signed_decimal(memories) + " active memories, "@ + signed_decimal(crystals) + " crystals, "@ + signed_decimal(insights)
            + " insights"@ + (if expired > 0 {
            " ("@ + signed_decimal(expired) + " expired pending cleanup)"@
        } else {
            Seq::empty()
        }),
    )
}

/// Status and message of the memory pipeline check.
pub fn memory_pipeline_verdict(memories: i64, crystals: i64, insights: i64, expired: i64) -> (r: (String, String))
    ensures
        (r.0@, r.1@) == memory_pipeline_spec(memories as int, crystals as int, insights as int, expired as int),
{
    let status = if expired > 100 { String::from_str("warning") } else { String::from_str("ok") };
    let mut m = signed_dec(memories);
    append(&mut m, " active memories, ");
    append(&mut m, signed_dec(crystals).as_str());
    append(&mut m, " crystals, ");
    append(&mut m, signed_dec(insights).as_str());
    append(&mut m, " insights");
    if expired > 0 {
        append(&mut m, " (");
        append(&mut m, signed_dec(expired).as_str());
        append(&mut m, " expired pending cleanup)");
    }
    (status, m)
}

/// The streaming-sessions check: a warning past twenty open sessions.
pub open spec fn stream_sessions_spec(active: nat) -> (Seq<char>, Seq<char>) {
    (if active > 20 { "warning"@ } else { "ok"@ }, decimal(active) + " active streaming session(s)"@)
}

/// Status and message of the streaming-sessions check.
pub fn stream_sessions_verdict(active: u64) -> (r: (String, String))
    ensures
        (r.0@, r.1@) == stream_sessions_spec(active as nat),
{
    let status = if active > 20 { String::from_str("warning") } else { String::from_str("ok") };
    let mut m = dec(active);
    append(&mut m, " active streaming session(s)");
    (status, m)
}

/// The report is as bad as its worst check: no check is worse than the
/// report's status, and (when there are checks) some check is exactly as
/// bad.
pub proof fn law_overall_is_worst_check(statuses: Seq<Seq<char>>)
    ensures
        forall|i: int| 0 <= i < statuses.len() ==> severity(#[trigger] statuses[i]) <= severity(
            status_of(worst_upto(statuses, statuses.len() as int)),
        ),
        statuses.len() > 0 ==> exists|i: int| 0 <= i < statuses.len() && severity(#[trigger] statuses[i]) == severity(
            status_of(worst_upto(statuses, statuses.len() as int)),
        ),
{
    reveal_strlit("error");
    reveal_strlit("warning");
    reveal_strlit("unknown");
    reveal_strlit("ok");
    assert("error"@.len() == 5 && "warning"@.len() == 7 && "unknown"@.len() == 7 && "ok"@.len() == 2);
    assert("warning"@[0] != "unknown"@[0]);
    lemma_worst_bounds(statuses, statuses.len() as int);
    let w = worst_upto(statuses, statuses.len() as int);
    assert(severity(status_of(w)) == w);
}

} // verus!
