//! SHA-256 chain over the actions of an incident.
//!
//! ```text
//! chain_hash[0] = sha256("GENESIS"       || id || command || executed_at)
//! chain_hash[N] = sha256(chain_hash[N-1] || id || command || executed_at)
//! ```
//!
//! Verification recomputes each row's hash from the hash stored in the row
//! before it and compares. A row that breaks is reported, and the walk goes
//! on from the stored hash, so one bad row does not flag every later one.
use vstd::prelude::*;
use vstd::utf8::*;
use crate::digest::{sha256_hex, sha256_hex_of, push_utf8, signed_decimal, signed_dec};

verus! {

/// The hash of a row whose predecessor's hash is `prev`.
pub open spec fn chain_hash(prev: Seq<char>, id: Seq<char>, command: Seq<char>, executed_at: int) -> Seq<char> {
    sha256_hex(
        encode_utf8(prev) + encode_utf8(id) + encode_utf8(command) + encode_utf8(signed_decimal(executed_at)),
    )
}

/// Hex SHA-256 of `prev || id || command || executed_at` (decimal).
pub fn compute_chain_hash(prev: &str, id: &str, command: &str, executed_at: i64) -> (h: String)
    ensures
        h@ == chain_hash(prev@, id@, command@, executed_at as int),
        h@.len() == 64,
{
    let at = signed_dec(executed_at);
    let mut material: Vec<u8> = Vec::new();
    push_utf8(&mut material, prev);
    push_utf8(&mut material, id);
    push_utf8(&mut material, command);
    push_utf8(&mut material, at.as_str());
    sha256_hex_of(material.as_slice())
}

/// One stored action, as read in chronological order:
/// (id, command, executed_at, stored chain hash).
pub open spec fn row_views(rows: Seq<(String, String, i64, String)>) -> Seq<(Seq<char>, Seq<char>, i64, Seq<char>)> {
    rows.map_values(|r: (String, String, i64, String)| (r.0@, r.1@, r.2, r.3@))
}

/// The hash that row `i` is chained to.
pub open spec fn prev_of(r: Seq<(Seq<char>, Seq<char>, i64, Seq<char>)>, i: int) -> Seq<char> {
    if i == 0 {
        "GENESIS"@
    } else {
        r[i - 1].3
    }
}

/// The hash row `i` should carry.
pub open spec fn expected_at(r: Seq<(Seq<char>, Seq<char>, i64, Seq<char>)>, i: int) -> Seq<char> {
    chain_hash(prev_of(r, i), r[i].0, r[i].1, r[i].2 as int)
}

/// Row `i` carries the hash it should.
pub open spec fn row_ok(r: Seq<(Seq<char>, Seq<char>, i64, Seq<char>)>, i: int) -> bool {
    r[i].3 == expected_at(r, i)
}

/// What is reported of a row that breaks the chain:
/// (action id, 1-based position, stored hash, expected hash, reason).
pub open spec fn mismatch_at(r: Seq<(Seq<char>, Seq<char>, i64, Seq<char>)>, i: int) -> (Seq<char>, int, Seq<char>, Seq<char>, Seq<char>) {
    if r[i].3.len() == 0 {
        (r[i].0, i + 1, Seq::empty(), expected_at(r, i), "missing_hash"@)
    } else {
        (r[i].0, i + 1, r[i].3, expected_at(r, i), "algorithm_mismatch"@)
    }
}

/// The mismatches among the first `n` rows, in order.
pub open spec fn mismatches_upto(r: Seq<(Seq<char>, Seq<char>, i64, Seq<char>)>, n: int) -> Seq<(Seq<char>, int, Seq<char>, Seq<char>, Seq<char>)>
    decreases n,
{
    if n <= 0 {
        Seq::empty()
    } else if row_ok(r, n - 1) {
        mismatches_upto(r, n - 1)
    } else {
        mismatches_upto(r, n - 1).push(mismatch_at(r, n - 1))
    }
}

/// The number of rows among the first `n` that verify.
pub open spec fn ok_count(r: Seq<(Seq<char>, Seq<char>, i64, Seq<char>)>, n: int) -> nat
    decreases n,
{
    if n <= 0 {
        0
    } else if row_ok(r, n - 1) {
        ok_count(r, n - 1) + 1
    } else {
        ok_count(r, n - 1)
    }
}

/// Every row carries the hash it should.
pub open spec fn well_linked(r: Seq<(Seq<char>, Seq<char>, i64, Seq<char>)>) -> bool {
    forall|i: int| 0 <= i < r.len() ==> #[trigger] row_ok(r, i)
}

/// A row that breaks the chain.
#[derive(Clone, Debug)]
pub struct ChainMismatch {
    pub action_id: String,
    /// 1-based index in chronological order.
    pub position: i64,
    pub stored_hash: String,
    pub expected_hash: String,
    /// `missing_hash` or `algorithm_mismatch`.
    pub reason: String,
}

impl View for ChainMismatch {
    type V = (Seq<char>, int, Seq<char>, Seq<char>, Seq<char>);

    open spec fn view(&self) -> Self::V {
        (self.action_id@, self.position as int, self.stored_hash@, self.expected_hash@, self.reason@)
    }
}

/// The outcome of verifying one incident's chain.
#[derive(Clone, Debug)]
pub struct ChainVerifyReport {
    pub incident_id: String,
    pub total_actions: i64,
    pub verified_ok: i64,
    pub mismatches: Vec<ChainMismatch>,
    /// True when every row passed.
    pub fully_valid: bool,
}

/// The views of a list of mismatches.
pub open spec fn mismatch_views(v: Seq<ChainMismatch>) -> Seq<(Seq<char>, int, Seq<char>, Seq<char>, Seq<char>)> {
    v.map_values(|m: ChainMismatch| m@)
}

proof fn lemma_ok_count_bound(r: Seq<(Seq<char>, Seq<char>, i64, Seq<char>)>, n: int)
    requires
        n >= 0,
    ensures
        ok_count(r, n) <= n,
    decreases n,
{
    if n > 0 {
        lemma_ok_count_bound(r, n - 1);
    }
}

/// Walks `rows` (chronological) and checks each stored hash against the
/// one recomputed from the previous row's stored hash.
pub fn verify_chain(incident_id: &str, rows: &Vec<(String, String, i64, String)>) -> (report: ChainVerifyReport)
    requires
        rows.len() < i64::MAX,
    ensures
        report.incident_id@ == incident_id@,
        report.total_actions == rows.len(),
        report.verified_ok == ok_count(row_views(rows@), rows.len() as int),
        mismatch_views(report.mismatches@) == mismatches_upto(row_views(rows@), rows.len() as int),
        report.fully_valid == (mismatches_upto(row_views(rows@), rows.len() as int).len() == 0),
{
    let ghost r = row_views(rows@);
    let mut verified_ok: i64 = 0;
    let mut mismatches: Vec<ChainMismatch> = Vec::new();
    let mut fully_valid = true;
    let mut prev = String::from_str("GENESIS");
    let mut i: usize = 0;
    while i < rows.len()
        invariant
            r == row_views(rows@),
            rows.len() < i64::MAX,
            i <= rows.len(),
            prev@ == prev_of(r, i as int),
            verified_ok == ok_count(r, i as int),
            mismatch_views(mismatches@) == mismatches_upto(r, i as int),
            fully_valid == (mismatches_upto(r, i as int).len() == 0),
        decreases rows.len() - i,
    {
        let row = &rows[i];
        assert(r[i as int] == (row.0@, row.1@, row.2, row.3@));
        let expected = compute_chain_hash(prev.as_str(), row.0.as_str(), row.1.as_str(), row.2);
        let ghost before = mismatches@;
        proof {
            lemma_ok_count_bound(r, i as int);
        }
        if row.3.as_str().is_empty() {
            mismatches.push(ChainMismatch {
                action_id: row.0.clone(),
                position: (i + 1) as i64,
                stored_hash: String::new(),
                expected_hash: expected,
                reason: String::from_str("missing_hash"),
            });
            fully_valid = false;
            assert(mismatch_views(mismatches@) =~= mismatch_views(before).push(mismatch_at(r, i as int)));
        } else if row.3 != expected {
            mismatches.push(ChainMismatch {
                action_id: row.0.clone(),
                position: (i + 1) as i64,
                stored_hash: row.3.clone(),
                expected_hash: expected,
                reason: String::from_str("algorithm_mismatch"),
            });
            fully_valid = false;
            assert(mismatch_views(mismatches@) =~= mismatch_views(before).push(mismatch_at(r, i as int)));
        } else {
            verified_ok += 1;
        }
        prev = row.3.clone();
        i += 1;
    }
    ChainVerifyReport {
        incident_id: String::from_str(incident_id),
        total_actions: rows.len() as i64,
        verified_ok,
        mismatches,
        fully_valid,
    }
}

// ── Laws ───────────────────────────────────────────────────────────────

proof fn lemma_linked_prefix(r: Seq<(Seq<char>, Seq<char>, i64, Seq<char>)>, n: int)
    requires
        well_linked(r),
        0 <= n <= r.len(),
    ensures
        mismatches_upto(r, n).len() == 0,
        ok_count(r, n) == n,
    decreases n,
{
    if n > 0 {
        assert(row_ok(r, n - 1));
        lemma_linked_prefix(r, n - 1);
    }
}

/// A chain whose every row was written with `compute_chain_hash` from the
/// row before verifies fully: no mismatch, every row counted as verified.
pub proof fn law_written_chain_verifies(r: Seq<(Seq<char>, Seq<char>, i64, Seq<char>)>)
    requires
        well_linked(r),
    ensures
        mismatches_upto(r, r.len() as int).len() == 0,
        ok_count(r, r.len() as int) == r.len(),
{
    lemma_linked_prefix(r, r.len() as int);
}

/// Every row is either verified or reported, never both: the verified rows
/// and the mismatches add up to the number of rows.
pub proof fn law_rows_are_verified_or_reported(r: Seq<(Seq<char>, Seq<char>, i64, Seq<char>)>, n: int)
    requires
        0 <= n,
    ensures
        ok_count(r, n) + mismatches_upto(r, n).len() == n,
    decreases n,
{
    if n > 0 {
        law_rows_are_verified_or_reported(r, n - 1);
    }
}

/// Mismatches do not cascade: changing the command of row `j` (its stored
/// hash left as it was) changes the verdict on no other row.
pub proof fn law_tamper_is_local(
    r: Seq<(Seq<char>, Seq<char>, i64, Seq<char>)>,
    j: int,
    command: Seq<char>,
    i: int,
)
    requires
        0 <= j < r.len(),
        0 <= i < r.len(),
        i != j,
    ensures
        row_ok(r.update(j, (r[j].0, command, r[j].2, r[j].3)), i) == row_ok(r, i),
{
    let t = r.update(j, (r[j].0, command, r[j].2, r[j].3));
    assert(t[i] == r[i]);
    if i > 0 {
        assert(t[i - 1].3 == r[i - 1].3);
    }
    assert(prev_of(t, i) == prev_of(r, i));
}

/// Row `i` is among the mismatches reported for the first `n` rows.
pub open spec fn reported(r: Seq<(Seq<char>, Seq<char>, i64, Seq<char>)>, n: int, i: int) -> bool {
    exists|k: int| 0 <= k < mismatches_upto(r, n).len() && #[trigger] mismatches_upto(r, n)[k].1 == i + 1
}

/// The rows reported are exactly the rows that break the chain: each
/// mismatch names a broken row by its position, with reason
/// `missing_hash` when no hash was stored and `algorithm_mismatch`
/// otherwise, and every broken row is reported.
pub proof fn law_reported_rows_are_the_broken_ones(r: Seq<(Seq<char>, Seq<char>, i64, Seq<char>)>, n: int)
    requires
        0 <= n <= r.len(),
    ensures
        forall|k: int|
            0 <= k < mismatches_upto(r, n).len() ==> {
                let m = #[trigger] mismatches_upto(r, n)[k];
                &&& 1 <= m.1 <= n
                &&& !row_ok(r, m.1 - 1)
                &&& m == mismatch_at(r, m.1 - 1)
                &&& m.4 == (if r[m.1 - 1].3.len() == 0 { "missing_hash"@ } else { "algorithm_mismatch"@ })
            },
        forall|i: int| 0 <= i < n && !row_ok(r, i) ==> #[trigger] reported(r, n, i),
    decreases n,
{
    if n > 0 {
        law_reported_rows_are_the_broken_ones(r, n - 1);
        let prev = mismatches_upto(r, n - 1);
        let cur = mismatches_upto(r, n);
        assert forall|k: int| 0 <= k < cur.len() implies {
            let m = #[trigger] cur[k];
            &&& 1 <= m.1 <= n
            &&& !row_ok(r, m.1 - 1)
            &&& m == mismatch_at(r, m.1 - 1)
            &&& m.4 == (if r[m.1 - 1].3.len() == 0 { "missing_hash"@ } else { "algorithm_mismatch"@ })
        } by {
            if k < prev.len() {
                assert(cur[k] == prev[k]);
            } else {
                assert(cur[k] == mismatch_at(r, n - 1));
            }
        }
        assert forall|i: int| 0 <= i < n && !row_ok(r, i) implies #[trigger] reported(r, n, i) by {
            if i < n - 1 {
                assert(reported(r, n - 1, i));
                let k = choose|k: int| 0 <= k < prev.len() && #[trigger] prev[k].1 == i + 1;
                assert(cur[k] == prev[k]);
            } else {
                assert(cur[prev.len() as int] == mismatch_at(r, n - 1));
                assert(cur[prev.len() as int].1 == i + 1);
            }
        }
    }
}

} // verus!
