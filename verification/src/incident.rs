//! Incident response: the phase state machine of an investigation, the
//! arguments of its commands, and the validity score of its hypotheses.
//!
//! Phases: extract → plan → investigate → diagnose → report → done, with
//! reroutes back to plan and a bail-out to done from anywhere.
use vstd::prelude::*;
use crate::text::{chars_of, same, copy_str, append, views, concat, join, hex_char};

verus! {

// ── Phases ─────────────────────────────────────────────────────────────

/// The moves the state machine allows.
pub open spec fn transition_ok(from: Seq<char>, to: Seq<char>) -> bool {
    ||| from == "extract"@ && to == "plan"@
    ||| from == "plan"@ && to == "investigate"@
    ||| from == "investigate"@ && to == "diagnose"@
    ||| from == "investigate"@ && to == "plan"@
    ||| from == "diagnose"@ && to == "report"@
    ||| from == "diagnose"@ && to == "plan"@
    ||| from == "report"@ && to == "done"@
    ||| to == "done"@
}

fn is_lit(v: &Vec<char>, lit: &str) -> (b: bool)
    ensures
        b == (v@ == lit@),
{
    same(v, &chars_of(lit))
}

/// Whether an incident may move from phase `from` to phase `to`: forward
/// one step, back to plan from investigate or diagnose, or to done from
/// anywhere.
pub fn valid_transition(from: &str, to: &str) -> (b: bool)
    ensures
        b == transition_ok(from@, to@),
{
    let f = chars_of(from);
    let t = chars_of(to);
    (is_lit(&f, "extract") && is_lit(&t, "plan"))
        || (is_lit(&f, "plan") && is_lit(&t, "investigate"))
        || (is_lit(&f, "investigate") && is_lit(&t, "diagnose"))
        || (is_lit(&f, "investigate") && is_lit(&t, "plan"))
        || (is_lit(&f, "diagnose") && is_lit(&t, "report"))
        || (is_lit(&f, "diagnose") && is_lit(&t, "plan"))
        || (is_lit(&f, "report") && is_lit(&t, "done"))
        || is_lit(&t, "done")
}

/// The refusal of an illegal move.
pub open spec fn illegal_move(from: Seq<char>, to: Seq<char>) -> Seq<char> {
    "Illegal phase transition: "@ + from + " \u{2192} "@ + to
}

/// A move to plan from anywhere but extract is a reroute.
pub open spec fn is_reroute(from: Seq<char>, to: Seq<char>) -> bool {
    to == "plan"@ && from != "extract"@
}

/// Checks a phase move: the loop-counter increment it brings (1 for a
/// reroute, else 0), or the refusal.
pub fn advance_phase(current: &str, to_phase: &str) -> (r: Result<i64, String>)
    ensures
        r is Ok <==> transition_ok(current@, to_phase@),
        r matches Ok(n) ==> n == (if is_reroute(current@, to_phase@) { 1int } else { 0int }),
        r matches Err(e) ==> e@ == illegal_move(current@, to_phase@),
{
    if !valid_transition(current, to_phase) {
        let mut e = String::from_str("Illegal phase transition: ");
        append(&mut e, current);
        append(&mut e, " \u{2192} ");
        append(&mut e, to_phase);
        return Err(e);
    }
    let c = chars_of(current);
    let t = chars_of(to_phase);
    if is_lit(&t, "plan") && !is_lit(&c, "extract") {
        Ok(1)
    } else {
        Ok(0)
    }
}

// ── Command arguments ──────────────────────────────────────────────────

/// What opening an incident takes.
#[derive(Clone, Debug)]
pub struct StartIncidentArgs {
    pub shell_id: String,
    pub host_name: String,
    pub title: String,
    pub description: String,
    pub max_loops: Option<u32>,
}

impl StartIncidentArgs {
    /// How many reroutes the investigation may take (five unless given).
    pub fn loop_cap(&self) -> (n: u32)
        ensures
            n == (match self.max_loops {
                Some(m) => m,
                None => 5,
            }),
    {
        match self.max_loops {
            Some(m) => m,
            None => 5,
        }
    }
}

/// What recording a piece of evidence takes.
#[derive(Clone, Debug)]
pub struct AddEvidenceArgs {
    pub incident_id: String,
    /// `command_output`, `log`, `metric`, `user_input`, `observation` or
    /// `hypothesis_test`.
    pub kind: String,
    pub source: String,
    pub content: String,
    pub tags: Option<Vec<String>>,
}

/// Evidence beyond this many bytes is cut.
pub const MAX_EVIDENCE_BYTES: usize = 65536;

/// The content stored for a piece of evidence: as given, or its longest
/// prefix within 64 KiB (cut at the last character boundary at or below
/// 65536 bytes) followed by a note that it was cut.
pub open spec fn stored_content(content: Seq<char>) -> Seq<char> {
    if vstd::utf8::encode_utf8(content).len() > MAX_EVIDENCE_BYTES {
        crate::log_analysis::utf8_prefix(content, MAX_EVIDENCE_BYTES as int) + "\n\n[...truncated for storage]"@
    } else {
        content
    }
}

/// One character inside a JSON string as `serde_json` writes it: `"` and
/// `\` escaped by a backslash, backspace, form feed, line feed, carriage
/// return and tab by their short escapes, other control characters below
/// U+0020 as `\u00` and two lowercase hex digits, anything else as is.
pub open spec fn json_escaped_char(c: char) -> Seq<char> {
    if c == '"' {
        seq!['\\', '"']
    } else if c == '\\' {
        seq!['\\', '\\']
    } else if c == '\u{8}' {
        seq!['\\', 'b']
    } else if c == '\u{c}' {
        seq!['\\', 'f']
    } else if c == '\n' {
        seq!['\\', 'n']
    } else if c == '\r' {
        seq!['\\', 'r']
    } else if c == '\t' {
        seq!['\\', 't']
    } else if (c as u32) < 32 {
        seq!['\\', 'u', '0', '0', hex_char((c as u32 / 16) as nat), hex_char((c as u32 % 16) as nat)]
    } else {
        seq![c]
    }
}

/// A JSON string literal for `s`.
pub open spec fn json_string(s: Seq<char>) -> Seq<char> {
    seq!['"'] + concat(s.map_values(|c: char| json_escaped_char(c))) + seq!['"']
}

/// What `serde_json::to_string` gives for a list of strings: the JSON
/// array of their literals, comma-separated, with no spaces.
pub open spec fn json_string_list(items: Seq<Seq<char>>) -> Seq<char> {
    seq!['['] + join(items.map_values(|s: Seq<char>| json_string(s)), seq![',']) + seq![']']
}

/// `serde_json::to_string` of a list of strings (a JSON array); `[]` if it
/// fails, which it does not for strings.
#[verifier::external_body]
pub(crate) fn to_json_list(items: &Vec<String>) -> (s: String)
    ensures
        s@ == json_string_list(views(items@)),
{
    serde_json::to_string(items).unwrap_or_else(|_| "[]".to_string())
}

impl AddEvidenceArgs {
    /// The content to store, cut to at most 64 KiB when longer, at a
    /// character boundary.
    pub fn stored_content(&self) -> (c: String)
        ensures
            c@ == stored_content(self.content@),
    {
        let t = self.content.as_str();
        if t.as_bytes().len() > MAX_EVIDENCE_BYTES {
            let mut c = crate::log_analysis::truncate_utf8(t, MAX_EVIDENCE_BYTES);
            append(&mut c, "\n\n[...truncated for storage]");
            c
        } else {
            copy_str(t)
        }
    }

    /// The tags as a JSON array (none: `[]`).
    pub fn tags_json(&self) -> (s: String)
        ensures
            s@ == json_string_list(match self.tags {
                Some(t) => views(t@),
                None => Seq::empty(),
            }),
    {
        match &self.tags {
            Some(t) => to_json_list(t),
            None => {
                let empty: Vec<String> = Vec::new();
                assert(views(empty@) =~= Seq::<Seq<char>>::empty());
                to_json_list(&empty)
            },
        }
    }
}

/// What logging an action takes.
#[derive(Clone, Debug)]
pub struct LogActionArgs {
    pub incident_id: String,
    pub rationale: String,
    pub command: String,
    pub output_evidence_id: Option<String>,
}

/// What closing an incident takes.
#[derive(Clone, Debug)]
pub struct FinalizeArgs {
    pub incident_id: String,
    pub summary: String,
    pub root_cause: String,
    /// `resolved` (the default) or `abandoned`.
    pub status: Option<String>,
}

/// What `format!("{:?}", s)` gives for a string: it quoted, with escapes.
pub uninterp spec fn debug_quoted(s: Seq<char>) -> Seq<char>;

/// `<str as Debug>::fmt`: the string in double quotes with escapes.
#[verifier::external_body]
fn debug_of(s: &str) -> (r: String)
    ensures
        r@ == debug_quoted(s@),
{
    format!("{:?}", s)
}

impl FinalizeArgs {
    /// The closing status: `resolved` unless given; anything but
    /// `resolved` or `abandoned` is refused.
    pub fn closing_status(&self) -> (r: Result<String, String>)
        ensures
            ({
                let st = match self.status {
                    Some(s) => s@,
                    None => "resolved"@,
                };
                &&& (r is Ok <==> (st == "resolved"@ || st == "abandoned"@))
                &&& (r matches Ok(s) ==> s@ == st)
                &&& (r matches Err(e) ==> e@ == "invalid status "@ + debug_quoted(st))
            }),
    {
        let st = match &self.status {
            Some(s) => s.clone(),
            None => String::from_str("resolved"),
        };
        let v = chars_of(st.as_str());
        if is_lit(&v, "resolved") || is_lit(&v, "abandoned") {
            Ok(st)
        } else {
            let mut e = String::from_str("invalid status ");
            append(&mut e, debug_of(st.as_str()).as_str());
            Err(e)
        }
    }
}

// ── Validity score ─────────────────────────────────────────────────────

/// What `serde_json::from_str::<Vec<String>>` gives.
pub uninterp spec fn json_strings(text: Seq<char>) -> Option<Seq<Seq<char>>>;

/// `serde_json::from_str::<Vec<String>>`.
#[verifier::external_body]
pub(crate) fn parse_json_list(text: &str) -> (r: Option<Vec<String>>)
    ensures
        match r {
            Some(v) => json_strings(text@) == Some(views(v@)),
            None => json_strings(text@) is None,
        },
{
    serde_json::from_str::<Vec<String>>(text).ok()
}

/// The weight of a hypothesis status, in quarters: validated 4 (weight
/// 1.0), proposed 2 (0.5), anything else 0.
pub open spec fn status_quarters(status: Seq<char>) -> nat {
    if status == "validated"@ {
        4
    } else if status == "proposed"@ {
        2
    } else {
        0
    }
}

/// The credit of one hypothesis, in eighths: evidence coverage (half per
/// supporting piece, at most whole) times the status weight.
pub open spec fn hypothesis_eighths(supporting: nat, status: Seq<char>) -> nat {
    (if supporting >= 2 { 2nat } else { supporting }) * status_quarters(status)
}

/// The number of supporting pieces a stored list names (none when the
/// list does not parse).
pub open spec fn supporting_count(json: Seq<char>) -> nat {
    match json_strings(json) {
        Some(v) => v.len(),
        None => 0,
    }
}

/// The summed credit, in eighths, of the first `n` hypotheses
/// (supporting evidence as stored JSON, status).
pub open spec fn credit_upto(h: Seq<(Seq<char>, Seq<char>)>, n: int) -> nat
    decreases n,
{
    if n <= 0 {
        0
    } else {
        credit_upto(h, n - 1) + hypothesis_eighths(supporting_count(h[n - 1].0), h[n - 1].1)
    }
}

/// The summed credit of the hypotheses, in eighths; the validity score is
/// this over eight times their number (0 with none).
pub fn validity_credit(hypotheses: &Vec<(String, String)>) -> (c: u64)
    requires
        hypotheses.len() <= u64::MAX / 8,
    ensures
        c == credit_upto(hypotheses@.map_values(|h: (String, String)| (h.0@, h.1@)), hypotheses.len() as int),
        c <= 8 * hypotheses.len(),
{
    let ghost hv = hypotheses@.map_values(|h: (String, String)| (h.0@, h.1@));
    let mut total: u64 = 0;
    let mut i: usize = 0;
    while i < hypotheses.len()
        invariant
            hv == hypotheses@.map_values(|h: (String, String)| (h.0@, h.1@)),
            hypotheses.len() <= u64::MAX / 8,
            i <= hypotheses.len(),
            total == credit_upto(hv, i as int),
            total <= 8 * i,
        decreases hypotheses.len() - i,
    {
        let h = &hypotheses[i];
        assert(hv[i as int] == (h.0@, h.1@));
        let n: u64 = match parse_json_list(h.0.as_str()) {
            Some(v) => if v.len() >= 2 { 2 } else { v.len() as u64 },
            None => 0,
        };
        let sv = chars_of(h.1.as_str());
        let q: u64 = if is_lit(&sv, "validated") {
            4
        } else if is_lit(&sv, "proposed") {
            2
        } else {
            0
        };
        assert(n * q == hypothesis_eighths(supporting_count(hv[i as int].0), hv[i as int].1)) by (nonlinear_arith)
            requires
                n == (if supporting_count(hv[i as int].0) >= 2 { 2nat } else { supporting_count(hv[i as int].0) }),
                q == status_quarters(hv[i as int].1),
                hypothesis_eighths(supporting_count(hv[i as int].0), hv[i as int].1)
                    == (if supporting_count(hv[i as int].0) >= 2 { 2nat } else { supporting_count(hv[i as int].0) }) * status_quarters(hv[i as int].1),
        ;
        assert(n * q <= 8) by (nonlinear_arith)
            requires
                n <= 2,
                q <= 4,
        ;
        total = total + n * q;
        i += 1;
    }
    total
}

// ── Laws of the phase machine ──────────────────────────────────────────

/// The phase names are all different.
proof fn lemma_phase_names_distinct()
    ensures
        "extract"@ != "plan"@,
        "extract"@ != "investigate"@,
        "extract"@ != "diagnose"@,
        "extract"@ != "report"@,
        "extract"@ != "done"@,
        "plan"@ != "investigate"@,
        "plan"@ != "diagnose"@,
        "plan"@ != "report"@,
        "plan"@ != "done"@,
        "investigate"@ != "diagnose"@,
        "investigate"@ != "report"@,
        "investigate"@ != "done"@,
        "diagnose"@ != "report"@,
        "diagnose"@ != "done"@,
        "report"@ != "done"@,
{
    reveal_strlit("extract");
    reveal_strlit("plan");
    reveal_strlit("investigate");
    reveal_strlit("diagnose");
    reveal_strlit("report");
    reveal_strlit("done");
    assert("extract"@.len() == 7);
    assert("plan"@.len() == 4);
    assert("investigate"@.len() == 11);
    assert("diagnose"@.len() == 8);
    assert("report"@.len() == 6);
    assert("done"@.len() == 4);
    assert("plan"@[0] != "done"@[0]);
}


/// The position of a phase in the investigation.
pub open spec fn phase_rank(p: Seq<char>) -> int {
    if p == "extract"@ {
        0
    } else if p == "plan"@ {
        1
    } else if p == "investigate"@ {
        2
    } else if p == "diagnose"@ {
        3
    } else if p == "report"@ {
        4
    } else if p == "done"@ {
        5
    } else {
        -1
    }
}

/// No phase is skipped: a move that is neither a reroute to plan nor a
/// bail-out to done goes exactly one phase forward.
pub proof fn law_no_phase_is_skipped(from: Seq<char>, to: Seq<char>)
    requires
        transition_ok(from, to),
        to != "plan"@,
        to != "done"@,
    ensures
        phase_rank(to) == phase_rank(from) + 1,
{
    reveal_strlit("extract");
    reveal_strlit("plan");
    reveal_strlit("investigate");
    reveal_strlit("diagnose");
    reveal_strlit("report");
    reveal_strlit("done");
    lemma_phase_names_distinct();
}

/// Done is final: from done the only move is to done again.
pub proof fn law_done_is_final(to: Seq<char>)
    ensures
        transition_ok("done"@, to) <==> to == "done"@,
{
    reveal_strlit("extract");
    reveal_strlit("plan");
    reveal_strlit("investigate");
    reveal_strlit("diagnose");
    reveal_strlit("report");
    reveal_strlit("done");
    lemma_phase_names_distinct();
}

/// An investigation can always be abandoned: every phase may move to done.
pub proof fn law_bail_out_always_allowed(from: Seq<char>)
    ensures
        transition_ok(from, "done"@),
{
}

/// The loop counter only grows on reroutes, and reroutes only come from
/// investigate and diagnose.
pub proof fn law_reroutes_come_from_investigation(from: Seq<char>, to: Seq<char>)
    requires
        transition_ok(from, to),
        is_reroute(from, to),
    ensures
        from == "investigate"@ || from == "diagnose"@,
{
    reveal_strlit("extract");
    reveal_strlit("plan");
    reveal_strlit("investigate");
    reveal_strlit("diagnose");
    reveal_strlit("report");
    reveal_strlit("done");
    lemma_phase_names_distinct();
}

/// The instructions given to the assistant in each phase.
pub open spec fn phase_prompt_spec(phase: Seq<char>) -> Seq<char> {
    if phase == "extract"@ {
        EXTRACT_PROMPT@
    } else if phase == "plan"@ {
        PLAN_PROMPT@
    } else if phase == "investigate"@ {
        INVESTIGATE_PROMPT@
    } else if phase == "diagnose"@ {
        DIAGNOSE_PROMPT@
    } else if phase == "report"@ {
        REPORT_PROMPT@
    } else {
        DEFAULT_PROMPT@
    }
}

/// The instructions for a phase.
pub fn incident_phase_prompt(phase: &str) -> (p: String)
    ensures
        p@ == phase_prompt_spec(phase@),
{
    let v = chars_of(phase);
    let text = if is_lit(&v, "extract") {
        EXTRACT_PROMPT
    } else if is_lit(&v, "plan") {
        PLAN_PROMPT
    } else if is_lit(&v, "investigate") {
        INVESTIGATE_PROMPT
    } else if is_lit(&v, "diagnose") {
        DIAGNOSE_PROMPT
    } else if is_lit(&v, "report") {
        REPORT_PROMPT
    } else {
        DEFAULT_PROMPT
    };
    copy_str(text)
}

pub const EXTRACT_PROMPT: &'static str = "You are in INCIDENT MODE \u{2014} EXTRACT phase.

Goal: understand the alert/issue the user reported. Do NOT start executing
commands yet. Extract structured fields from their description:
  - affected service or component
  - observed symptom (what is wrong)
  - when it started / trigger if known
  - severity (informational / degraded / outage)
  - any preliminary hypotheses the user already hinted at

Respond with a brief confirmation summarizing what you understood in 3-5
bullet points. End with: \"Ready to plan investigation? (yes/no)\"
";

pub const PLAN_PROMPT: &'static str = "You are in INCIDENT MODE \u{2014} PLAN phase.

Goal: propose the next 2-4 diagnostic commands/queries to gather evidence.
Each step must declare:
  - RATIONALE: why this specific command, what signal it produces
  - COMMAND: the exact command, wrapped in <EXECUTE></EXECUTE>
  - EXPECTED: what outputs would be informative vs. noise

Order by information-gain-per-cost: cheap signals first, expensive ones
(full log dumps, long traces) last. Stop at 4 steps \u{2014} more can be planned
in the next loop if current evidence is inconclusive.
";

pub const INVESTIGATE_PROMPT: &'static str = "You are in INCIDENT MODE \u{2014} INVESTIGATE phase.

You are executing the plan and observing outputs. Each command result is
captured as EVIDENCE and you can reference it by id. For every observation,
TAG it with the hypothesis it supports or contradicts.

Guidelines:
  - Do NOT draw conclusions yet \u{2014} you are collecting, not concluding.
  - If an unexpected signal appears, note it; may warrant a reroute to PLAN.
  - Stop and request diagnose when you have enough evidence for at least
    one testable hypothesis backed by \u{2265}2 independent pieces of evidence.
";

pub const DIAGNOSE_PROMPT: &'static str = "You are in INCIDENT MODE \u{2014} DIAGNOSE phase.

Formulate hypotheses about the root cause. For EACH hypothesis:
  - Write the claim in one sentence.
  - List the evidence IDs that SUPPORT it.
  - List evidence IDs that CONTRADICT it (if any).
  - Assign confidence 0.0\u{2013}1.0.

Propose via structured output:
  <HYPOTHESIS>
    claim: \"...\"
    supporting: [ev-id-1, ev-id-2]
    contradicting: [ev-id-3]
    confidence: 0.8
  </HYPOTHESIS>

If no hypothesis reaches confidence > 0.6 with \u{2265}2 supporting evidences,
REQUEST REROUTE TO PLAN. Do not fabricate support \u{2014} intellectual honesty
beats a plausible-sounding wrong answer.
";

pub const REPORT_PROMPT: &'static str = "You are in INCIDENT MODE \u{2014} REPORT phase.

Produce the post-mortem. Structure:

  ## Root Cause
  One-sentence root cause, stated plainly.

  ## Evidence Chain
  Numbered list: evidence-id \u{2192} observation \u{2192} implication.

  ## Remediation
  What was done, what the user should do next, and any monitoring to set up
  to catch the same issue earlier next time.

  ## Runbook seed
  If this class of incident is likely to recur, propose a compact runbook:
  triggers, evidence to gather, decision tree, actions. This seed can be
  promoted to a reusable skill.

No speculation beyond what evidence supports. If confidence is low, say so.
";

pub const DEFAULT_PROMPT: &'static str = "Incident mode \u{2014} phase unknown. Await next instruction.";


/// Credit over the first `n` hypotheses does not see later ones.
proof fn lemma_credit_prefix(h: Seq<(Seq<char>, Seq<char>)>, x: (Seq<char>, Seq<char>), n: int)
    requires
        0 <= n <= h.len(),
    ensures
        credit_upto(h.push(x), n) == credit_upto(h, n),
    decreases n,
{
    if n > 0 {
        lemma_credit_prefix(h, x, n - 1);
        assert(h.push(x)[n - 1] == h[n - 1]);
    }
}

/// One more hypothesis adds, in eighths, its evidence coverage (one per
/// supporting piece, at most two) times 4 when validated, times 2 when
/// proposed, and nothing in any other status (refuted, inconclusive, ...),
/// whatever its evidence.
pub proof fn law_hypothesis_credit(h: Seq<(Seq<char>, Seq<char>)>, evidence: Seq<char>, status: Seq<char>)
    ensures
        ({
            let n = supporting_count(evidence);
            let cover: nat = if n >= 2 { 2 } else { n };
            let before = credit_upto(h, h.len() as int);
            let after = credit_upto(h.push((evidence, status)), h.len() as int + 1);
            &&& status == "validated"@ ==> after == before + 4 * cover
            &&& status == "proposed"@ ==> after == before + 2 * cover
            &&& status != "validated"@ && status != "proposed"@ ==> after == before
        }),
{
    let x = (evidence, status);
    lemma_credit_prefix(h, x, h.len() as int);
    assert(h.push(x)[h.len() as int] == x);
    let n = supporting_count(evidence);
    let cover: nat = if n >= 2 { 2 } else { n };
    let hp = h.push(x);
    assert(credit_upto(hp, h.len() as int + 1)
        == credit_upto(hp, h.len() as int) + hypothesis_eighths(supporting_count(hp[h.len() as int].0), hp[h.len() as int].1));
    assert(hypothesis_eighths(n, status) == cover * status_quarters(status));
    reveal_strlit("validated");
    reveal_strlit("proposed");
    assert("validated"@[0] != "proposed"@[0]);
    assert(cover * 4 == 4 * cover && cover * 2 == 2 * cover && cover * 0 == 0) by (nonlinear_arith);
}

} // verus!
