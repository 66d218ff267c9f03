//! Compact unified diff for tool cards.
//!
//! Line-oriented, two lines of context, capped at [`MAX_LINES`] output
//! lines. An empty old text is a fresh file (every line an addition), and
//! identical texts give `(no changes)`.
//!
//! The line diff itself comes from `similar`; this module renders the
//! grouped operations it hands back into the card's text and counts.
use vstd::prelude::*;
use crate::text::{
    chars_of, same, append, push_char, dec, digit_of, decimal, concat, views, lines, lines_of, cviews, string_of,
    copy_str, has_sub, join, join_strings, count_matches, match_count, replace_all_str, replace_first_str, replaced_all,
    replaced_first,
};
use crate::log_analysis::{truncate_utf8, utf8_prefix};

verus! {

/// Output lines shown before the diff is cut.
pub const MAX_LINES: usize = 200;
/// Unchanged lines shown around each change.
pub const CONTEXT_LINES: usize = 2;

/// The footer of a cut diff.
pub const DIFF_FOOTER: &'static str = "[diff truncated \u{2014} open the file to see full changes]\n";

/// The diff shown on a card.
#[derive(Clone, Debug)]
pub struct DiffResult {
    pub text: String,
    pub additions: usize,
    pub deletions: usize,
    pub truncated: bool,
}

// ── What `similar` hands back ──────────────────────────────────────────

/// A diff operation as plain values: a tag (0 equal, 1 delete, 2 insert,
/// 3 replace), then the old range `start..end` and the new range
/// `start..end`, in line indices.
pub open spec fn op_ok(op: (u8, usize, usize, usize, usize), n_old: nat, n_new: nat) -> bool {
    &&& op.0 < 4
    &&& op.1 <= op.2 <= n_old
    &&& op.3 <= op.4 <= n_new
}

/// A group of operations (one hunk): not empty, every operation within
/// the line counts, and each operation starting where the one before it
/// ends, in both texts.
pub open spec fn group_ok(g: Seq<(u8, usize, usize, usize, usize)>, n_old: nat, n_new: nat) -> bool {
    &&& g.len() > 0
    &&& forall|k: int| 0 <= k < g.len() ==> op_ok(#[trigger] g[k], n_old, n_new)
    &&& forall|k: int| 0 <= k < g.len() - 1 ==> (#[trigger] g[k]).2 == g[k + 1].1 && g[k].4 == g[k + 1].3
}

/// Every group well formed.
pub open spec fn groups_ok(gs: Seq<Seq<(u8, usize, usize, usize, usize)>>, n_old: nat, n_new: nat) -> bool {
    forall|i: int| 0 <= i < gs.len() ==> group_ok(#[trigger] gs[i], n_old, n_new)
}

/// The views of nested vectors of operations.
pub open spec fn op_groups(v: Seq<Vec<(u8, usize, usize, usize, usize)>>) -> Seq<Seq<(u8, usize, usize, usize, usize)>> {
    v.map_values(|g: Vec<(u8, usize, usize, usize, usize)>| g@)
}

/// The lines `similar::TextDiff::from_lines` cuts a text into (what
/// `old_slices` / `new_slices` give), each with its line ending.
pub uninterp spec fn text_diff_lines(text: Seq<char>) -> Seq<Seq<char>>;

/// What `TextDiff::from_lines(old, new).grouped_ops(context)` gives, as
/// plain operations.
pub uninterp spec fn grouped_line_ops(old: Seq<char>, new: Seq<char>, context: nat) -> Seq<Seq<(u8, usize, usize, usize, usize)>>;

/// `similar::TextDiff::from_lines(old, new)`, its old and new line slices
/// and its `grouped_ops(context)`, each operation converted by
/// `DiffOp::as_tag_tuple`. Claimed of it, from the crate's source: the
/// lines of a text put together give the text back (its line tokenizer
/// covers the text and keeps line endings); every group is non-empty
/// (`group_diff_ops` pushes no empty group); every range lies within the
/// line counts; and the operations of a group are contiguous (the diff
/// hooks record consecutive ranges and grouping only trims the first and
/// last equal run); and the groups hold every deletion, insertion and
/// replacement of the diff, whose operations cover both line lists
/// (`group_diff_ops` drops or shortens only equal runs, which have the
/// same length on both sides), so the lines inserted exceed the lines
/// deleted by exactly the growth in lines. Which lines are matched is
/// only named. The context is at most half of `usize::MAX`, since the
/// grouping doubles it.
#[verifier::external_body]
fn line_diff(old: &str, new: &str, context: usize) -> (r: (Vec<String>, Vec<String>, Vec<Vec<(u8, usize, usize, usize, usize)>>))
    requires
        context <= usize::MAX / 2,
    ensures
        views(r.0@) == text_diff_lines(old@),
        views(r.1@) == text_diff_lines(new@),
        op_groups(r.2@) == grouped_line_ops(old@, new@, context as nat),
        concat(views(r.0@)) == old@,
        concat(views(r.1@)) == new@,
        groups_ok(op_groups(r.2@), r.0@.len(), r.1@.len()),
        total_inserted(op_groups(r.2@)) + r.0@.len() == total_deleted(op_groups(r.2@)) + r.1@.len(),
{
    let d = similar::TextDiff::from_lines(old, new);
    let olds = d.old_slices().iter().map(|s| s.to_string()).collect();
    let news = d.new_slices().iter().map(|s| s.to_string()).collect();
    let groups = d.grouped_ops(context).iter().map(|g| g.iter().map(|op| {
        let (tag, o, n) = op.as_tag_tuple();
        let t: u8 = match tag {
            similar::DiffTag::Equal => 0,
            similar::DiffTag::Delete => 1,
            similar::DiffTag::Insert => 2,
            similar::DiffTag::Replace => 3,
        };
        (t, o.start, o.end, n.start, n.end)
    }).collect()).collect();
    (olds, news, groups)
}

// ── Rendering ──────────────────────────────────────────────────────────

/// One shown line: sign, space, the line, and a newline unless the line
/// already ends with one.
pub open spec fn row_line(sign: char, value: Seq<char>) -> Seq<char> {
    seq![sign, ' '] + value + (if value.len() > 0 && value.last() == '\n' {
        Seq::<char>::empty()
    } else {
        seq!['\n']
    })
}

/// The shown lines of `lines[lo..hi]`, each tagged with its sign.
pub open spec fn rows(lines: Seq<Seq<char>>, lo: int, hi: int, sign: char) -> Seq<(char, Seq<char>)> {
    lines.subrange(lo, hi).map_values(|l: Seq<char>| (sign, row_line(sign, l)))
}

/// The lines one operation shows: equal lines with a space, deleted old
/// lines with `-`, inserted new lines with `+`, a replacement as its
/// deletions then its insertions.
pub open spec fn op_events(
    old_l: Seq<Seq<char>>,
    new_l: Seq<Seq<char>>,
    op: (u8, usize, usize, usize, usize),
) -> Seq<(char, Seq<char>)> {
    if op.0 == 0 {
        rows(old_l, op.1 as int, op.2 as int, ' ')
    } else if op.0 == 1 {
        rows(old_l, op.1 as int, op.2 as int, '-')
    } else if op.0 == 2 {
        rows(new_l, op.3 as int, op.4 as int, '+')
    } else {
        rows(old_l, op.1 as int, op.2 as int, '-') + rows(new_l, op.3 as int, op.4 as int, '+')
    }
}

/// The lines the operations of a group show, in order.
pub open spec fn ops_events(
    old_l: Seq<Seq<char>>,
    new_l: Seq<Seq<char>>,
    g: Seq<(u8, usize, usize, usize, usize)>,
) -> Seq<(char, Seq<char>)>
    decreases g.len(),
{
    if g.len() == 0 {
        Seq::empty()
    } else {
        ops_events(old_l, new_l, g.drop_last()) + op_events(old_l, new_l, g.last())
    }
}

/// `@@ -a,b +c,d @@`: the one-based start and the length of the hunk in
/// the old and in the new text.
pub open spec fn hunk_header(g: Seq<(u8, usize, usize, usize, usize)>) -> Seq<char> {
    "@@ -"@ + decimal((g[0].1 + 1) as nat) + ","@ + decimal((g.last().2 - g[0].1) as nat) + " +"@
        + decimal((g[0].3 + 1) as nat) + ","@ + decimal((g.last().4 - g[0].3) as nat) + " @@\n"@
}

/// A hunk: its header (tagged `@`) and its lines.
pub open spec fn group_events(
    old_l: Seq<Seq<char>>,
    new_l: Seq<Seq<char>>,
    g: Seq<(u8, usize, usize, usize, usize)>,
) -> Seq<(char, Seq<char>)> {
    seq![('@', hunk_header(g))] + ops_events(old_l, new_l, g)
}

/// All hunks in order.
pub open spec fn diff_events(
    old_l: Seq<Seq<char>>,
    new_l: Seq<Seq<char>>,
    gs: Seq<Seq<(u8, usize, usize, usize, usize)>>,
) -> Seq<(char, Seq<char>)>
    decreases gs.len(),
{
    if gs.len() == 0 {
        Seq::empty()
    } else {
        diff_events(old_l, new_l, gs.drop_last()) + group_events(old_l, new_l, gs.last())
    }
}

/// The views of rendered lines.
pub open spec fn ev_views(v: Seq<(char, String)>) -> Seq<(char, Seq<char>)> {
    v.map_values(|e: (char, String)| (e.0, e.1@))
}

proof fn lemma_group_spans(g: Seq<(u8, usize, usize, usize, usize)>, n_old: nat, n_new: nat, k: int)
    requires
        group_ok(g, n_old, n_new),
        0 <= k < g.len(),
    ensures
        g[0].1 <= g[k].2,
        g[0].3 <= g[k].4,
    decreases k,
{
    assert(op_ok(g[k], n_old, n_new));
    if k > 0 {
        lemma_group_spans(g, n_old, n_new, k - 1);
        assert(g[k - 1].2 == g[k].1);
    }
}

/// The shown line of one old or new line.
fn row_text(sign: char, value: &str) -> (s: String)
    ensures
        s@ == row_line(sign, value@),
{
    let v = chars_of(value);
    let mut s = String::new();
    push_char(&mut s, sign);
    push_char(&mut s, ' ');
    append(&mut s, value);
    if !(v.len() > 0 && v[v.len() - 1] == '\n') {
        push_char(&mut s, '\n');
    }
    assert(s@ =~= row_line(sign, value@));
    s
}

/// Appends the shown lines of `lines[lo..hi]`.
fn push_rows(out: &mut Vec<(char, String)>, lines: &Vec<String>, lo: usize, hi: usize, sign: char)
    requires
        lo <= hi <= lines.len(),
    ensures
        ev_views(final(out)@) == ev_views(old(out)@) + rows(views(lines@), lo as int, hi as int, sign),
{
    let ghost start = ev_views(out@);
    let mut k = lo;
    while k < hi
        invariant
            lo <= k <= hi <= lines.len(),
            ev_views(out@) == start + rows(views(lines@), lo as int, k as int, sign),
        decreases hi - k,
    {
        let line = row_text(sign, lines[k].as_str());
        let ghost before = out@;
        out.push((sign, line));
        assert(ev_views(out@) =~= ev_views(before) + seq![(sign, row_line(sign, lines@[k as int]@))]);
        assert(rows(views(lines@), lo as int, k + 1, sign) =~= rows(views(lines@), lo as int, k as int, sign)
            + seq![(sign, row_line(sign, lines@[k as int]@))]);
        k += 1;
    }
}

/// Appends the shown lines of one operation.
fn push_op(
    out: &mut Vec<(char, String)>,
    old_lines: &Vec<String>,
    new_lines: &Vec<String>,
    op: (u8, usize, usize, usize, usize),
)
    requires
        op_ok(op, old_lines.len() as nat, new_lines.len() as nat),
    ensures
        ev_views(final(out)@) == ev_views(old(out)@) + op_events(views(old_lines@), views(new_lines@), op),
{
    let (tag, os, oe, ns, ne) = op;
    if tag == 0 {
        push_rows(out, old_lines, os, oe, ' ');
    } else if tag == 1 {
        push_rows(out, old_lines, os, oe, '-');
    } else if tag == 2 {
        push_rows(out, new_lines, ns, ne, '+');
    } else {
        let ghost before = ev_views(out@);
        push_rows(out, old_lines, os, oe, '-');
        push_rows(out, new_lines, ns, ne, '+');
        assert(ev_views(out@) =~= before + op_events(views(old_lines@), views(new_lines@), op));
    }
}

/// Decimal of `n + 1`, without overflow.
fn dec_succ(n: usize) -> (s: String)
    ensures
        s@ == decimal((n + 1) as nat),
{
    let last: usize = n % 10;
    let q: usize = n / 10 + (last + 1) / 10;
    let d: usize = (last + 1) % 10;
    assert(q == (n + 1) / 10 && d == (n + 1) % 10);
    if q == 0 {
        let mut s = String::new();
        push_char(&mut s, digit_of(d));
        assert(s@ =~= decimal((n + 1) as nat));
        s
    } else {
        let mut s = dec(q as u64);
        push_char(&mut s, digit_of(d));
        s
    }
}

/// The header of a hunk.
fn header_text(g: &Vec<(u8, usize, usize, usize, usize)>, n_old: usize, n_new: usize) -> (s: String)
    requires
        group_ok(g@, n_old as nat, n_new as nat),
    ensures
        s@ == hunk_header(g@),
{
    proof {
        lemma_group_spans(g@, n_old as nat, n_new as nat, g@.len() - 1);
        assert(op_ok(g@[0], n_old as nat, n_new as nat));
    }
    let first = g[0];
    let last = g[g.len() - 1];
    let mut s = String::from_str("@@ -");
    append(&mut s, dec_succ(first.1).as_str());
    append(&mut s, ",");
    append(&mut s, dec((last.2 - first.1) as u64).as_str());
    append(&mut s, " +");
    append(&mut s, dec_succ(first.3).as_str());
    append(&mut s, ",");
    append(&mut s, dec((last.4 - first.3) as u64).as_str());
    append(&mut s, " @@\n");
    s
}

/// The shown lines of all hunks, headers included.
#[verifier::rlimit(40)]
fn build_events(
    old_lines: &Vec<String>,
    new_lines: &Vec<String>,
    groups: &Vec<Vec<(u8, usize, usize, usize, usize)>>,
) -> (ev: Vec<(char, String)>)
    requires
        groups_ok(op_groups(groups@), old_lines.len() as nat, new_lines.len() as nat),
    ensures
        ev_views(ev@) == diff_events(views(old_lines@), views(new_lines@), op_groups(groups@)),
{
    let ghost ol = views(old_lines@);
    let ghost nl = views(new_lines@);
    let ghost gs = op_groups(groups@);
    let mut ev: Vec<(char, String)> = Vec::new();
    let mut gi: usize = 0;
    assert(ev_views(ev@) =~= Seq::<(char, Seq<char>)>::empty());
    assert(gs.take(0) =~= Seq::<Seq<(u8, usize, usize, usize, usize)>>::empty());
    while gi < groups.len()
        invariant
            gi <= groups.len(),
            gs == op_groups(groups@),
            ol == views(old_lines@),
            nl == views(new_lines@),
            groups_ok(gs, old_lines.len() as nat, new_lines.len() as nat),
            ev_views(ev@) == diff_events(ol, nl, gs.take(gi as int)),
        decreases groups.len() - gi,
    {
        let g = &groups[gi];
        assert(gs[gi as int] == g@);
        assert(group_ok(gs[gi as int], old_lines.len() as nat, new_lines.len() as nat));
        let ghost before = ev_views(ev@);
        let h = header_text(g, old_lines.len(), new_lines.len());
        ev.push(('@', h));
        assert(ev_views(ev@) =~= before + seq![('@', hunk_header(g@))]);
        let mut k: usize = 0;
        assert(g@.take(0) =~= Seq::<(u8, usize, usize, usize, usize)>::empty());
        while k < g.len()
            invariant
                k <= g.len(),
                g@ == gs[gi as int],
                group_ok(g@, old_lines.len() as nat, new_lines.len() as nat),
                ev_views(ev@) == before + seq![('@', hunk_header(g@))] + ops_events(ol, nl, g@.take(k as int)),
                ol == views(old_lines@),
                nl == views(new_lines@),
            decreases g.len() - k,
        {
            assert(op_ok(g@[k as int], old_lines.len() as nat, new_lines.len() as nat));
            push_op(&mut ev, old_lines, new_lines, g[k]);
            assert(g@.take(k + 1).drop_last() =~= g@.take(k as int));
            k += 1;
        }
        assert(g@.take(g.len() as int) =~= g@);
        assert(gs.take(gi + 1).drop_last() =~= gs.take(gi as int));
        assert(ev_views(ev@) =~= diff_events(ol, nl, gs.take(gi + 1)));
        gi += 1;
    }
    assert(gs.take(groups.len() as int) =~= gs);
    ev
}

// ── Cutting ────────────────────────────────────────────────────────────

/// The first shown line (not a header) at index `j` or later.
pub open spec fn first_row_from(ev: Seq<(char, Seq<char>)>, j: int) -> Option<int>
    decreases ev.len() - j,
{
    if j < 0 || j >= ev.len() {
        None
    } else if ev[j].0 != '@' {
        Some(j)
    } else {
        first_row_from(ev, j + 1)
    }
}

/// Where the diff is cut: at the first shown line once `MAX_LINES` lines
/// (headers included) have been written.
pub open spec fn cut_point(ev: Seq<(char, Seq<char>)>) -> Option<int> {
    first_row_from(ev, MAX_LINES as int)
}

/// What is written before the cut.
pub open spec fn kept(ev: Seq<(char, Seq<char>)>) -> Seq<(char, Seq<char>)> {
    match cut_point(ev) {
        Some(t) => ev.take(t),
        None => ev,
    }
}

/// How many lines carry the sign `c`.
pub open spec fn count_sign(ev: Seq<(char, Seq<char>)>, c: char) -> nat
    decreases ev.len(),
{
    if ev.len() == 0 {
        0
    } else {
        count_sign(ev.drop_last(), c) + if ev.last().0 == c { 1nat } else { 0nat }
    }
}

/// The lines written one after another.
pub open spec fn event_text(ev: Seq<(char, Seq<char>)>) -> Seq<char> {
    concat(ev.map_values(|e: (char, Seq<char>)| e.1))
}

/// A diff as the card shows it: text, additions, deletions, whether cut.
pub open spec fn clipped(ev: Seq<(char, Seq<char>)>) -> (Seq<char>, nat, nat, bool) {
    (
        event_text(kept(ev)) + if cut_point(ev) is Some { DIFF_FOOTER@ } else { Seq::<char>::empty() },
        count_sign(kept(ev), '+'),
        count_sign(kept(ev), '-'),
        cut_point(ev) is Some,
    )
}

impl View for DiffResult {
    type V = (Seq<char>, nat, nat, bool);

    open spec fn view(&self) -> (Seq<char>, nat, nat, bool) {
        (self.text@, self.additions as nat, self.deletions as nat, self.truncated)
    }
}

proof fn lemma_headers_skip(ev: Seq<(char, Seq<char>)>, j: int, i: int)
    requires
        0 <= j <= i <= ev.len(),
        forall|m: int| j <= m < i ==> (#[trigger] ev[m]).0 == '@',
    ensures
        first_row_from(ev, j) == first_row_from(ev, i),
    decreases i - j,
{
    if j < i {
        lemma_headers_skip(ev, j + 1, i);
    }
}

/// Writes the lines up to the cut, then the footer if cut.
fn clip_events(ev: &Vec<(char, String)>) -> (r: DiffResult)
    ensures
        r@ == clipped(ev_views(ev@)),
{
    let ghost e = ev_views(ev@);
    let mut text = String::new();
    let mut additions: usize = 0;
    let mut deletions: usize = 0;
    let mut i: usize = 0;
    assert(e.take(0).map_values(|x: (char, Seq<char>)| x.1) =~= Seq::<Seq<char>>::empty());
    while i < ev.len()
        invariant
            e == ev_views(ev@),
            i <= ev.len(),
            text@ == event_text(e.take(i as int)),
            additions == count_sign(e.take(i as int), '+'),
            deletions == count_sign(e.take(i as int), '-'),
            additions + deletions <= i,
            forall|m: int| MAX_LINES <= m < i ==> (#[trigger] e[m]).0 == '@',
        decreases ev.len() - i,
    {
        let sign = ev[i].0;
        assert(e[i as int] == (sign, ev@[i as int].1@));
        if sign != '@' && i >= MAX_LINES {
            proof {
                lemma_headers_skip(e, MAX_LINES as int, i as int);
            }
            append(&mut text, DIFF_FOOTER);
            return DiffResult { text, additions, deletions, truncated: true };
        }
        append(&mut text, ev[i].1.as_str());
        if sign == '+' {
            additions += 1;
        } else if sign == '-' {
            deletions += 1;
        }
        assert(e.take(i + 1).drop_last() =~= e.take(i as int));
        assert(e.take(i + 1).map_values(|x: (char, Seq<char>)| x.1).drop_last()
            =~= e.take(i as int).map_values(|x: (char, Seq<char>)| x.1));
        i += 1;
    }
    proof {
        if ev.len() >= MAX_LINES {
            lemma_headers_skip(e, MAX_LINES as int, ev.len() as int);
        }
        assert(e.take(ev.len() as int) =~= e);
    }
    DiffResult { text, additions, deletions, truncated: false }
}

// ── The card ───────────────────────────────────────────────────────────

/// Renders the hunks of a grouped line diff over `old_lines` and
/// `new_lines`, cut once `MAX_LINES` lines are written.
pub fn render_line_diff(
    old_lines: &Vec<String>,
    new_lines: &Vec<String>,
    groups: &Vec<Vec<(u8, usize, usize, usize, usize)>>,
) -> (r: DiffResult)
    requires
        groups_ok(op_groups(groups@), old_lines.len() as nat, new_lines.len() as nat),
    ensures
        r@ == clipped(diff_events(views(old_lines@), views(new_lines@), op_groups(groups@))),
{
    let ev = build_events(old_lines, new_lines, groups);
    clip_events(&ev)
}

/// A line of a fresh file.
pub open spec fn fresh_row(l: Seq<char>) -> Seq<char> {
    "+ "@ + l + "\n"@
}

/// The lines of a fresh file, each marked added.
pub open spec fn fresh_text(ls: Seq<Seq<char>>) -> Seq<char> {
    concat(ls.map_values(|l: Seq<char>| fresh_row(l)))
}

/// A fresh file: every line (as `str::lines` cuts them) added, the first
/// `MAX_LINES` shown, then a count of the rest.
pub open spec fn fresh_file(new: Seq<char>) -> (Seq<char>, nat, nat, bool) {
    let ls = lines(new);
    if ls.len() > MAX_LINES {
        (
            fresh_text(ls.take(MAX_LINES as int)) + "["@ + decimal((ls.len() - MAX_LINES) as nat)
                + " more lines truncated]\n"@,
            MAX_LINES as nat,
            0,
            true,
        )
    } else {
        (fresh_text(ls), ls.len(), 0, false)
    }
}

/// The diff of `old` to `new` as the card shows it.
pub open spec fn text_diff_spec(old: Seq<char>, new: Seq<char>) -> (Seq<char>, nat, nat, bool) {
    if old == new {
        ("(no changes)"@, 0, 0, false)
    } else if old.len() == 0 {
        fresh_file(new)
    } else {
        clipped(
            diff_events(
                text_diff_lines(old),
                text_diff_lines(new),
                grouped_line_ops(old, new, CONTEXT_LINES as nat),
            ),
        )
    }
}

fn fresh_diff(new: &str) -> (r: DiffResult)
    ensures
        r@ == fresh_file(new@),
{
    let ls = lines_of(&chars_of(new));
    let ghost lv = cviews(ls@);
    let mut text = String::new();
    let mut i: usize = 0;
    assert(lv.take(0).map_values(|l: Seq<char>| fresh_row(l)) =~= Seq::<Seq<char>>::empty());
    while i < ls.len()
        invariant
            lv == cviews(ls@),
            lv == lines(new@),
            i <= ls.len(),
            i <= MAX_LINES,
            text@ == fresh_text(lv.take(i as int)),
        decreases ls.len() - i,
    {
        if i >= MAX_LINES {
            let rest = ls.len() - MAX_LINES;
            append(&mut text, "[");
            append(&mut text, dec(rest as u64).as_str());
            append(&mut text, " more lines truncated]\n");
            return DiffResult { text, additions: i, deletions: 0, truncated: true };
        }
        append(&mut text, "+ ");
        append(&mut text, string_of(&ls[i]).as_str());
        append(&mut text, "\n");
        assert(lv.take(i + 1).map_values(|l: Seq<char>| fresh_row(l)).drop_last()
            =~= lv.take(i as int).map_values(|l: Seq<char>| fresh_row(l)));
        i += 1;
    }
    assert(lv.take(ls.len() as int) =~= lv);
    DiffResult { text, additions: i, deletions: 0, truncated: false }
}

/// The diff of `old` to `new` for a tool card: `(no changes)` when equal,
/// every line added when `old` is empty, else the unified diff with two
/// lines of context, cut after `MAX_LINES` lines. Always `Ok`.
pub fn compute_text_diff(old: String, new: String) -> (r: Result<DiffResult, String>)
    ensures
        r matches Ok(d) && d@ == text_diff_spec(old@, new@),
        r matches Ok(d) && (old@ != new@ && old@.len() > 0 && !d.truncated ==> d.additions + text_diff_lines(old@).len()
            == d.deletions + text_diff_lines(new@).len()),
        r matches Ok(d) && (old@ != new@ && old@.len() == 0 ==> d.deletions == 0 && d.additions == vstd::math::min(
            lines(new@).len() as int,
            MAX_LINES as int,
        )),
{
    let o = chars_of(old.as_str());
    let n = chars_of(new.as_str());
    if same(&o, &n) {
        return Ok(DiffResult { text: String::from_str("(no changes)"), additions: 0, deletions: 0, truncated: false });
    }
    if o.len() == 0 {
        return Ok(fresh_diff(new.as_str()));
    }
    let (old_lines, new_lines, groups) = line_diff(old.as_str(), new.as_str(), CONTEXT_LINES);
    let d = render_line_diff(&old_lines, &new_lines, &groups);
    proof {
        if !d.truncated {
            law_uncut_card_counts_every_change(views(old_lines@), views(new_lines@), op_groups(groups@));
        }
    }
    Ok(d)
}

// ── Edits ──────────────────────────────────────────────────────────────

/// Longest diff shown after an edit, in bytes.
pub const EDIT_DIFF_MAX_BYTES: usize = 3000;

/// What `TextDiff::from_lines(old, new).ops()` gives, as plain operations.
pub uninterp spec fn line_ops(old: Seq<char>, new: Seq<char>) -> Seq<(u8, usize, usize, usize, usize)>;

/// `similar::TextDiff::from_lines(old, new)`, its old and new line slices
/// and all its operations (`ops`), each converted by
/// `DiffOp::as_tag_tuple`. Claimed of it, from the crate's source: every
/// range lies within the line counts. Which lines are matched is only
/// named.
#[verifier::external_body]
fn line_diff_all(old: &str, new: &str) -> (r: (Vec<String>, Vec<String>, Vec<(u8, usize, usize, usize, usize)>))
    ensures
        views(r.0@) == text_diff_lines(old@),
        views(r.1@) == text_diff_lines(new@),
        r.2@ == line_ops(old@, new@),
        forall|k: int| 0 <= k < r.2@.len() ==> op_ok(#[trigger] r.2@[k], r.0@.len(), r.1@.len()),
{
    let d = similar::TextDiff::from_lines(old, new);
    let olds = d.old_slices().iter().map(|s| s.to_string()).collect();
    let news = d.new_slices().iter().map(|s| s.to_string()).collect();
    let ops = d.ops().iter().map(|op| {
        let (tag, o, n) = op.as_tag_tuple();
        let t: u8 = match tag {
            similar::DiffTag::Equal => 0,
            similar::DiffTag::Delete => 1,
            similar::DiffTag::Insert => 2,
            similar::DiffTag::Replace => 3,
        };
        (t, o.start, o.end, n.start, n.end)
    }).collect();
    (olds, news, ops)
}

/// One change as an edit report prints it: sign, the line, and a newline
/// unless the line ends with `\n` or `\r`.
pub open spec fn change_line(sign: char, value: Seq<char>) -> Seq<char> {
    seq![sign] + value + (if value.len() > 0 && (value.last() == '\n' || value.last() == '\r') {
        Seq::<char>::empty()
    } else {
        seq!['\n']
    })
}

/// The changes of `lines[lo..hi]`, printed with `sign`.
pub open spec fn rows_text(lines: Seq<Seq<char>>, lo: int, hi: int, sign: char) -> Seq<char>
    decreases hi - lo,
{
    if lo >= hi {
        Seq::empty()
    } else {
        rows_text(lines, lo, hi - 1, sign) + change_line(sign, lines[hi - 1])
    }
}

/// The changes one operation prints (as `iter_changes` expands it).
pub open spec fn op_text(old_l: Seq<Seq<char>>, new_l: Seq<Seq<char>>, op: (u8, usize, usize, usize, usize)) -> Seq<char> {
    if op.0 == 0 {
        rows_text(old_l, op.1 as int, op.2 as int, ' ')
    } else if op.0 == 1 {
        rows_text(old_l, op.1 as int, op.2 as int, '-')
    } else if op.0 == 2 {
        rows_text(new_l, op.3 as int, op.4 as int, '+')
    } else {
        rows_text(old_l, op.1 as int, op.2 as int, '-') + rows_text(new_l, op.3 as int, op.4 as int, '+')
    }
}

/// All changes of all operations, in order.
pub open spec fn ops_text(old_l: Seq<Seq<char>>, new_l: Seq<Seq<char>>, ops: Seq<(u8, usize, usize, usize, usize)>) -> Seq<char>
    decreases ops.len(),
{
    if ops.len() == 0 {
        Seq::empty()
    } else {
        ops_text(old_l, new_l, ops.drop_last()) + op_text(old_l, new_l, ops.last())
    }
}

fn push_changes(out: &mut String, lines: &Vec<String>, lo: usize, hi: usize, sign: char)
    requires
        lo <= hi <= lines.len(),
    ensures
        final(out)@ == old(out)@ + rows_text(views(lines@), lo as int, hi as int, sign),
{
    let ghost start = out@;
    let mut k = lo;
    while k < hi
        invariant
            lo <= k <= hi <= lines.len(),
            out@ == start + rows_text(views(lines@), lo as int, k as int, sign),
        decreases hi - k,
    {
        let v = chars_of(lines[k].as_str());
        let ghost before = out@;
        push_char(out, sign);
        append(out, lines[k].as_str());
        if !(v.len() > 0 && (v[v.len() - 1] == '\n' || v[v.len() - 1] == '\r')) {
            push_char(out, '\n');
        }
        assert(views(lines@)[k as int] == lines@[k as int]@);
        assert(out@ =~= before + change_line(sign, lines@[k as int]@));
        k += 1;
    }
}

/// Every change of the diff of `old_lines` to `new_lines` given by `ops`,
/// one line each with its sign.
pub fn render_changes(
    old_lines: &Vec<String>,
    new_lines: &Vec<String>,
    ops: &Vec<(u8, usize, usize, usize, usize)>,
) -> (r: String)
    requires
        forall|k: int| 0 <= k < ops@.len() ==> op_ok(#[trigger] ops@[k], old_lines@.len(), new_lines@.len()),
    ensures
        r@ == ops_text(views(old_lines@), views(new_lines@), ops@),
{
    let ghost ol = views(old_lines@);
    let ghost nl = views(new_lines@);
    let mut out = String::new();
    let mut i: usize = 0;
    assert(ops@.take(0) =~= Seq::<(u8, usize, usize, usize, usize)>::empty());
    while i < ops.len()
        invariant
            i <= ops.len(),
            ol == views(old_lines@),
            nl == views(new_lines@),
            forall|k: int| 0 <= k < ops@.len() ==> op_ok(#[trigger] ops@[k], old_lines@.len(), new_lines@.len()),
            out@ == ops_text(ol, nl, ops@.take(i as int)),
        decreases ops.len() - i,
    {
        let op = ops[i];
        assert(op_ok(ops@[i as int], old_lines@.len(), new_lines@.len()));
        let ghost before = out@;
        let (tag, os, oe, ns, ne) = op;
        if tag == 0 {
            push_changes(&mut out, old_lines, os, oe, ' ');
        } else if tag == 1 {
            push_changes(&mut out, old_lines, os, oe, '-');
        } else if tag == 2 {
            push_changes(&mut out, new_lines, ns, ne, '+');
        } else {
            push_changes(&mut out, old_lines, os, oe, '-');
            push_changes(&mut out, new_lines, ns, ne, '+');
        }
        assert(ops@.take(i + 1).drop_last() =~= ops@.take(i as int));
        assert(out@ =~= ops_text(ol, nl, ops@.take(i + 1)));
        i += 1;
    }
    assert(ops@.take(ops.len() as int) =~= ops@);
    out
}

/// What an edit is refused with when the text is not in the file: the
/// path, the file's line count and its first three lines.
pub open spec fn edit_not_found_text(path: Seq<char>, content: Seq<char>) -> Seq<char> {
    "No se encontr\u{f3} el texto a reemplazar en "@ + path + ". El archivo tiene "@ + decimal(lines(content).len())
        + " l\u{ed}neas.\nPrimeras 3 l\u{ed}neas:\n"@ + join(lines(content).take(vstd::math::min(3, lines(content).len() as int)), "\n"@)
        + "\nSugerencia: usa readlines para ver el contenido actual."@
}

/// What an edit is refused with when the text occurs several times and
/// not all are to be replaced.
pub open spec fn edit_ambiguous_text(path: Seq<char>, count: nat) -> Seq<char> {
    "Se encontraron "@ + decimal(count) + " coincidencias del texto en "@ + path
        + ". Usa replace_all=true para reemplazar todas, o proporciona m\u{e1}s contexto para hacer la b\u{fa}squeda \u{fa}nica."@
}

/// The outcome of replacing `old` by `new` in `content`: refused when
/// `old` does not occur, or occurs more than once without `all`; else the
/// new text and how many occurrences were replaced.
pub open spec fn edit_spec(path: Seq<char>, content: Seq<char>, old: Seq<char>, new: Seq<char>, all: bool) -> Result<(Seq<char>, nat), Seq<char>> {
    if !crate::text::contains(content, old) {
        Err(edit_not_found_text(path, content))
    } else if match_count(content, old) > 1 && !all {
        Err(edit_ambiguous_text(path, match_count(content, old)))
    } else if all {
        Ok((replaced_all(content, old, new), match_count(content, old)))
    } else {
        Ok((replaced_first(content, old, new), 1))
    }
}

/// Replaces `old_string` by `new_string` in a file's `content` (every
/// occurrence with `replace_all`, else the only one); `path` is how the
/// refusals name the file.
pub fn plan_edit(
    path: &str,
    content: &str,
    old_string: &str,
    new_string: &str,
    replace_all: Option<bool>,
) -> (r: Result<(String, usize), String>)
    requires
        content@.len() < usize::MAX,
    ensures
        match (r, edit_spec(path@, content@, old_string@, new_string@, replace_all == Some(true))) {
            (Ok((t, n)), Ok((ts, ns))) => t@ == ts && n == ns,
            (Err(e), Err(es)) => e@ == es,
            _ => false,
        },
{
    let cv = chars_of(content);
    let ov = chars_of(old_string);
    if !has_sub(&cv, &ov) {
        let ls = lines_of(&cv);
        let mut first: Vec<String> = Vec::new();
        let mut k: usize = 0;
        while k < ls.len() && k < 3
            invariant
                k <= ls.len(),
                k <= 3,
                views(first@) == cviews(ls@).take(k as int),
            decreases 3 - k,
        {
            let ghost before = views(first@);
            first.push(string_of(&ls[k]));
            assert(views(first@) =~= before.push(ls@[k as int]@));
            assert(cviews(ls@)[k as int] == ls@[k as int]@);
            assert(views(first@) =~= cviews(ls@).take(k + 1));
            k += 1;
        }
        let mut e = String::from_str("No se encontr\u{f3} el texto a reemplazar en ");
        append(&mut e, path);
        append(&mut e, ". El archivo tiene ");
        append(&mut e, dec(ls.len() as u64).as_str());
        append(&mut e, " l\u{ed}neas.\nPrimeras 3 l\u{ed}neas:\n");
        append(&mut e, join_strings(&first, "\n").as_str());
        append(&mut e, "\nSugerencia: usa readlines para ver el contenido actual.");
        return Err(e);
    }
    let count = count_matches(content, old_string);
    let all = match replace_all {
        Some(b) => b,
        None => false,
    };
    if count > 1 && !all {
        let mut e = String::from_str("Se encontraron ");
        append(&mut e, dec(count as u64).as_str());
        append(&mut e, " coincidencias del texto en ");
        append(&mut e, path);
        append(
            &mut e,
            ". Usa replace_all=true para reemplazar todas, o proporciona m\u{e1}s contexto para hacer la b\u{fa}squeda \u{fa}nica.",
        );
        return Err(e);
    }
    if all {
        Ok((replace_all_str(content, old_string, new_string), count))
    } else {
        Ok((replace_first_str(content, old_string, new_string), 1))
    }
}

/// The report of an edit: what was replaced, and every change of the line
/// diff, cut past 3000 bytes.
pub open spec fn edit_report_text(path: Seq<char>, replaced: nat, diff: Seq<char>) -> Seq<char> {
    let shown = if vstd::utf8::encode_utf8(diff).len() > EDIT_DIFF_MAX_BYTES {
        utf8_prefix(diff, EDIT_DIFF_MAX_BYTES as int) + "... [Diff Truncado]"@
    } else {
        diff
    };
    "ok: editado "@ + path + " ("@ + decimal(replaced) + " reemplazo(s))\n## Unified Diff:\n```diff\n"@ + shown + "\n```"@
}

/// The report of an edit from a rendered diff.
pub fn edit_report_from_diff(path: &str, replaced: usize, diff: &str) -> (r: String)
    ensures
        r@ == edit_report_text(path@, replaced as nat, diff@),
{
    let shown = if diff.as_bytes().len() > EDIT_DIFF_MAX_BYTES {
        let mut c = truncate_utf8(diff, EDIT_DIFF_MAX_BYTES);
        append(&mut c, "... [Diff Truncado]");
        c
    } else {
        copy_str(diff)
    };
    let mut r = String::from_str("ok: editado ");
    append(&mut r, path);
    append(&mut r, " (");
    append(&mut r, dec(replaced as u64).as_str());
    append(&mut r, " reemplazo(s))\n## Unified Diff:\n```diff\n");
    append(&mut r, shown.as_str());
    append(&mut r, "\n```");
    r
}

/// The report of an edit of `content` into `new_content`: the line diff
/// between them (named, as `similar` computes it), printed change by
/// change.
pub fn edit_report(path: &str, replaced: usize, content: &str, new_content: &str) -> (r: String)
    ensures
        r@ == edit_report_text(
            path@,
            replaced as nat,
            ops_text(text_diff_lines(content@), text_diff_lines(new_content@), line_ops(content@, new_content@)),
        ),
{
    let (old_lines, new_lines, ops) = line_diff_all(content, new_content);
    let diff = render_changes(&old_lines, &new_lines, &ops);
    edit_report_from_diff(path, replaced, diff.as_str())
}

// ── Laws ───────────────────────────────────────────────────────────────

proof fn lemma_first_row(ev: Seq<(char, Seq<char>)>, j: int)
    requires
        0 <= j,
    ensures
        match first_row_from(ev, j) {
            Some(t) => j <= t < ev.len() && ev[t].0 != '@' && forall|m: int| j <= m < t ==> (#[trigger] ev[m]).0 == '@',
            None => forall|m: int| j <= m < ev.len() ==> (#[trigger] ev[m]).0 == '@',
        },
    decreases ev.len() - j,
{
    if j < ev.len() && ev[j].0 == '@' {
        lemma_first_row(ev, j + 1);
    }
}

proof fn lemma_signs_within_len(s: Seq<(char, Seq<char>)>)
    ensures
        count_sign(s, '+') + count_sign(s, '-') <= s.len(),
    decreases s.len(),
{
    if s.len() > 0 {
        lemma_signs_within_len(s.drop_last());
    }
}

proof fn lemma_headers_count_nothing(s: Seq<(char, Seq<char>)>, j: int, t: int)
    requires
        0 <= j <= t <= s.len(),
        forall|m: int| j <= m < t ==> (#[trigger] s[m]).0 == '@',
    ensures
        count_sign(s.take(t), '+') == count_sign(s.take(j), '+'),
        count_sign(s.take(t), '-') == count_sign(s.take(j), '-'),
    decreases t - j,
{
    if j < t {
        lemma_headers_count_nothing(s, j, t - 1);
        assert(s.take(t).drop_last() =~= s.take(t - 1));
    }
}

proof fn lemma_no_match_unchanged(s: Seq<char>, pat: Seq<char>, rep: Seq<char>)
    requires
        pat.len() > 0,
        match_count(s, pat) == 0,
    ensures
        replaced_all(s, pat, rep) == s,
    decreases s.len(),
{
    if s.len() > 0 {
        lemma_no_match_unchanged(s.drop_first(), pat, rep);
        assert(seq![s[0]] + s.drop_first() =~= s);
    }
}

proof fn lemma_unique_match_modes_agree(s: Seq<char>, pat: Seq<char>, rep: Seq<char>)
    requires
        pat.len() > 0,
        match_count(s, pat) == 1,
    ensures
        replaced_all(s, pat, rep) == replaced_first(s, pat, rep),
    decreases s.len(),
{
    if s.len() > 0 {
        if crate::text::starts_with(s, pat) {
            lemma_no_match_unchanged(s.skip(pat.len() as int), pat, rep);
        } else {
            lemma_unique_match_modes_agree(s.drop_first(), pat, rep);
        }
    }
}

/// When the text to replace occurs exactly once, replacing all occurrences
/// and replacing the only one give the same file and the same count.
pub proof fn law_unique_edit_modes_agree(path: Seq<char>, content: Seq<char>, old: Seq<char>, new: Seq<char>)
    requires
        old.len() > 0,
        match_count(content, old) == 1,
    ensures
        edit_spec(path, content, old, new, true) == edit_spec(path, content, old, new, false),
{
    lemma_unique_match_modes_agree(content, old, new);
}

/// A card never shows more than `MAX_LINES` added and deleted lines
/// together, however long the texts.
pub proof fn law_diff_is_capped(old: Seq<char>, new: Seq<char>)
    ensures
        text_diff_spec(old, new).1 + text_diff_spec(old, new).2 <= MAX_LINES,
{
    if old != new && old.len() != 0 {
        let ev = diff_events(
            text_diff_lines(old),
            text_diff_lines(new),
            grouped_line_ops(old, new, CONTEXT_LINES as nat),
        );
        lemma_first_row(ev, MAX_LINES as int);
        match cut_point(ev) {
            Some(t) => {
                lemma_headers_count_nothing(ev, MAX_LINES as int, t);
                lemma_signs_within_len(ev.take(MAX_LINES as int));
            },
            None => {
                if ev.len() > MAX_LINES {
                    lemma_headers_count_nothing(ev, MAX_LINES as int, ev.len() as int);
                    lemma_signs_within_len(ev.take(MAX_LINES as int));
                    assert(ev.take(ev.len() as int) =~= ev);
                } else {
                    lemma_signs_within_len(ev);
                }
            },
        }
    }
}

/// The lines an operation inserts.
pub open spec fn op_inserted(op: (u8, usize, usize, usize, usize)) -> nat {
    if op.0 == 2 || op.0 == 3 {
        (op.4 - op.3) as nat
    } else {
        0
    }
}

/// The lines an operation deletes.
pub open spec fn op_deleted(op: (u8, usize, usize, usize, usize)) -> nat {
    if op.0 == 1 || op.0 == 3 {
        (op.2 - op.1) as nat
    } else {
        0
    }
}

/// The lines the operations of a group insert.
pub open spec fn group_inserted(g: Seq<(u8, usize, usize, usize, usize)>) -> nat
    decreases g.len(),
{
    if g.len() == 0 {
        0
    } else {
        group_inserted(g.drop_last()) + op_inserted(g.last())
    }
}

/// The lines the operations of a group delete.
pub open spec fn group_deleted(g: Seq<(u8, usize, usize, usize, usize)>) -> nat
    decreases g.len(),
{
    if g.len() == 0 {
        0
    } else {
        group_deleted(g.drop_last()) + op_deleted(g.last())
    }
}

/// The lines all groups insert.
pub open spec fn total_inserted(gs: Seq<Seq<(u8, usize, usize, usize, usize)>>) -> nat
    decreases gs.len(),
{
    if gs.len() == 0 {
        0
    } else {
        total_inserted(gs.drop_last()) + group_inserted(gs.last())
    }
}

/// The lines all groups delete.
pub open spec fn total_deleted(gs: Seq<Seq<(u8, usize, usize, usize, usize)>>) -> nat
    decreases gs.len(),
{
    if gs.len() == 0 {
        0
    } else {
        total_deleted(gs.drop_last()) + group_deleted(gs.last())
    }
}

proof fn lemma_count_concat(a: Seq<(char, Seq<char>)>, b: Seq<(char, Seq<char>)>, c: char)
    ensures
        count_sign(a + b, c) == count_sign(a, c) + count_sign(b, c),
    decreases b.len(),
{
    if b.len() == 0 {
        assert(a + b =~= a);
    } else {
        lemma_count_concat(a, b.drop_last(), c);
        assert((a + b).drop_last() =~= a + b.drop_last());
    }
}

proof fn lemma_count_rows(l: Seq<Seq<char>>, lo: int, hi: int, sign: char, c: char)
    requires
        0 <= lo <= hi <= l.len(),
    ensures
        count_sign(rows(l, lo, hi, sign), c) == if sign == c { (hi - lo) as nat } else { 0nat },
    decreases hi - lo,
{
    if lo < hi {
        lemma_count_rows(l, lo, hi - 1, sign, c);
        assert(rows(l, lo, hi, sign).drop_last() =~= rows(l, lo, hi - 1, sign));
    } else {
        assert(rows(l, lo, hi, sign) =~= Seq::<(char, Seq<char>)>::empty());
    }
}

proof fn lemma_count_op(ol: Seq<Seq<char>>, nl: Seq<Seq<char>>, op: (u8, usize, usize, usize, usize))
    requires
        op_ok(op, ol.len(), nl.len()),
    ensures
        count_sign(op_events(ol, nl, op), '+') == op_inserted(op),
        count_sign(op_events(ol, nl, op), '-') == op_deleted(op),
{
    lemma_count_rows(ol, op.1 as int, op.2 as int, ' ', '+');
    lemma_count_rows(ol, op.1 as int, op.2 as int, ' ', '-');
    lemma_count_rows(ol, op.1 as int, op.2 as int, '-', '+');
    lemma_count_rows(ol, op.1 as int, op.2 as int, '-', '-');
    lemma_count_rows(nl, op.3 as int, op.4 as int, '+', '+');
    lemma_count_rows(nl, op.3 as int, op.4 as int, '+', '-');
    let d = rows(ol, op.1 as int, op.2 as int, '-');
    let i = rows(nl, op.3 as int, op.4 as int, '+');
    lemma_count_concat(d, i, '+');
    lemma_count_concat(d, i, '-');
}

proof fn lemma_count_ops(ol: Seq<Seq<char>>, nl: Seq<Seq<char>>, g: Seq<(u8, usize, usize, usize, usize)>)
    requires
        forall|k: int| 0 <= k < g.len() ==> op_ok(#[trigger] g[k], ol.len(), nl.len()),
    ensures
        count_sign(ops_events(ol, nl, g), '+') == group_inserted(g),
        count_sign(ops_events(ol, nl, g), '-') == group_deleted(g),
    decreases g.len(),
{
    if g.len() > 0 {
        let init = g.drop_last();
        assert forall|k: int| 0 <= k < init.len() implies op_ok(#[trigger] init[k], ol.len(), nl.len()) by {
            assert(init[k] == g[k]);
        }
        lemma_count_ops(ol, nl, init);
        assert(op_ok(g[g.len() - 1], ol.len(), nl.len()));
        lemma_count_op(ol, nl, g.last());
        lemma_count_concat(ops_events(ol, nl, init), op_events(ol, nl, g.last()), '+');
        lemma_count_concat(ops_events(ol, nl, init), op_events(ol, nl, g.last()), '-');
    }
}

proof fn lemma_count_groups(ol: Seq<Seq<char>>, nl: Seq<Seq<char>>, gs: Seq<Seq<(u8, usize, usize, usize, usize)>>)
    requires
        groups_ok(gs, ol.len(), nl.len()),
    ensures
        count_sign(diff_events(ol, nl, gs), '+') == total_inserted(gs),
        count_sign(diff_events(ol, nl, gs), '-') == total_deleted(gs),
    decreases gs.len(),
{
    if gs.len() > 0 {
        let init = gs.drop_last();
        assert forall|i: int| 0 <= i < init.len() implies group_ok(#[trigger] init[i], ol.len(), nl.len()) by {
            assert(init[i] == gs[i]);
        }
        lemma_count_groups(ol, nl, init);
        let g = gs.last();
        assert(group_ok(gs[gs.len() - 1], ol.len(), nl.len()));
        lemma_count_ops(ol, nl, g);
        let h = seq![('@', hunk_header(g))];
        assert(h.drop_last() =~= Seq::<(char, Seq<char>)>::empty());
        assert(count_sign(h.drop_last(), '+') == 0);
        assert(count_sign(h.drop_last(), '-') == 0);
        assert(count_sign(h, '+') == 0);
        assert(count_sign(h, '-') == 0);
        lemma_count_concat(h, ops_events(ol, nl, g), '+');
        lemma_count_concat(h, ops_events(ol, nl, g), '-');
        lemma_count_concat(diff_events(ol, nl, init), group_events(ol, nl, g), '+');
        lemma_count_concat(diff_events(ol, nl, init), group_events(ol, nl, g), '-');
    }
}

/// A card that is not cut counts every change: its additions are all the
/// lines the diff inserts, its deletions all the lines it deletes.
pub proof fn law_uncut_card_counts_every_change(
    old_l: Seq<Seq<char>>,
    new_l: Seq<Seq<char>>,
    gs: Seq<Seq<(u8, usize, usize, usize, usize)>>,
)
    requires
        groups_ok(gs, old_l.len(), new_l.len()),
        !clipped(diff_events(old_l, new_l, gs)).3,
    ensures
        clipped(diff_events(old_l, new_l, gs)).1 == total_inserted(gs),
        clipped(diff_events(old_l, new_l, gs)).2 == total_deleted(gs),
{
    lemma_count_groups(old_l, new_l, gs);
}

} // verus!
