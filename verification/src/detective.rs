//! The incident detective's window around a symptom and its summary of the
//! files modified in it.
use vstd::prelude::*;
use crate::log_analysis::{count_keys, tally_keys, tally_views};
use crate::text::{append, dec, decimal, views};

verus! {

/// The window around the symptom, in seconds: five minutes unless given,
/// kept within half a minute and two hours.
pub open spec fn window_spec(window_sec: Option<i64>) -> int {
    let w = match window_sec {
        Some(w) => w as int,
        None => 300,
    };
    if w < 30 {
        30
    } else if w > 7200 {
        7200
    } else {
        w
    }
}

/// The window around the symptom, in seconds.
pub fn detective_window(window_sec: Option<i64>) -> (w: i64)
    ensures
        w == window_spec(window_sec),
        30 <= w <= 7200,
{
    let w = match window_sec {
        Some(w) => w,
        None => 300,
    };
    if w < 30 {
        30
    } else if w > 7200 {
        7200
    } else {
        w
    }
}

/// How far back the threat scan looks, in minutes: twice the window, and
/// at least five minutes.
pub fn threat_scan_minutes(window: i64) -> (m: i64)
    requires
        30 <= window <= 7200,
    ensures
        m == (if (window * 2) / 60 < 5 { 5 } else { (window * 2) / 60 }),
{
    let m = (window * 2) / 60;
    if m < 5 {
        5
    } else {
        m
    }
}

/// The first entry of a tally with the largest count.
pub open spec fn top_entry(t: Seq<(Seq<char>, nat)>) -> (Seq<char>, nat)
    decreases t.len(),
{
    if t.len() <= 1 {
        t[0]
    } else if t.last().1 > top_entry(t.drop_last()).1 {
        t.last()
    } else {
        top_entry(t.drop_last())
    }
}

/// The summary of the files modified in the window (each given by its
/// parent directory and extension): how many, the directory holding most
/// of them and, unless empty, the most common extension; ties go to the
/// first seen.
pub open spec fn cluster_summary_spec(files: Seq<(Seq<char>, Seq<char>)>) -> Seq<char> {
    if files.len() == 0 {
        "no indexed file changes in window"@
    } else {
        let d = top_entry(tally_keys(files.map_values(|f: (Seq<char>, Seq<char>)| f.0), false));
        let e = top_entry(tally_keys(files.map_values(|f: (Seq<char>, Seq<char>)| f.1), false));
        let ext_part = if e.0.len() == 0 {
            Seq::<char>::empty()
        } else {
            " \u{b7} mostly ."@ + e.0 + " ("@ + decimal(e.1) + "\u{d7})"@
        };
        decimal(files.len()) + " files, top dir: "@ + d.0 + " ("@ + decimal(d.1) + "\u{d7})"@ + ext_part
    }
}

fn top_of(t: &Vec<(String, usize)>) -> (r: (String, usize))
    requires
        t.len() > 0,
    ensures
        (r.0@, r.1 as nat) == top_entry(tally_views(t@)),
{
    let ghost tv = tally_views(t@);
    let mut best: usize = 0;
    let mut i: usize = 1;
    assert(tv.take(1) =~= seq![tv[0]]);
    while i < t.len()
        invariant
            1 <= i <= t.len(),
            best < i,
            tv == tally_views(t@),
            tv[best as int] == top_entry(tv.take(i as int)),
        decreases t.len() - i,
    {
        assert(tv.take(i + 1).drop_last() =~= tv.take(i as int));
        assert(tv.take(i + 1).last() == tv[i as int]);
        if t[i].1 > t[best].1 {
            best = i;
        }
        i += 1;
    }
    assert(tv.take(t.len() as int) =~= tv);
    (t[best].0.clone(), t[best].1)
}

/// The summary of the files modified in the window, each given by its
/// parent directory and extension.
pub fn cluster_summary(files: &Vec<(String, String)>) -> (r: String)
    ensures
        r@ == cluster_summary_spec(files@.map_values(|f: (String, String)| (f.0@, f.1@))),
{
    let ghost fv = files@.map_values(|f: (String, String)| (f.0@, f.1@));
    if files.len() == 0 {
        return String::from_str("no indexed file changes in window");
    }
    let mut dirs: Vec<String> = Vec::new();
    let mut exts: Vec<String> = Vec::new();
    let mut i: usize = 0;
    while i < files.len()
        invariant
            i <= files.len(),
            fv == files@.map_values(|f: (String, String)| (f.0@, f.1@)),
            views(dirs@) == fv.take(i as int).map_values(|f: (Seq<char>, Seq<char>)| f.0),
            views(exts@) == fv.take(i as int).map_values(|f: (Seq<char>, Seq<char>)| f.1),
        decreases files.len() - i,
    {
        let ghost d0 = views(dirs@);
        let ghost e0 = views(exts@);
        dirs.push(files[i].0.clone());
        exts.push(files[i].1.clone());
        assert(fv[i as int] == (files@[i as int].0@, files@[i as int].1@));
        assert(views(dirs@) =~= d0.push(files@[i as int].0@));
        assert(views(exts@) =~= e0.push(files@[i as int].1@));
        assert(fv.take(i + 1).map_values(|f: (Seq<char>, Seq<char>)| f.0)
            =~= fv.take(i as int).map_values(|f: (Seq<char>, Seq<char>)| f.0).push(fv[i as int].0));
        assert(fv.take(i + 1).map_values(|f: (Seq<char>, Seq<char>)| f.1)
            =~= fv.take(i as int).map_values(|f: (Seq<char>, Seq<char>)| f.1).push(fv[i as int].1));
        assert(views(dirs@) =~= fv.take(i + 1).map_values(|f: (Seq<char>, Seq<char>)| f.0));
        assert(views(exts@) =~= fv.take(i + 1).map_values(|f: (Seq<char>, Seq<char>)| f.1));
        i += 1;
    }
    assert(fv.take(files.len() as int) =~= fv);
    let dc = count_keys(&dirs, false);
    let ec = count_keys(&exts, false);
    proof {
        lemma_tally_nonempty(views(dirs@));
        lemma_tally_nonempty(views(exts@));
    }
    let (d, dn) = top_of(&dc);
    let (e, en) = top_of(&ec);
    let mut r = dec(files.len() as u64);
    append(&mut r, " files, top dir: ");
    append(&mut r, d.as_str());
    append(&mut r, " (");
    append(&mut r, dec(dn as u64).as_str());
    append(&mut r, "\u{d7})");
    if e.as_str().as_bytes().len() > 0 {
        append(&mut r, " \u{b7} mostly .");
        append(&mut r, e.as_str());
        append(&mut r, " (");
        append(&mut r, dec(en as u64).as_str());
        append(&mut r, "\u{d7})");
    } else {
        proof {
            vstd::utf8::encode_utf8_decode_utf8(e@);
        }
    }
    proof {
        if e@.len() > 0 {
            vstd::utf8::encode_utf8_decode_utf8(e@);
        }
    }
    r
}

proof fn lemma_tally_nonempty(keys: Seq<Seq<char>>)
    requires
        keys.len() > 0,
    ensures
        tally_keys(keys, false).len() > 0,
    decreases keys.len(),
{
    if keys.len() > 1 {
        lemma_tally_nonempty(keys.drop_last());
        let t = tally_keys(keys.drop_last(), false);
        let k = keys.last();
        if exists|i: int| 0 <= i < t.len() && t[i].0 == k {
            let i = choose|i: int| 0 <= i < t.len() && t[i].0 == k;
            assert(t.update(i, (k, t[i].1 + 1)).len() == t.len());
        }
    }
}

} // verus!
