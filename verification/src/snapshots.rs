//! What changed between two snapshots of the machine: processes that died
//! or were born (by pid), connections that closed or opened.
use vstd::prelude::*;
use crate::local::{NetConnection, NetConnectionV, TaskEntry, TaskEntryV, task_views};
use crate::text::{append, chars_of, concat, dec, decimal, same};

verus! {

/// Lines listed per side of a diff.
pub const MAX_LISTED: usize = 50;

/// What a snapshot diff is asked for.
#[derive(Clone, Copy, Debug, PartialEq, Eq)]
pub enum DiffCategory {
    Tasks,
    Network,
}

/// The snapshot kind a category names: `tasks` or `processes`, `network`
/// or `ports`; anything else is refused.
pub fn diff_category(category: &str) -> (r: Result<DiffCategory, String>)
    ensures
        (category@ == "tasks"@ || category@ == "processes"@) ==> r matches Ok(DiffCategory::Tasks),
        !(category@ == "tasks"@ || category@ == "processes"@) && (category@ == "network"@ || category@ == "ports"@)
            ==> r matches Ok(DiffCategory::Network),
        !(category@ == "tasks"@ || category@ == "processes"@ || category@ == "network"@ || category@ == "ports"@)
            ==> (r matches Err(e) && e@ == "Categor\u{ed}a no soportada. Usa 'tasks' o 'network'."@),
{
    let c = chars_of(category);
    if same(&c, &chars_of("tasks")) || same(&c, &chars_of("processes")) {
        Ok(DiffCategory::Tasks)
    } else if same(&c, &chars_of("network")) || same(&c, &chars_of("ports")) {
        Ok(DiffCategory::Network)
    } else {
        Err(String::from_str("Categor\u{ed}a no soportada. Usa 'tasks' o 'network'."))
    }
}

// ── Processes ──────────────────────────────────────────────────────────

/// Some process of `ps` has pid `pid`.
pub open spec fn pid_in(ps: Seq<TaskEntryV>, pid: nat) -> bool {
    exists|i: int| 0 <= i < ps.len() && #[trigger] ps[i].1 == pid
}

/// The processes of `from` whose pid is nowhere in `other`, in order.
pub open spec fn tasks_missing(from: Seq<TaskEntryV>, other: Seq<TaskEntryV>) -> Seq<TaskEntryV>
    decreases from.len(),
{
    if from.len() == 0 {
        Seq::empty()
    } else if pid_in(other, from.last().1) {
        tasks_missing(from.drop_last(), other)
    } else {
        tasks_missing(from.drop_last(), other).push(from.last())
    }
}

/// A process that died.
pub open spec fn died_line(t: TaskEntryV) -> Seq<char> {
    "[-] MURI\u{d3}: "@ + t.0 + " (PID: "@ + decimal(t.1) + ")\n"@
}

/// A process that was born.
pub open spec fn born_line(t: TaskEntryV) -> Seq<char> {
    "[+] NACI\u{d3}: "@ + t.0 + " (PID: "@ + decimal(t.1) + ")\n"@
}

/// The process diff: the counts, then up to fifty processes that died and
/// up to fifty that were born.
pub open spec fn tasks_diff_text(prev: Seq<TaskEntryV>, curr: Seq<TaskEntryV>) -> Seq<char> {
    let died = tasks_missing(prev, curr);
    let born = tasks_missing(curr, prev);
    "--- DIFF DE PROCESOS ("@ + decimal(died.len()) + " murieron, "@ + decimal(born.len()) + " nacieron) ---\n"@
        + concat(died.take(vstd::math::min(died.len() as int, MAX_LISTED as int)).map_values(|t: TaskEntryV| died_line(t)))
        + concat(born.take(vstd::math::min(born.len() as int, MAX_LISTED as int)).map_values(|t: TaskEntryV| born_line(t)))
}

fn has_pid(ps: &Vec<TaskEntry>, pid: u32) -> (b: bool)
    ensures
        b == pid_in(task_views(ps@), pid as nat),
{
    let mut i: usize = 0;
    while i < ps.len()
        invariant
            i <= ps.len(),
            forall|j: int| 0 <= j < i ==> ps@[j].pid != pid,
        decreases ps.len() - i,
    {
        if ps[i].pid == pid {
            assert(task_views(ps@)[i as int].1 == pid as nat);
            return true;
        }
        i += 1;
    }
    proof {
        if pid_in(task_views(ps@), pid as nat) {
            let j = choose|j: int| 0 <= j < task_views(ps@).len() && #[trigger] task_views(ps@)[j].1 == pid as nat;
            assert(ps@[j].pid == pid);
        }
    }
    false
}

fn copy_task(t: &TaskEntry) -> (c: TaskEntry)
    ensures
        c.v() == t.v(),
{
    TaskEntry { name: t.name.clone(), pid: t.pid, session: t.session.clone(), mem_kb: t.mem_kb }
}

/// The processes of `from` whose pid is not in `other`.
fn missing_tasks(from: &Vec<TaskEntry>, other: &Vec<TaskEntry>) -> (r: Vec<TaskEntry>)
    ensures
        task_views(r@) == tasks_missing(task_views(from@), task_views(other@)),
{
    let ghost fv = task_views(from@);
    let ghost ov = task_views(other@);
    let mut r: Vec<TaskEntry> = Vec::new();
    let mut i: usize = 0;
    assert(fv.take(0) =~= Seq::<TaskEntryV>::empty());
    assert(task_views(r@) =~= Seq::<TaskEntryV>::empty());
    while i < from.len()
        invariant
            i <= from.len(),
            fv == task_views(from@),
            ov == task_views(other@),
            task_views(r@) == tasks_missing(fv.take(i as int), ov),
        decreases from.len() - i,
    {
        let t = &from[i];
        assert(fv.take(i + 1).drop_last() =~= fv.take(i as int));
        assert(fv.take(i + 1).last() == t.v());
        if !has_pid(other, t.pid) {
            let ghost before = task_views(r@);
            r.push(copy_task(t));
            assert(task_views(r@) =~= before.push(t.v()));
        }
        i += 1;
    }
    assert(fv.take(from.len() as int) =~= fv);
    r
}

fn task_line(prefix: &str, t: &TaskEntry) -> (r: String)
    ensures
        r@ == prefix@ + t.name@ + " (PID: "@ + decimal(t.pid as nat) + ")\n"@,
{
    let mut r = String::from_str(prefix);
    append(&mut r, t.name.as_str());
    append(&mut r, " (PID: ");
    append(&mut r, dec(t.pid as u64).as_str());
    append(&mut r, ")\n");
    r
}

/// The process diff between two listings.
pub fn tasks_diff(prev: &Vec<TaskEntry>, current: &Vec<TaskEntry>) -> (r: String)
    ensures
        r@ == tasks_diff_text(task_views(prev@), task_views(current@)),
{
    let died = missing_tasks(prev, current);
    let born = missing_tasks(current, prev);
    let ghost dv = task_views(died@);
    let ghost bv = task_views(born@);
    let mut out = String::from_str("--- DIFF DE PROCESOS (");
    append(&mut out, dec(died.len() as u64).as_str());
    append(&mut out, " murieron, ");
    append(&mut out, dec(born.len() as u64).as_str());
    append(&mut out, " nacieron) ---\n");
    let ghost head = out@;
    let nd = if died.len() < MAX_LISTED { died.len() } else { MAX_LISTED };
    let mut k: usize = 0;
    assert(dv.take(0).map_values(|t: TaskEntryV| died_line(t)) =~= Seq::<Seq<char>>::empty());
    while k < nd
        invariant
            k <= nd,
            nd <= died.len(),
            dv == task_views(died@),
            out@ == head + concat(dv.take(k as int).map_values(|t: TaskEntryV| died_line(t))),
        decreases nd - k,
    {
        let line = task_line("[-] MURI\u{d3}: ", &died[k]);
        assert(dv[k as int] == died@[k as int].v());
        append(&mut out, line.as_str());
        assert(dv.take(k + 1).map_values(|t: TaskEntryV| died_line(t)).drop_last()
            =~= dv.take(k as int).map_values(|t: TaskEntryV| died_line(t)));
        assert(line@ =~= died_line(dv[k as int]));
        k += 1;
    }
    let ghost mid = out@;
    let nb = if born.len() < MAX_LISTED { born.len() } else { MAX_LISTED };
    let mut k: usize = 0;
    assert(bv.take(0).map_values(|t: TaskEntryV| born_line(t)) =~= Seq::<Seq<char>>::empty());
    while k < nb
        invariant
            k <= nb,
            nb <= born.len(),
            bv == task_views(born@),
            out@ == mid + concat(bv.take(k as int).map_values(|t: TaskEntryV| born_line(t))),
        decreases nb - k,
    {
        let line = task_line("[+] NACI\u{d3}: ", &born[k]);
        assert(bv[k as int] == born@[k as int].v());
        append(&mut out, line.as_str());
        assert(bv.take(k + 1).map_values(|t: TaskEntryV| born_line(t)).drop_last()
            =~= bv.take(k as int).map_values(|t: TaskEntryV| born_line(t)));
        assert(line@ =~= born_line(bv[k as int]));
        k += 1;
    }
    proof {
        assert(out@ =~= tasks_diff_text(task_views(prev@), task_views(current@)));
    }
    out
}

/// What the process diff answers: the diff against the previous listing,
/// or, on the first call, that the snapshot was taken.
pub fn tasks_snapshot_reply(prev: Option<&Vec<TaskEntry>>, current: &Vec<TaskEntry>) -> (r: String)
    ensures
        r@ == match prev {
            Some(p) => tasks_diff_text(task_views(p@), task_views(current@)),
            None => "SNAPSHOT INICIAL DE PROCESOS ESTABLECIDA. Realiza tus comandos y vuelve a llamar a system_diff."@,
        },
{
    match prev {
        Some(p) => tasks_diff(p, current),
        None => String::from_str("SNAPSHOT INICIAL DE PROCESOS ESTABLECIDA. Realiza tus comandos y vuelve a llamar a system_diff."),
    }
}

// ── Connections ────────────────────────────────────────────────────────

/// The plain values of a connection list.
pub open spec fn conn_views(v: Seq<NetConnection>) -> Seq<NetConnectionV> {
    v.map_values(|c: NetConnection| c.v())
}

/// The distinct connections of `from` that are not in `other`, each where
/// it first appears.
pub open spec fn conns_missing(from: Seq<NetConnectionV>, other: Seq<NetConnectionV>) -> Seq<NetConnectionV>
    decreases from.len(),
{
    if from.len() == 0 {
        Seq::empty()
    } else if other.contains(from.last()) || from.drop_last().contains(from.last()) {
        conns_missing(from.drop_last(), other)
    } else {
        conns_missing(from.drop_last(), other).push(from.last())
    }
}

/// How a pid prints with `{:?}`.
pub open spec fn pid_debug(pid: Option<nat>) -> Seq<char> {
    match pid {
        Some(p) => "Some("@ + decimal(p) + ")"@,
        None => "None"@,
    }
}

/// A connection line after `prefix`.
pub open spec fn conn_line(prefix: Seq<char>, c: NetConnectionV) -> Seq<char> {
    prefix + c.0 + " "@ + c.1 + ":"@ + decimal(c.2) + " -> "@ + c.3 + ":"@ + decimal(c.4) + " (PID: "@ + pid_debug(c.6)
        + ")\n"@
}

/// The network diff: the counts, then up to fifty connections that closed
/// and up to fifty that opened.
pub open spec fn network_diff_text(prev: Seq<NetConnectionV>, curr: Seq<NetConnectionV>) -> Seq<char> {
    let closed = conns_missing(prev, curr);
    let opened = conns_missing(curr, prev);
    "--- DIFF DE RED ("@ + decimal(closed.len()) + " cerradas, "@ + decimal(opened.len()) + " abiertas) ---\n"@
        + concat(closed.take(vstd::math::min(closed.len() as int, MAX_LISTED as int)).map_values(|c: NetConnectionV| conn_line("[-] CERR\u{d3}: "@, c)))
        + concat(opened.take(vstd::math::min(opened.len() as int, MAX_LISTED as int)).map_values(|c: NetConnectionV| conn_line("[+] ABRI\u{d3}: "@, c)))
}

fn same_conn(a: &NetConnection, b: &NetConnection) -> (r: bool)
    ensures
        r == (a.v() == b.v()),
{
    let p = same(&chars_of(a.protocol.as_str()), &chars_of(b.protocol.as_str()));
    let la = same(&chars_of(a.local_addr.as_str()), &chars_of(b.local_addr.as_str()));
    let ra = same(&chars_of(a.remote_addr.as_str()), &chars_of(b.remote_addr.as_str()));
    let st = same(&chars_of(a.state.as_str()), &chars_of(b.state.as_str()));
    let pid = match (a.pid, b.pid) {
        (Some(x), Some(y)) => x == y,
        (None, None) => true,
        _ => false,
    };
    p && la && a.local_port == b.local_port && ra && a.remote_port == b.remote_port && st && pid
}

fn has_conn(cs: &Vec<NetConnection>, upto: usize, c: &NetConnection) -> (r: bool)
    requires
        upto <= cs.len(),
    ensures
        r == conn_views(cs@).take(upto as int).contains(c.v()),
{
    let ghost cv = conn_views(cs@).take(upto as int);
    let mut i: usize = 0;
    while i < upto
        invariant
            i <= upto <= cs.len(),
            cv == conn_views(cs@).take(upto as int),
            forall|j: int| 0 <= j < i ==> cv[j] != c.v(),
        decreases upto - i,
    {
        if same_conn(&cs[i], c) {
            assert(cv[i as int] == c.v());
            return true;
        }
        i += 1;
    }
    false
}

fn copy_conn(c: &NetConnection) -> (r: NetConnection)
    ensures
        r.v() == c.v(),
{
    NetConnection {
        protocol: c.protocol.clone(),
        local_addr: c.local_addr.clone(),
        local_port: c.local_port,
        remote_addr: c.remote_addr.clone(),
        remote_port: c.remote_port,
        state: c.state.clone(),
        pid: c.pid,
    }
}

fn missing_conns(from: &Vec<NetConnection>, other: &Vec<NetConnection>) -> (r: Vec<NetConnection>)
    ensures
        conn_views(r@) == conns_missing(conn_views(from@), conn_views(other@)),
{
    let ghost fv = conn_views(from@);
    let ghost ov = conn_views(other@);
    let mut r: Vec<NetConnection> = Vec::new();
    let mut i: usize = 0;
    assert(fv.take(0) =~= Seq::<NetConnectionV>::empty());
    assert(conn_views(r@) =~= Seq::<NetConnectionV>::empty());
    while i < from.len()
        invariant
            i <= from.len(),
            fv == conn_views(from@),
            ov == conn_views(other@),
            conn_views(r@) == conns_missing(fv.take(i as int), ov),
        decreases from.len() - i,
    {
        let c = &from[i];
        assert(fv.take(i + 1).drop_last() =~= fv.take(i as int));
        assert(fv.take(i + 1).last() == c.v());
        assert(conn_views(other@).take(other.len() as int) =~= ov);
        assert(fv.take(i as int) =~= conn_views(from@).take(i as int));
        if !has_conn(other, other.len(), c) && !has_conn(from, i, c) {
            let ghost before = conn_views(r@);
            r.push(copy_conn(c));
            assert(conn_views(r@) =~= before.push(c.v()));
        }
        i += 1;
    }
    assert(fv.take(from.len() as int) =~= fv);
    r
}

fn conn_line_of(prefix: &str, c: &NetConnection) -> (r: String)
    ensures
        r@ == conn_line(prefix@, c.v()),
{
    let mut r = String::from_str(prefix);
    append(&mut r, c.protocol.as_str());
    append(&mut r, " ");
    append(&mut r, c.local_addr.as_str());
    append(&mut r, ":");
    append(&mut r, dec(c.local_port as u64).as_str());
    append(&mut r, " -> ");
    append(&mut r, c.remote_addr.as_str());
    append(&mut r, ":");
    append(&mut r, dec(c.remote_port as u64).as_str());
    append(&mut r, " (PID: ");
    match c.pid {
        Some(p) => {
            append(&mut r, "Some(");
            append(&mut r, dec(p as u64).as_str());
            append(&mut r, ")");
        },
        None => {
            append(&mut r, "None");
        },
    }
    append(&mut r, ")\n");
    assert(r@ =~= conn_line(prefix@, c.v()));
    r
}

fn push_conn_lines(out: &mut String, cs: &Vec<NetConnection>, prefix: &str)
    ensures
        final(out)@ == old(out)@ + concat(
            conn_views(cs@).take(vstd::math::min(cs@.len() as int, MAX_LISTED as int)).map_values(
                |c: NetConnectionV| conn_line(prefix@, c),
            ),
        ),
{
    let ghost cv = conn_views(cs@);
    let ghost start = out@;
    let n = if cs.len() < MAX_LISTED { cs.len() } else { MAX_LISTED };
    let mut k: usize = 0;
    assert(cv.take(0).map_values(|c: NetConnectionV| conn_line(prefix@, c)) =~= Seq::<Seq<char>>::empty());
    while k < n
        invariant
            k <= n,
            n <= cs.len(),
            n == vstd::math::min(cs@.len() as int, MAX_LISTED as int),
            cv == conn_views(cs@),
            out@ == start + concat(cv.take(k as int).map_values(|c: NetConnectionV| conn_line(prefix@, c))),
        decreases n - k,
    {
        let line = conn_line_of(prefix, &cs[k]);
        assert(cv[k as int] == cs@[k as int].v());
        append(out, line.as_str());
        assert(cv.take(k + 1).map_values(|c: NetConnectionV| conn_line(prefix@, c)).drop_last()
            =~= cv.take(k as int).map_values(|c: NetConnectionV| conn_line(prefix@, c)));
        k += 1;
    }
}

/// The network diff between two listings.
pub fn network_diff(prev: &Vec<NetConnection>, current: &Vec<NetConnection>) -> (r: String)
    ensures
        r@ == network_diff_text(conn_views(prev@), conn_views(current@)),
{
    let closed = missing_conns(prev, current);
    let opened = missing_conns(current, prev);
    let mut out = String::from_str("--- DIFF DE RED (");
    append(&mut out, dec(closed.len() as u64).as_str());
    append(&mut out, " cerradas, ");
    append(&mut out, dec(opened.len() as u64).as_str());
    append(&mut out, " abiertas) ---\n");
    push_conn_lines(&mut out, &closed, "[-] CERR\u{d3}: ");
    push_conn_lines(&mut out, &opened, "[+] ABRI\u{d3}: ");
    proof {
        assert(out@ =~= network_diff_text(conn_views(prev@), conn_views(current@)));
    }
    out
}

/// What the network diff answers: the diff against the previous listing,
/// or, on the first call, that the snapshot was taken.
pub fn network_snapshot_reply(prev: Option<&Vec<NetConnection>>, current: &Vec<NetConnection>) -> (r: String)
    ensures
        r@ == match prev {
            Some(p) => network_diff_text(conn_views(p@), conn_views(current@)),
            None => "SNAPSHOT INICIAL DE RED ESTABLECIDA. Realiza tus comandos y vuelve a llamar a system_diff."@,
        },
{
    match prev {
        Some(p) => network_diff(p, current),
        None => String::from_str("SNAPSHOT INICIAL DE RED ESTABLECIDA. Realiza tus comandos y vuelve a llamar a system_diff."),
    }
}

// ── Laws ───────────────────────────────────────────────────────────────

/// The closed (or, swapped, the opened) connections of a network diff are
/// exactly the connections of the old listing that are not in the new one,
/// each listed once, so the count printed is the size of that difference.
pub proof fn law_network_diff_is_set_difference(prev: Seq<NetConnectionV>, curr: Seq<NetConnectionV>)
    ensures
        conns_missing(prev, curr).no_duplicates(),
        conns_missing(prev, curr).to_set() == prev.to_set().difference(curr.to_set()),
        conns_missing(prev, curr).len() == prev.to_set().difference(curr.to_set()).len(),
    decreases prev.len(),
{
    let r = conns_missing(prev, curr);
    if prev.len() == 0 {
        assert(r.to_set() =~= prev.to_set().difference(curr.to_set()));
    } else {
        let dl = prev.drop_last();
        let c = prev.last();
        law_network_diff_is_set_difference(dl, curr);
        let rd = conns_missing(dl, curr);
        assert(prev =~= dl.push(c));
        assert(prev.to_set() =~= dl.to_set().insert(c)) by {
            assert forall|x: NetConnectionV| prev.to_set().contains(x) <==> dl.to_set().insert(c).contains(x) by {
                if prev.contains(x) && x != c {
                    let j = choose|j: int| 0 <= j < prev.len() && prev[j] == x;
                    assert(dl[j] == x);
                }
                if dl.contains(x) {
                    let j = choose|j: int| 0 <= j < dl.len() && dl[j] == x;
                    assert(prev[j] == x);
                }
                if x == c {
                    assert(prev[prev.len() - 1] == x);
                }
            }
        }
        if curr.contains(c) || dl.contains(c) {
            assert(r == rd);
            assert(r.to_set() =~= prev.to_set().difference(curr.to_set()));
        } else {
            assert(r == rd.push(c));
            assert(!rd.to_set().contains(c));
            assert(!rd.contains(c));
            assert forall|i: int, j: int| 0 <= i < r.len() && 0 <= j < r.len() && i != j implies r[i] != r[j] by {
                if i < rd.len() && j < rd.len() {
                    assert(r[i] == rd[i] && r[j] == rd[j]);
                } else if i == rd.len() {
                    assert(r[j] == rd[j]);
                    assert(rd.contains(rd[j]));
                } else {
                    assert(r[i] == rd[i]);
                    assert(rd.contains(rd[i]));
                }
            }
            assert(r.to_set() =~= rd.to_set().insert(c)) by {
                assert forall|x: NetConnectionV| r.to_set().contains(x) <==> rd.to_set().insert(c).contains(x) by {
                    if r.contains(x) && x != c {
                        let j = choose|j: int| 0 <= j < r.len() && r[j] == x;
                        assert(rd[j] == x);
                    }
                    if rd.contains(x) {
                        let j = choose|j: int| 0 <= j < rd.len() && rd[j] == x;
                        assert(r[j] == x);
                    }
                    if x == c {
                        assert(r[r.len() - 1] == x);
                    }
                }
            }
            assert(r.to_set() =~= prev.to_set().difference(curr.to_set()));
        }
    }
    r.unique_seq_to_set();
}

} // verus!
