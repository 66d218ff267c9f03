//! Local execution guards: the sensitive-path blocklist, the argument
//! tokenizer handed to `wmic`/`netsh`/`reg`, and the command blocklists.
use vstd::prelude::*;
use crate::text::{
    ascii_lower, starts_with, ends_with, chars_of, lower_chars, has_prefix, has_suffix,
    string_of_range, copy_str, append, str_views,
};

verus! {

/// Credential and secret stores under the user's profile (lowercase,
/// appended to the lowercased profile path).
pub open spec fn secret_subpaths() -> Seq<Seq<char>> {
    seq![
        r"\.ssh\"@,
        r"\.aws\credentials"@,
        r"\.azure\"@,
        r"\appdata\local\google\chrome\user data\default\login data"@,
        r"\appdata\roaming\microsoft\credentials\"@,
        r"\appdata\roaming\microsoft\protect\"@,
        r"\appdata\local\microsoft\vault\"@,
        r"\appdata\roaming\lucy\"@,
    ]
}

fn secret_subpath_list() -> (v: Vec<&'static str>)
    ensures
        str_views(v@) == secret_subpaths(),
{
    let v = vec![
        r"\.ssh\",
        r"\.aws\credentials",
        r"\.azure\",
        r"\appdata\local\google\chrome\user data\default\login data",
        r"\appdata\roaming\microsoft\credentials\",
        r"\appdata\roaming\microsoft\protect\",
        r"\appdata\local\microsoft\vault\",
        r"\appdata\roaming\lucy\",
    ];
    assert(str_views(v@) =~= secret_subpaths());
    v
}

/// Windows system directories (lowercase prefixes).
pub open spec fn system_blocklist() -> Seq<Seq<char>> {
    seq![
        r"c:\windows\"@,
        r"c:\program files\"@,
        r"c:\program files (x86)\"@,
        r"c:\programdata\microsoft\"@,
        r"c:\$recycle.bin\"@,
        r"c:\system volume information\"@,
    ]
}

fn system_block_list() -> (v: Vec<&'static str>)
    ensures
        str_views(v@) == system_blocklist(),
{
    let v = vec![
        r"c:\windows\",
        r"c:\program files\",
        r"c:\program files (x86)\",
        r"c:\programdata\microsoft\",
        r"c:\$recycle.bin\",
        r"c:\system volume information\",
    ];
    assert(str_views(v@) =~= system_blocklist());
    v
}

/// Some element of `list` is a prefix of `s`.
pub open spec fn any_prefix(s: Seq<char>, list: Seq<Seq<char>>) -> bool {
    exists|j: int| 0 <= j < list.len() && starts_with(s, list[j])
}

/// Does `canon_lower` fall inside one of the user's credential stores?
pub open spec fn in_secret_store(canon_lower: Seq<char>, profile_lower: Seq<char>) -> bool {
    profile_lower.len() > 0 && exists|j: int|
        0 <= j < secret_subpaths().len() && starts_with(
            canon_lower,
            profile_lower + secret_subpaths()[j],
        )
}

/// `canonical` without its verbatim `\\?\` prefix.
pub open spec fn strip_verbatim(canonical: Seq<char>) -> Seq<char> {
    if starts_with(canonical, r"\\?\"@) {
        canonical.subrange(r"\\?\"@.len() as int, canonical.len() as int)
    } else {
        canonical
    }
}

/// Why a canonical path is refused, if it is.
pub open spec fn block_reason(canonical: Seq<char>, profile_lower: Seq<char>, for_write: bool) -> Option<
    Seq<char>,
> {
    let lower = ascii_lower(strip_verbatim(canonical));
    if any_prefix(lower, system_blocklist()) {
        Some("Path bloqueado por política: "@ + canonical + " (área de sistema)"@)
    } else if in_secret_store(lower, profile_lower) {
        Some("Path bloqueado por política: "@ + canonical + " (almacén de credenciales)"@)
    } else if for_write && ends_with(lower, r"\drivers\etc\hosts"@) {
        Some("Escritura bloqueada: archivo HOSTS del sistema."@)
    } else {
        None
    }
}

fn any_prefix_exec(s: &Vec<char>, list: &Vec<&str>) -> (r: bool)
    ensures
        r == any_prefix(s@, str_views(list@)),
{
    let mut i: usize = 0;
    while i < list.len()
        invariant
            i <= list.len(),
            forall|j: int| 0 <= j < i ==> !starts_with(s@, list@[j]@),
        decreases list.len() - i,
    {
        let p = chars_of(list[i]);
        if has_prefix(s, &p) {
            assert(starts_with(s@, str_views(list@)[i as int]));
            return true;
        }
        i += 1;
    }
    proof {
        if any_prefix(s@, str_views(list@)) {
            let j = choose|j: int| 0 <= j < str_views(list@).len() && starts_with(s@, str_views(list@)[j]);
            assert(str_views(list@)[j] == list@[j]@);
        }
    }
    false
}

/// True if `canon_lower` (lowercased, `\\?\`-stripped, absolute) falls
/// inside one of the credential stores under the lowercased user profile;
/// never when the profile is unknown (empty).
pub fn is_secret_store_subpath(canon_lower: &str, userprofile_lower: &str) -> (r: bool)
    ensures
        r == in_secret_store(canon_lower@, userprofile_lower@),
{
    let up = chars_of(userprofile_lower);
    if up.len() == 0 {
        return false;
    }
    let c = chars_of(canon_lower);
    let list = secret_subpath_list();
    let mut i: usize = 0;
    while i < list.len()
        invariant
            i <= list.len(),
            c@ == canon_lower@,
            up@ == userprofile_lower@,
            up@.len() > 0,
            str_views(list@) == secret_subpaths(),
            forall|j: int| 0 <= j < i ==> !starts_with(c@, up@ + secret_subpaths()[j]),
        decreases list.len() - i,
    {
        let mut full = copy_str(userprofile_lower);
        append(&mut full, list[i]);
        let fv = chars_of(full.as_str());
        assert(list@[i as int]@ == secret_subpaths()[i as int]);
        if has_prefix(&c, &fv) {
            assert(starts_with(c@, up@ + secret_subpaths()[i as int]));
            return true;
        }
        i += 1;
    }
    false
}

/// Why a canonicalized path must not be read (or, with `for_write`,
/// written): a Windows system directory, a credential store under the user
/// profile, or (writes only) the HOSTS file. Matching ignores ASCII case and
/// a leading `\\?\` verbatim prefix; the message quotes the path as given.
pub fn sensitive_path_block_reason(
    canonical_display: &str,
    userprofile_lower: &str,
    for_write: bool,
) -> (r: Option<String>)
    ensures
        match r {
            Some(m) => block_reason(canonical_display@, userprofile_lower@, for_write) == Some(m@),
            None => block_reason(canonical_display@, userprofile_lower@, for_write) is None,
        },
{
    let full = chars_of(canonical_display);
    let verbatim = chars_of(r"\\?\");
    let norm = if has_prefix(&full, &verbatim) {
        string_of_range(&full, verbatim.len(), full.len())
    } else {
        string_of_range(&full, 0, full.len())
    };
    assert(full@.subrange(0, full@.len() as int) =~= full@);
    let nv = chars_of(norm.as_str());
    let lower = lower_chars(&nv);
    let sys = system_block_list();
    if any_prefix_exec(&lower, &sys) {
        let mut m = copy_str("Path bloqueado por política: ");
        append(&mut m, canonical_display);
        append(&mut m, " (área de sistema)");
        return Some(m);
    }
    let lower_s = crate::text::string_of(&lower);
    if is_secret_store_subpath(lower_s.as_str(), userprofile_lower) {
        let mut m = copy_str("Path bloqueado por política: ");
        append(&mut m, canonical_display);
        append(&mut m, " (almacén de credenciales)");
        return Some(m);
    }
    let hosts = chars_of(r"\drivers\etc\hosts");
    if for_write && has_suffix(&lower, &hosts) {
        return Some(copy_str("Escritura bloqueada: archivo HOSTS del sistema."));
    }
    None
}

} // verus!

verus! {

/// The argument tokenizer as a state machine over the input from index `i`,
/// with the arguments found so far, the argument being built, and whether a
/// double quote is open. `\"` and `\\` are escapes for a literal `"` and `\`
/// (they do not toggle quoting); quotes toggle quoting and are kept; spaces
/// outside quotes separate arguments; empty arguments are never emitted.
pub open spec fn args_from(
    s: Seq<char>,
    i: int,
    args: Seq<Seq<char>>,
    cur: Seq<char>,
    inq: bool,
) -> Seq<Seq<char>>
    decreases s.len() - i,
{
    if i >= s.len() || i < 0 {
        if cur.len() > 0 {
            args.push(cur)
        } else {
            args
        }
    } else if s[i] == '\\' {
        if i + 1 < s.len() && s[i + 1] == '"' {
            args_from(s, i + 2, args, cur.push('"'), inq)
        } else if i + 1 < s.len() && s[i + 1] == '\\' {
            args_from(s, i + 2, args, cur.push('\\'), inq)
        } else {
            args_from(s, i + 1, args, cur.push('\\'), inq)
        }
    } else if s[i] == '"' {
        args_from(s, i + 1, args, cur.push('"'), !inq)
    } else if s[i] == ' ' && !inq {
        if cur.len() > 0 {
            args_from(s, i + 1, args.push(cur), Seq::empty(), inq)
        } else {
            args_from(s, i + 1, args, cur, inq)
        }
    } else {
        args_from(s, i + 1, args, cur.push(s[i]), inq)
    }
}

/// The arguments `parse_args` splits `s` into.
pub open spec fn parsed_args(s: Seq<char>) -> Seq<Seq<char>> {
    args_from(s, 0, Seq::empty(), Seq::empty(), false)
}

/// Split a command line into arguments, honouring double quotes (which are
/// kept in the argument for the downstream process) and the escapes `\"`
/// and `\\`; other backslashes are kept verbatim.
pub fn parse_args(input: &str) -> (r: Vec<String>)
    ensures
        r@.map_values(|a: String| a@) == parsed_args(input@),
{
    let s = chars_of(input);
    let mut args: Vec<String> = Vec::new();
    let mut cur: Vec<char> = Vec::new();
    let mut inq = false;
    let mut i: usize = 0;
    assert(args@.map_values(|a: String| a@) =~= Seq::<Seq<char>>::empty());
    assert(cur@ =~= Seq::<char>::empty());
    while i < s.len()
        invariant
            i <= s.len(),
            s@ == input@,
            parsed_args(input@) == args_from(
                s@,
                i as int,
                args@.map_values(|a: String| a@),
                cur@,
                inq,
            ),
        decreases s.len() - i,
    {
        let c = s[i];
        if c == '\\' {
            if i + 1 < s.len() && s[i + 1] == '"' {
                cur.push('"');
                i += 2;
            } else if i + 1 < s.len() && s[i + 1] == '\\' {
                cur.push('\\');
                i += 2;
            } else {
                cur.push('\\');
                i += 1;
            }
        } else if c == '"' {
            inq = !inq;
            cur.push('"');
            i += 1;
        } else if c == ' ' && !inq {
            if cur.len() > 0 {
                let a = crate::text::string_of(&cur);
                let ghost old_args = args@;
                args.push(a);
                assert(args@.map_values(|a: String| a@) =~= old_args.map_values(|a: String| a@).push(
                    cur@,
                ));
                cur = Vec::new();
                assert(cur@ =~= Seq::<char>::empty());
            }
            i += 1;
        } else {
            cur.push(c);
            i += 1;
        }
    }
    if cur.len() > 0 {
        let a = crate::text::string_of(&cur);
        let ghost old_args = args@;
        args.push(a);
        assert(args@.map_values(|a: String| a@) =~= old_args.map_values(|a: String| a@).push(cur@));
    }
    args
}

} // verus!

verus! {

// ── netstat -ano ───────────────────────────────────────────────────────

/// One active connection as `netstat -ano` reports it.
#[derive(Clone, Debug, PartialEq, Eq, Hash)]
pub struct NetConnection {
    pub protocol: String,
    pub local_addr: String,
    pub local_port: u16,
    pub remote_addr: String,
    pub remote_port: u16,
    pub state: String,
    pub pid: Option<u32>,
}

/// A connection as plain values: protocol, local address and port, remote
/// address and port, state, process id.
pub type NetConnectionV = (Seq<char>, Seq<char>, nat, Seq<char>, nat, Seq<char>, Option<nat>);

impl NetConnection {
    pub open spec fn v(&self) -> NetConnectionV {
        (
            self.protocol@,
            self.local_addr@,
            self.local_port as nat,
            self.remote_addr@,
            self.remote_port as nat,
            self.state@,
            match self.pid {
                Some(p) => Some(p as nat),
                None => None,
            },
        )
    }
}

/// Index of the last occurrence of `c` in `s`.
pub open spec fn last_index_of(s: Seq<char>, c: char) -> Option<int>
    decreases s.len(),
{
    if s.len() == 0 {
        None
    } else if s.last() == c {
        Some(s.len() - 1)
    } else {
        last_index_of(s.drop_last(), c)
    }
}

pub open spec fn is_bracket(c: char) -> bool {
    c == '[' || c == ']'
}

/// Number of leading brackets of `s`.
pub open spec fn lead_brackets(s: Seq<char>) -> nat
    decreases s.len(),
{
    if s.len() > 0 && is_bracket(s[0]) {
        1 + lead_brackets(s.drop_first())
    } else {
        0
    }
}

/// Number of trailing brackets of `s`.
pub open spec fn trail_brackets(s: Seq<char>) -> nat
    decreases s.len(),
{
    if s.len() > 0 && is_bracket(s.last()) {
        1 + trail_brackets(s.drop_last())
    } else {
        0
    }
}

/// `s` without leading and trailing `[`/`]` (what `trim_matches` gives).
pub open spec fn trim_brackets(s: Seq<char>) -> Seq<char> {
    let a = lead_brackets(s) as int;
    if a == s.len() {
        Seq::empty()
    } else {
        s.subrange(a, s.len() - trail_brackets(s) as int)
    }
}

/// Address and port of `addr:port`; the port is 0 when it does not parse,
/// and a string without `:` is all address.
pub open spec fn split_addr(s: Seq<char>) -> (Seq<char>, nat) {
    match last_index_of(s, ':') {
        Some(pos) => (
            trim_brackets(s.subrange(0, pos)),
            match crate::text::parse_unsigned(s.subrange(pos + 1, s.len() as int), 65535) {
                Some(p) => p,
                None => 0,
            },
        ),
        None => (s, 0),
    }
}

/// The connection one line of `netstat -ano` describes, if any: at least
/// four columns, a `TCP` or `UDP` protocol (after uppercasing); UDP rows
/// are stateless with an optional pid in the third column; TCP rows need
/// five columns (remote address, state, pid).
pub open spec fn netstat_row(line: Seq<char>) -> Option<NetConnectionV> {
    let parts = crate::text::words(line);
    if parts.len() < 4 {
        None
    } else {
        let proto = crate::text::unicode_upper(parts[0]);
        let (la, lp) = split_addr(parts[1]);
        if proto == "UDP"@ {
            Some(
                (
                    proto,
                    la,
                    lp,
                    Seq::empty(),
                    0,
                    "STATELESS"@,
                    crate::text::parse_unsigned(parts[2], u32::MAX as nat),
                ),
            )
        } else if proto == "TCP"@ && parts.len() >= 5 {
            let (ra, rp) = split_addr(parts[2]);
            Some((proto, la, lp, ra, rp, parts[3], crate::text::parse_unsigned(parts[4], u32::MAX as nat)))
        } else {
            None
        }
    }
}

/// The connections of a `netstat -ano` listing, line by line.
pub open spec fn netstat_rows(ls: Seq<Seq<char>>) -> Seq<NetConnectionV>
    decreases ls.len(),
{
    if ls.len() == 0 {
        Seq::empty()
    } else {
        netstat_rows(ls.drop_last()) + match netstat_row(ls.last()) {
            Some(c) => seq![c],
            None => Seq::empty(),
        }
    }
}

fn last_index_exec(s: &Vec<char>, c: char) -> (r: Option<usize>)
    ensures
        match r {
            Some(i) => i < s.len() && last_index_of(s@, c) == Some(i as int),
            None => last_index_of(s@, c) is None,
        },
{
    let mut e = s.len();
    assert(s@.take(e as int) =~= s@);
    while e > 0 && s[e - 1] != c
        invariant
            e <= s.len(),
            last_index_of(s@, c) == last_index_of(s@.take(e as int), c),
        decreases e,
    {
        assert(s@.take(e as int).drop_last() =~= s@.take(e - 1));
        e -= 1;
    }
    if e == 0 {
        None
    } else {
        assert(s@.take(e as int).last() == c);
        Some(e - 1)
    }
}

proof fn lemma_lead_brackets(s: Seq<char>, k: int)
    requires
        0 <= k <= s.len(),
        forall|j: int| 0 <= j < k ==> is_bracket(s[j]),
        k < s.len() ==> !is_bracket(s[k]),
    ensures
        lead_brackets(s) == k,
    decreases s.len(),
{
    if k > 0 {
        lemma_lead_brackets(s.drop_first(), k - 1);
    }
}

proof fn lemma_trail_brackets(s: Seq<char>, k: int)
    requires
        0 <= k <= s.len(),
        forall|j: int| s.len() - k <= j < s.len() ==> is_bracket(s[j]),
        k < s.len() ==> !is_bracket(s[s.len() - 1 - k]),
    ensures
        trail_brackets(s) == k,
    decreases s.len(),
{
    if k > 0 {
        assert forall|j: int|
            s.drop_last().len() - (k - 1) <= j < s.drop_last().len() implies is_bracket(
            s.drop_last()[j],
        ) by {
            assert(s.drop_last()[j] == s[j]);
        }
        if k - 1 < s.drop_last().len() {
            assert(s.drop_last()[s.drop_last().len() - 1 - (k - 1)] == s[s.len() - 1 - k]);
        }
        lemma_trail_brackets(s.drop_last(), k - 1);
    }
}

fn trim_brackets_exec(v: &Vec<char>, lo0: usize, hi0: usize) -> (r: String)
    requires
        lo0 <= hi0 <= v.len(),
    ensures
        r@ == trim_brackets(v@.subrange(lo0 as int, hi0 as int)),
{
    let ghost s = v@.subrange(lo0 as int, hi0 as int);
    let mut lo = lo0;
    while lo < hi0 && (v[lo] == '[' || v[lo] == ']')
        invariant
            lo0 <= lo <= hi0 <= v.len(),
            s == v@.subrange(lo0 as int, hi0 as int),
            forall|j: int| 0 <= j < lo - lo0 ==> is_bracket(s[j]),
        decreases hi0 - lo,
    {
        lo += 1;
    }
    proof {
        lemma_lead_brackets(s, lo - lo0);
    }
    if lo == hi0 {
        return String::new();
    }
    let mut hi = hi0;
    while hi > lo && (v[hi - 1] == '[' || v[hi - 1] == ']')
        invariant
            lo0 <= lo < hi0 <= v.len(),
            s == v@.subrange(lo0 as int, hi0 as int),
            !is_bracket(s[lo - lo0]),
            lo <= hi <= hi0,
            forall|j: int| hi - lo0 <= j < s.len() ==> is_bracket(s[j]),
        decreases hi,
    {
        hi -= 1;
    }
    proof {
        lemma_trail_brackets(s, (hi0 - hi) as int);
        assert(s.subrange(lo - lo0, hi - lo0) =~= v@.subrange(lo as int, hi as int));
    }
    crate::text::string_of_range(v, lo, hi)
}

fn split_addr_exec(s: &Vec<char>) -> (r: (String, u16))
    ensures
        (r.0@, r.1 as nat) == split_addr(s@),
{
    match last_index_exec(s, ':') {
        Some(pos) => {
            let a = trim_brackets_exec(s, 0, pos);
            let mut tail: Vec<char> = Vec::new();
            let mut k = pos + 1;
            while k < s.len()
                invariant
                    pos < k <= s.len(),
                    tail@ == s@.subrange(pos + 1, k as int),
                decreases s.len() - k,
            {
                tail.push(s[k]);
                k += 1;
                assert(tail@ =~= s@.subrange(pos + 1, k as int));
            }
            let p = match crate::text::parse_uint(&tail, 65535) {
                Some(p) => p as u16,
                None => 0,
            };
            (a, p)
        },
        None => (crate::text::string_of(s), 0),
    }
}

/// The connections listed in the output of `netstat -ano`: one per line
/// whose first column is `TCP` or `UDP` (after uppercasing), with addresses
/// split at their last `:` and brackets trimmed; unparsable ports read as 0
/// and unparsable pids as none.
pub fn parse_netstat(text: &str) -> (r: Vec<NetConnection>)
    ensures
        r@.map_values(|c: NetConnection| c.v()) == netstat_rows(crate::text::lines(text@)),
{
    let chars = chars_of(text);
    let ls = crate::text::lines_of(&chars);
    let mut out: Vec<NetConnection> = Vec::new();
    let mut i: usize = 0;
    assert(out@.map_values(|c: NetConnection| c.v()) =~= netstat_rows(
        crate::text::cviews(ls@).take(0),
    ));
    while i < ls.len()
        invariant
            i <= ls.len(),
            crate::text::cviews(ls@) == crate::text::lines(text@),
            out@.map_values(|c: NetConnection| c.v()) == netstat_rows(
                crate::text::cviews(ls@).take(i as int),
            ),
        decreases ls.len() - i,
    {
        let ghost before = out@;
        assert(crate::text::cviews(ls@).take(i + 1).drop_last() =~= crate::text::cviews(ls@).take(
            i as int,
        ));
        assert(crate::text::cviews(ls@).take(i + 1).last() == ls@[i as int]@);
        match netstat_line(&ls[i]) {
            Some(c) => {
                out.push(c);
                assert(out@.map_values(|c: NetConnection| c.v()) =~= before.map_values(
                    |c: NetConnection| c.v(),
                ).push(out@.last().v()));
            },
            None => {},
        }
        i += 1;
    }
    assert(crate::text::cviews(ls@).take(ls.len() as int) =~= crate::text::cviews(ls@));
    out
}

fn netstat_line(line: &Vec<char>) -> (r: Option<NetConnection>)
    ensures
        match r {
            Some(c) => netstat_row(line@) == Some(c.v()),
            None => netstat_row(line@) is None,
        },
{
    let parts = crate::text::words_of(line);
    if parts.len() < 4 {
        return None;
    }
    assert(crate::text::cviews(parts@)[0] == parts@[0]@);
    assert(crate::text::cviews(parts@)[1] == parts@[1]@);
    assert(crate::text::cviews(parts@)[2] == parts@[2]@);
    assert(crate::text::cviews(parts@)[3] == parts@[3]@);
    let p0 = crate::text::string_of(&parts[0]);
    let proto = crate::text::to_uppercase(p0.as_str());
    let pv = chars_of(proto.as_str());
    let udp = chars_of("UDP");
    let tcp = chars_of("TCP");
    let (la, lp) = split_addr_exec(&parts[1]);
    if crate::text::same(&pv, &udp) {
        let pid = match crate::text::parse_uint(&parts[2], 4294967295) {
            Some(p) => Some(p as u32),
            None => None,
        };
        let c = NetConnection {
            protocol: proto,
            local_addr: la,
            local_port: lp,
            remote_addr: String::new(),
            remote_port: 0,
            state: copy_str("STATELESS"),
            pid,
        };
        assert(c.v().6 == crate::text::parse_unsigned(parts@[2]@, u32::MAX as nat));
        return Some(c);
    }
    if crate::text::same(&pv, &tcp) && parts.len() >= 5 {
        assert(crate::text::cviews(parts@)[4] == parts@[4]@);
        let (ra, rp) = split_addr_exec(&parts[2]);
        let pid = match crate::text::parse_uint(&parts[4], 4294967295) {
            Some(p) => Some(p as u32),
            None => None,
        };
        let c = NetConnection {
            protocol: proto,
            local_addr: la,
            local_port: lp,
            remote_addr: ra,
            remote_port: rp,
            state: crate::text::string_of(&parts[3]),
            pid,
        };
        assert(c.v().6 == crate::text::parse_unsigned(parts@[4]@, u32::MAX as nat));
        return Some(c);
    }
    None
}

} // verus!

verus! {

// ── tasklist /fo csv /nh ───────────────────────────────────────────────

/// One process as `tasklist /fo csv /nh` reports it.
#[derive(Clone, Debug, PartialEq, Eq, Hash)]
pub struct TaskEntry {
    pub name: String,
    pub pid: u32,
    pub session: String,
    pub mem_kb: u64,
}

/// A process as plain values: name, pid, session, memory in KB.
pub type TaskEntryV = (Seq<char>, nat, Seq<char>, nat);

impl TaskEntry {
    pub open spec fn v(&self) -> TaskEntryV {
        (self.name@, self.pid as nat, self.session@, self.mem_kb as nat)
    }
}

/// A CSV field: trimmed, then without surrounding double quotes.
pub open spec fn csv_field(f: Seq<char>) -> Seq<char> {
    crate::text::trim_char(crate::text::trim(f), '"')
}

/// Characters dropped from the memory column before parsing.
pub open spec fn mem_noise(c: char) -> bool {
    c == ' ' || c == 'K' || c == ',' || c == '.'
}

/// The process one CSV line describes, if it has at least five fields:
/// pid and memory read as 0 when they do not parse.
pub open spec fn tasklist_row(line: Seq<char>) -> Option<TaskEntryV> {
    let fields = crate::text::split(line, ',').map_values(|f: Seq<char>| csv_field(f));
    if fields.len() < 5 {
        None
    } else {
        let pid = match crate::text::parse_unsigned(fields[1], u32::MAX as nat) {
            Some(p) => p,
            None => 0,
        };
        let mem = match crate::text::parse_unsigned(
            crate::text::trim(crate::text::remove_chars(fields[4], |c: char| mem_noise(c))),
            u64::MAX as nat,
        ) {
            Some(m) => m,
            None => 0,
        };
        Some((fields[0], pid, fields[2], mem))
    }
}

/// The processes of a listing, line by line, in listing order.
pub open spec fn tasklist_rows(ls: Seq<Seq<char>>) -> Seq<TaskEntryV>
    decreases ls.len(),
{
    if ls.len() == 0 {
        Seq::empty()
    } else {
        tasklist_rows(ls.drop_last()) + match tasklist_row(ls.last()) {
            Some(t) => seq![t],
            None => Seq::empty(),
        }
    }
}

/// `x` placed after every trailing element of `s` whose memory is at least
/// its own (one step of a stable sort by memory, largest first).
pub open spec fn insert_by_mem(s: Seq<TaskEntryV>, x: TaskEntryV) -> Seq<TaskEntryV>
    decreases s.len(),
{
    if s.len() == 0 {
        seq![x]
    } else if s.last().3 >= x.3 {
        s.push(x)
    } else {
        insert_by_mem(s.drop_last(), x).push(s.last())
    }
}

/// Stable sort by memory, largest first.
pub open spec fn sort_by_mem(s: Seq<TaskEntryV>) -> Seq<TaskEntryV>
    decreases s.len(),
{
    if s.len() == 0 {
        Seq::empty()
    } else {
        insert_by_mem(sort_by_mem(s.drop_last()), s.last())
    }
}

/// Number of trailing elements of `s` with less memory than `m`.
pub open spec fn smaller_tail(s: Seq<TaskEntryV>, m: nat) -> nat
    decreases s.len(),
{
    if s.len() > 0 && s.last().3 < m {
        1 + smaller_tail(s.drop_last(), m)
    } else {
        0
    }
}

proof fn lemma_insert_by_mem(s: Seq<TaskEntryV>, x: TaskEntryV)
    ensures
        smaller_tail(s, x.3) <= s.len(),
        insert_by_mem(s, x) == s.take(s.len() - smaller_tail(s, x.3)) + seq![x] + s.skip(
            s.len() - smaller_tail(s, x.3),
        ),
    decreases s.len(),
{
    if s.len() > 0 && s.last().3 < x.3 {
        lemma_insert_by_mem(s.drop_last(), x);
        let p = s.len() - smaller_tail(s, x.3);
        assert(s.drop_last().take(p) =~= s.take(p));
        assert(s.drop_last().skip(p).push(s.last()) =~= s.skip(p));
        assert((s.take(p) + seq![x] + s.drop_last().skip(p)).push(s.last()) =~= s.take(p) + seq![x]
            + s.skip(p));
    } else {
        assert(s.take(s.len() as int) =~= s);
        assert(s.skip(s.len() as int) =~= Seq::<TaskEntryV>::empty());
        assert(s.push(x) =~= s + seq![x]);
        if s.len() == 0 {
            assert(seq![x] =~= Seq::<TaskEntryV>::empty() + seq![x] + Seq::<TaskEntryV>::empty());
        }
    }
}

pub open spec fn task_views(v: Seq<TaskEntry>) -> Seq<TaskEntryV> {
    v.map_values(|t: TaskEntry| t.v())
}

fn insert_task(v: &mut Vec<TaskEntry>, x: TaskEntry)
    ensures
        task_views(final(v)@) == insert_by_mem(task_views(old(v)@), x.v()),
{
    let ghost s = task_views(v@);
    let mut p = v.len();
    assert(s.take(p as int) =~= s);
    while p > 0 && v[p - 1].mem_kb < x.mem_kb
        invariant
            p <= v.len(),
            s == task_views(v@),
            smaller_tail(s, x.v().3) == (v.len() - p) + smaller_tail(s.take(p as int), x.v().3),
        decreases p,
    {
        assert(s.take(p as int).last() == v@[p - 1].v());
        assert(s.take(p as int).drop_last() =~= s.take(p - 1));
        p -= 1;
    }
    proof {
        if p > 0 {
            assert(s.take(p as int).last() == v@[p - 1].v());
        }
        assert(smaller_tail(s.take(p as int), x.v().3) == 0);
        lemma_insert_by_mem(s, x.v());
    }
    v.insert(p, x);
    assert(task_views(v@) =~= s.take(p as int) + seq![x.v()] + s.skip(p as int));
}

/// The processes listed by `tasklist /fo csv /nh`, largest memory first
/// (ties keep listing order): one per line with at least five CSV fields,
/// fields trimmed and unquoted, pid and memory (spaces, `K`, `,`, `.`
/// dropped) read as 0 when they do not parse.
pub fn parse_tasklist(text: &str) -> (r: Vec<TaskEntry>)
    ensures
        task_views(r@) == sort_by_mem(tasklist_rows(crate::text::lines(text@))),
{
    let chars = chars_of(text);
    let ls = crate::text::lines_of(&chars);
    let mut out: Vec<TaskEntry> = Vec::new();
    let mut i: usize = 0;
    assert(task_views(out@) =~= sort_by_mem(tasklist_rows(crate::text::cviews(ls@).take(0))));
    while i < ls.len()
        invariant
            i <= ls.len(),
            crate::text::cviews(ls@) == crate::text::lines(text@),
            task_views(out@) == sort_by_mem(tasklist_rows(crate::text::cviews(ls@).take(i as int))),
        decreases ls.len() - i,
    {
        assert(crate::text::cviews(ls@).take(i + 1).drop_last() =~= crate::text::cviews(ls@).take(
            i as int,
        ));
        assert(crate::text::cviews(ls@).take(i + 1).last() == ls@[i as int]@);
        match tasklist_line(&ls[i]) {
            Some(t) => {
                let ghost rows = tasklist_rows(crate::text::cviews(ls@).take(i as int));
                assert(tasklist_rows(crate::text::cviews(ls@).take(i + 1)) =~= rows.push(t.v()));
                assert(rows.push(t.v()).drop_last() =~= rows);
                insert_task(&mut out, t);
            },
            None => {
                assert(tasklist_rows(crate::text::cviews(ls@).take(i + 1)) =~= tasklist_rows(
                    crate::text::cviews(ls@).take(i as int),
                ));
            },
        }
        i += 1;
    }
    assert(crate::text::cviews(ls@).take(ls.len() as int) =~= crate::text::cviews(ls@));
    out
}

fn drop_mem_noise(v: &Vec<char>) -> (r: Vec<char>)
    ensures
        r@ == crate::text::remove_chars(v@, |c: char| mem_noise(c)),
{
    let mut r: Vec<char> = Vec::new();
    let mut k: usize = 0;
    while k < v.len()
        invariant
            k <= v.len(),
            r@ == crate::text::remove_chars(v@.take(k as int), |c: char| mem_noise(c)),
        decreases v.len() - k,
    {
        let c = v[k];
        if !(c == ' ' || c == 'K' || c == ',' || c == '.') {
            r.push(c);
        }
        k += 1;
        assert(v@.take(k as int).drop_last() =~= v@.take(k - 1));
    }
    assert(v@.take(v.len() as int) =~= v@);
    r
}

fn tasklist_line(line: &Vec<char>) -> (r: Option<TaskEntry>)
    ensures
        match r {
            Some(t) => tasklist_row(line@) == Some(t.v()),
            None => tasklist_row(line@) is None,
        },
{
    let raw = crate::text::split_of(line, ',');
    let mut fields: Vec<Vec<char>> = Vec::new();
    let ghost target = crate::text::split(line@, ',').map_values(|f: Seq<char>| csv_field(f));
    let mut k: usize = 0;
    while k < raw.len()
        invariant
            k <= raw.len(),
            crate::text::cviews(raw@) == crate::text::split(line@, ','),
            target == crate::text::split(line@, ',').map_values(|f: Seq<char>| csv_field(f)),
            crate::text::cviews(fields@) == target.take(k as int),
        decreases raw.len() - k,
    {
        let t = crate::text::trim_chars(&raw[k]);
        let f = crate::text::trim_char_of(&t, '"');
        let ghost before = fields@;
        fields.push(f);
        assert(crate::text::cviews(raw@)[k as int] == raw@[k as int]@);
        assert(target[k as int] == csv_field(crate::text::split(line@, ',')[k as int]));
        assert(f@ == csv_field(raw@[k as int]@));
        assert(crate::text::cviews(fields@) =~= crate::text::cviews(before).push(f@));
        assert(target.take(k + 1) =~= target.take(k as int).push(target[k as int]));
        assert(crate::text::cviews(fields@) =~= target.take(k + 1));
        k += 1;
    }
    assert(target.take(raw.len() as int) =~= target);
    if fields.len() < 5 {
        return None;
    }
    assert(target[0] == fields@[0]@ && target[1] == fields@[1]@ && target[2] == fields@[2]@
        && target[4] == fields@[4]@);
    let pid = match crate::text::parse_uint(&fields[1], 4294967295) {
        Some(p) => p as u32,
        None => 0,
    };
    let cleaned = drop_mem_noise(&fields[4]);
    let cleaned = crate::text::trim_chars(&cleaned);
    let mem = match crate::text::parse_uint(&cleaned, 18446744073709551615) {
        Some(m) => m,
        None => 0,
    };
    Some(
        TaskEntry {
            name: crate::text::string_of(&fields[0]),
            pid,
            session: crate::text::string_of(&fields[2]),
            mem_kb: mem,
        },
    )
}

} // verus!

verus! {

// ── wevtutil qe /f:text ────────────────────────────────────────────────

/// One event as `wevtutil qe ... /f:text` prints it.
#[derive(Clone, Debug)]
pub struct EventEntry {
    pub time: String,
    pub level: String,
    pub source: String,
    pub event_id: String,
    pub message: String,
}

/// An event as plain values: time, level, source, event id, message.
pub type EventV = (Seq<char>, Seq<char>, Seq<char>, Seq<char>, Seq<char>);

impl EventEntry {
    pub open spec fn v(&self) -> EventV {
        (self.time@, self.level@, self.source@, self.event_id@, self.message@)
    }
}

pub open spec fn empty_event() -> EventV {
    (Seq::empty(), Seq::empty(), Seq::empty(), Seq::empty(), Seq::empty())
}

/// Parser state: events so far, the event being read, its message lines,
/// and whether message lines are still being collected.
pub type WevState = (Seq<EventV>, EventV, Seq<Seq<char>>, bool);

/// Longest message kept, in characters.
pub const EVENT_MESSAGE_CHARS: usize = 250;

/// Emit the event being read, if it has a time: its message is its message
/// lines joined by spaces, cut to 250 characters.
pub open spec fn wev_flush(st: WevState) -> WevState {
    let (entries, cur, buf, inm) = st;
    if cur.0.len() > 0 {
        let msg = crate::text::take_chars(crate::text::join(buf, " "@), 250);
        (entries.push((cur.0, cur.1, cur.2, cur.3, msg)), empty_event(), Seq::empty(), inm)
    } else {
        st
    }
}

/// The value after `key` on a trimmed line, trimmed.
pub open spec fn after_key(t: Seq<char>, key: Seq<char>) -> Seq<char> {
    crate::text::trim(t.subrange(key.len() as int, t.len() as int))
}

/// One line of `wevtutil` text output.
pub open spec fn wev_step(st: WevState, line: Seq<char>) -> WevState {
    let t = crate::text::trim(line);
    let (entries, cur, buf, inm) = st;
    if starts_with(t, "Event["@) {
        let f = wev_flush(st);
        (f.0, f.1, f.2, false)
    } else if starts_with(t, "Date:"@) {
        (entries, (after_key(t, "Date:"@), cur.1, cur.2, cur.3, cur.4), buf, false)
    } else if starts_with(t, "Source:"@) {
        (entries, (cur.0, cur.1, after_key(t, "Source:"@), cur.3, cur.4), buf, false)
    } else if starts_with(t, "Event ID:"@) {
        (entries, (cur.0, cur.1, cur.2, after_key(t, "Event ID:"@), cur.4), buf, false)
    } else if starts_with(t, "Level:"@) {
        (entries, (cur.0, after_key(t, "Level:"@), cur.2, cur.3, cur.4), buf, false)
    } else if starts_with(t, "Message:"@) {
        let rest = after_key(t, "Message:"@);
        (entries, cur, if rest.len() > 0 {
            buf.push(rest)
        } else {
            buf
        }, true)
    } else if inm && t.len() > 0 {
        let nb = buf.push(t);
        (entries, cur, nb, nb.len() < 4)
    } else {
        st
    }
}

/// The state after reading the given lines.
pub open spec fn wev_fold(ls: Seq<Seq<char>>) -> WevState
    decreases ls.len(),
{
    if ls.len() == 0 {
        (Seq::empty(), empty_event(), Seq::empty(), false)
    } else {
        wev_step(wev_fold(ls.drop_last()), ls.last())
    }
}

/// The events of a `wevtutil` text listing.
pub open spec fn wev_events(text: Seq<char>) -> Seq<EventV> {
    wev_flush(wev_fold(crate::text::lines(text))).0
}

pub open spec fn event_views(v: Seq<EventEntry>) -> Seq<EventV> {
    v.map_values(|e: EventEntry| e.v())
}

fn blank_event() -> (e: EventEntry)
    ensures
        e.v() == empty_event(),
{
    EventEntry {
        time: String::new(),
        level: String::new(),
        source: String::new(),
        event_id: String::new(),
        message: String::new(),
    }
}

fn value_after(t: &Vec<char>, klen: usize) -> (r: String)
    requires
        klen <= t.len(),
    ensures
        r@ == crate::text::trim(t@.subrange(klen as int, t@.len() as int)),
{
    let mut rest: Vec<char> = Vec::new();
    let mut k = klen;
    while k < t.len()
        invariant
            klen <= k <= t.len(),
            rest@ == t@.subrange(klen as int, k as int),
        decreases t.len() - k,
    {
        rest.push(t[k]);
        k += 1;
        assert(rest@ =~= t@.subrange(klen as int, k as int));
    }
    let tr = crate::text::trim_chars(&rest);
    crate::text::string_of(&tr)
}

fn flush_event(
    entries: &mut Vec<EventEntry>,
    cur: &mut EventEntry,
    buf: &mut Vec<Vec<char>>,
    Ghost(inm): Ghost<bool>,
)
    ensures
        (event_views(final(entries)@), final(cur).v(), crate::text::cviews(final(buf)@), inm)
            == wev_flush((event_views(old(entries)@), old(cur).v(), crate::text::cviews(old(buf)@), inm)),
{
    let tv = chars_of(cur.time.as_str());
    if tv.len() > 0 {
        {
            let sp = chars_of(" ");
            let joined = crate::text::join_of(buf, &sp);
            let msg = crate::text::take_of(&joined, EVENT_MESSAGE_CHARS);
            let done = EventEntry {
                time: copy_str(cur.time.as_str()),
                level: copy_str(cur.level.as_str()),
                source: copy_str(cur.source.as_str()),
                event_id: copy_str(cur.event_id.as_str()),
                message: crate::text::string_of(&msg),
            };
            let ghost before = entries@;
            entries.push(done);
            assert(event_views(entries@) =~= event_views(before).push(done.v()));
            *cur = blank_event();
            *buf = Vec::new();
            assert(crate::text::cviews(buf@) =~= Seq::<Seq<char>>::empty());
        }
    }
}

} // verus!

verus! {

/// The events in the text output of `wevtutil qe <log> /rd:true /f:text`.
/// An event starts at a line `Event[..]`; `Date:`, `Source:`, `Event ID:`
/// and `Level:` lines fill its fields; `Message:` starts its message, which
/// takes the following non-empty lines until four are collected. Only
/// events with a date are kept; each message is its lines joined by spaces
/// and cut to 250 characters.
pub fn parse_wevtutil_text(text: &str) -> (r: Result<Vec<EventEntry>, String>)
    ensures
        r matches Ok(v) && event_views(v@) == wev_events(text@),
{
    let chars = chars_of(text);
    let ls = crate::text::lines_of(&chars);
    let mut entries: Vec<EventEntry> = Vec::new();
    let mut cur = blank_event();
    let mut buf: Vec<Vec<char>> = Vec::new();
    let mut inm = false;
    let k_event = chars_of("Event[");
    let k_date = chars_of("Date:");
    let k_source = chars_of("Source:");
    let k_id = chars_of("Event ID:");
    let k_level = chars_of("Level:");
    let k_msg = chars_of("Message:");
    let mut i: usize = 0;
    assert(crate::text::cviews(ls@).take(0) =~= Seq::<Seq<char>>::empty());
    assert(event_views(entries@) =~= Seq::<EventV>::empty());
    assert(crate::text::cviews(buf@) =~= Seq::<Seq<char>>::empty());
    while i < ls.len()
        invariant
            i <= ls.len(),
            crate::text::cviews(ls@) == crate::text::lines(text@),
            k_event@ == "Event["@,
            k_date@ == "Date:"@,
            k_source@ == "Source:"@,
            k_id@ == "Event ID:"@,
            k_level@ == "Level:"@,
            k_msg@ == "Message:"@,
            (event_views(entries@), cur.v(), crate::text::cviews(buf@), inm) == wev_fold(
                crate::text::cviews(ls@).take(i as int),
            ),
        decreases ls.len() - i,
    {
        let ghost st = (event_views(entries@), cur.v(), crate::text::cviews(buf@), inm);
        assert(crate::text::cviews(ls@).take(i + 1).drop_last() =~= crate::text::cviews(ls@).take(
            i as int,
        ));
        assert(crate::text::cviews(ls@).take(i + 1).last() == ls@[i as int]@);
        let t = crate::text::trim_chars(&ls[i]);
        if crate::text::has_prefix(&t, &k_event) {
            flush_event(&mut entries, &mut cur, &mut buf, Ghost(inm));
            inm = false;
        } else if crate::text::has_prefix(&t, &k_date) {
            cur.time = value_after(&t, k_date.len());
            inm = false;
        } else if crate::text::has_prefix(&t, &k_source) {
            cur.source = value_after(&t, k_source.len());
            inm = false;
        } else if crate::text::has_prefix(&t, &k_id) {
            cur.event_id = value_after(&t, k_id.len());
            inm = false;
        } else if crate::text::has_prefix(&t, &k_level) {
            cur.level = value_after(&t, k_level.len());
            inm = false;
        } else if crate::text::has_prefix(&t, &k_msg) {
            inm = true;
            let rest = value_after(&t, k_msg.len());
            let rv = chars_of(rest.as_str());
            if rv.len() > 0 {
                let ghost before = buf@;
                buf.push(rv);
                assert(crate::text::cviews(buf@) =~= crate::text::cviews(before).push(rest@));
            }
        } else if inm && t.len() > 0 {
            let ghost before = buf@;
            let ghost tv = t@;
            buf.push(t);
            assert(crate::text::cviews(buf@) =~= crate::text::cviews(before).push(tv));
            if buf.len() >= 4 {
                inm = false;
            }
        }
        i += 1;
    }
    assert(crate::text::cviews(ls@).take(ls.len() as int) =~= crate::text::cviews(ls@));
    flush_event(&mut entries, &mut cur, &mut buf, Ghost(inm));
    Ok(entries)
}

} // verus!

verus! {

// ── Command guards ─────────────────────────────────────────────────────

/// `s` with every `/` preceded by a space.
pub open spec fn space_slashes(s: Seq<char>) -> Seq<char>
    decreases s.len(),
{
    if s.len() == 0 {
        Seq::empty()
    } else if s.last() == '/' {
        space_slashes(s.drop_last()) + " /"@
    } else {
        space_slashes(s.drop_last()).push(s.last())
    }
}

/// The de-obfuscated form of a lowercased `cmd` script: carets removed, a
/// space before every `/`, whitespace runs collapsed to one space, trimmed.
pub open spec fn cmd_normal_form(lower: Seq<char>) -> Seq<char> {
    crate::text::join(
        crate::text::words(space_slashes(crate::text::remove_chars(lower, |c: char| c == '^'))),
        " "@,
    )
}

/// Destructive `cmd` patterns that need the operator's authorization.
pub open spec fn cmd_blocklist() -> Seq<Seq<char>> {
    seq![
        "format "@, "del /s"@, "rd /s"@, "rmdir /s"@,
        "net user /add"@, "net localgroup administrators"@,
        "schtasks /create"@, "schtasks /delete"@,
        "takeown /f c:\\windows"@, "bcdedit"@, "diskpart"@,
    ]
}

fn cmd_block_list() -> (v: Vec<&'static str>)
    ensures
        str_views(v@) == cmd_blocklist(),
{
    let v = vec![
        "format ", "del /s", "rd /s", "rmdir /s",
        "net user /add", "net localgroup administrators",
        "schtasks /create", "schtasks /delete",
        "takeown /f c:\\windows", "bcdedit", "diskpart",
    ];
    assert(str_views(v@) =~= cmd_blocklist());
    v
}

/// The first pattern of `list` that occurs in `a` or in `b`.
pub open spec fn first_hit(list: Seq<Seq<char>>, a: Seq<char>, b: Seq<char>) -> Option<int> {
    if exists|j: int|
        0 <= j < list.len() && (crate::text::contains(a, list[j]) || crate::text::contains(b, list[j])) {
        Some(
            choose|j: int|
                0 <= j < list.len() && (crate::text::contains(a, list[j]) || crate::text::contains(
                    b,
                    list[j],
                )) && forall|k: int|
                    0 <= k < j ==> !(crate::text::contains(a, list[k]) || crate::text::contains(
                        b,
                        list[k],
                    )),
        )
    } else {
        None
    }
}

/// The blocklisted pattern a `cmd` script matches, if any: the first one that
/// occurs in its Unicode-lowercased text or in that text's de-obfuscated form.
pub open spec fn cmd_block_spec(script: Seq<char>) -> Option<Seq<char>> {
    let lower = crate::text::unicode_lower(script);
    match first_hit(cmd_blocklist(), lower, cmd_normal_form(lower)) {
        Some(j) => Some(cmd_blocklist()[j]),
        None => None,
    }
}

fn normal_form(lower: &Vec<char>) -> (r: Vec<char>)
    ensures
        r@ == cmd_normal_form(lower@),
{
    let mut spaced: Vec<char> = Vec::new();
    let mut k: usize = 0;
    while k < lower.len()
        invariant
            k <= lower.len(),
            spaced@ == space_slashes(
                crate::text::remove_chars(lower@.take(k as int), |c: char| c == '^'),
            ),
        decreases lower.len() - k,
    {
        let c = lower[k];
        let ghost x = crate::text::remove_chars(lower@.take(k as int), |c: char| c == '^');
        assert(lower@.take(k + 1).drop_last() =~= lower@.take(k as int));
        assert(lower@.take(k + 1).last() == c);
        if c == '^' {
            assert(crate::text::remove_chars(lower@.take(k + 1), |c: char| c == '^') == x);
        } else if c == '/' {
            let ghost before = spaced@;
            spaced.push(' ');
            spaced.push('/');
            assert(crate::text::remove_chars(lower@.take(k + 1), |c: char| c == '^') == x.push(c));
            assert(x.push(c).drop_last() =~= x);
            proof {
                reveal_strlit(" /");
                assert(spaced@ =~= before + " /"@);
            }
        } else {
            spaced.push(c);
            assert(crate::text::remove_chars(lower@.take(k + 1), |c: char| c == '^') == x.push(c));
            assert(x.push(c).drop_last() =~= x);
        }
        k += 1;
    }
    assert(lower@.take(lower.len() as int) =~= lower@);
    let ws = crate::text::words_of(&spaced);
    let sp = chars_of(" ");
    crate::text::join_of(&ws, &sp)
}

/// Index into `list` of the first pattern occurring in `a` or `b`.
pub(crate) fn first_hit_exec(list: &Vec<&str>, a: &Vec<char>, b: &Vec<char>) -> (r: Option<usize>)
    ensures
        match r {
            Some(j) => j < list.len() && first_hit(str_views(list@), a@, b@) == Some(j as int),
            None => first_hit(str_views(list@), a@, b@) is None,
        },
{
    let ghost l = str_views(list@);
    let mut i: usize = 0;
    while i < list.len()
        invariant
            i <= list.len(),
            l == str_views(list@),
            forall|k: int|
                0 <= k < i ==> !(crate::text::contains(a@, l[k]) || crate::text::contains(b@, l[k])),
        decreases list.len() - i,
    {
        let p = chars_of(list[i]);
        assert(l[i as int] == p@);
        if crate::text::has_sub(a, &p) || crate::text::has_sub(b, &p) {
            proof {
                let j = choose|j: int|
                    0 <= j < l.len() && (crate::text::contains(a@, l[j]) || crate::text::contains(
                        b@,
                        l[j],
                    )) && forall|k: int|
                        0 <= k < j ==> !(crate::text::contains(a@, l[k]) || crate::text::contains(
                            b@,
                            l[k],
                        ));
                assert(j == i) by {
                    if j > i {
                        assert(!(crate::text::contains(a@, l[i as int]) || crate::text::contains(
                            b@,
                            l[i as int],
                        )));
                    }
                }
            }
            return Some(i);
        }
        i += 1;
    }
    None
}

/// The destructive pattern (of `del /s`, `format `, `diskpart`, ...) a
/// `cmd` script matches, checked against its lowercased text and against
/// its de-obfuscated form (carets stripped, `/` switches spaced out,
/// whitespace collapsed), so `de^l /s` and `del/s` are caught as `del /s`.
pub fn cmd_blocked_pattern(script: &str) -> (r: Option<String>)
    ensures
        match r {
            Some(p) => cmd_block_spec(script@) == Some(p@),
            None => cmd_block_spec(script@) is None,
        },
{
    let lower_s = crate::text::to_lowercase(script);
    let lower = chars_of(lower_s.as_str());
    let norm = normal_form(&lower);
    let list = cmd_block_list();
    match first_hit_exec(&list, &lower, &norm) {
        Some(j) => Some(copy_str(list[j])),
        None => None,
    }
}

} // verus!

verus! {

/// WMIC aliases (lowercase, with their trailing space) a query may start with.
pub open spec fn wmic_allowed() -> Seq<Seq<char>> {
    seq![
        "cpu "@, "memorychip "@, "diskdrive "@, "logicaldisk "@, "os "@,
        "computersystem "@, "nic "@, "nicconfig "@, "process "@, "service "@,
        "startup "@, "bios "@, "baseboard "@, "csproduct "@, "useraccount "@,
        "path win32_"@, "qfe "@,
    ]
}

/// WMIC flags and verbs that are refused anywhere in a query.
pub open spec fn wmic_forbidden() -> Seq<Seq<char>> {
    seq![
        "/node:"@, " delete "@, " call "@,
        "/format:"@, "/output:"@, "/append:"@, "/record:"@,
        "/interactive"@,
    ]
}

/// Index of the first pattern of `list` occurring in `s`.
pub open spec fn first_in(list: Seq<Seq<char>>, s: Seq<char>) -> Option<int> {
    if exists|j: int| 0 <= j < list.len() && crate::text::contains(s, list[j]) {
        Some(
            choose|j: int|
                0 <= j < list.len() && crate::text::contains(s, list[j]) && forall|k: int|
                    0 <= k < j ==> !crate::text::contains(s, list[k]),
        )
    } else {
        None
    }
}

/// What `wmic_argv` answers: the refusal, or the arguments to run `wmic` with.
pub open spec fn wmic_verdict(query: Seq<char>) -> Result<Seq<Seq<char>>, Seq<char>> {
    let lower = crate::text::unicode_lower(crate::text::trim(query));
    if !any_prefix(lower, wmic_allowed()) {
        Err(
            "Query WMIC no permitida. Aliases seguros: cpu, os, diskdrive, memorychip, nic, process, service, bios, csproduct, qfe, path Win32_*."@,
        )
    } else {
        match first_in(wmic_forbidden(), lower) {
            Some(j) => Err("WMIC: '"@ + crate::text::trim(wmic_forbidden()[j])
                + "' no está permitido. Flags peligrosos (XSL injection, file write, remote exec, interactive) bloqueados."@),
            None => Ok(parsed_args(query)),
        }
    }
}

fn first_in_exec(list: &Vec<&str>, s: &Vec<char>) -> (r: Option<usize>)
    ensures
        match r {
            Some(j) => j < list.len() && first_in(str_views(list@), s@) == Some(j as int),
            None => first_in(str_views(list@), s@) is None,
        },
{
    let ghost l = str_views(list@);
    let mut i: usize = 0;
    while i < list.len()
        invariant
            i <= list.len(),
            l == str_views(list@),
            forall|k: int| 0 <= k < i ==> !crate::text::contains(s@, l[k]),
        decreases list.len() - i,
    {
        let p = chars_of(list[i]);
        assert(l[i as int] == p@);
        if crate::text::has_sub(s, &p) {
            proof {
                let j = choose|j: int|
                    0 <= j < l.len() && crate::text::contains(s@, l[j]) && forall|k: int|
                        0 <= k < j ==> !crate::text::contains(s@, l[k]);
                assert(j == i) by {
                    if j > i {
                        assert(!crate::text::contains(s@, l[i as int]));
                    }
                }
            }
            return Some(i);
        }
        i += 1;
    }
    None
}

/// Check a WMIC query and split it into `wmic` arguments. Only queries
/// starting (after trimming and lowercasing) with a read-only alias such as
/// `cpu `, `os ` or `path win32_` pass, and none may hold `/node:`,
/// ` delete `, ` call `, `/format:`, `/output:`, `/append:`, `/record:` or
/// `/interactive`.
pub fn wmic_argv(query: &str) -> (r: Result<Vec<String>, String>)
    ensures
        match r {
            Ok(a) => wmic_verdict(query@) == Ok::<Seq<Seq<char>>, Seq<char>>(
                a@.map_values(|x: String| x@),
            ),
            Err(m) => wmic_verdict(query@) == Err::<Seq<Seq<char>>, Seq<char>>(m@),
        },
{
    let qv = chars_of(query);
    let tq = crate::text::trim_chars(&qv);
    let ts = crate::text::string_of(&tq);
    let lower_s = crate::text::to_lowercase(ts.as_str());
    let lower = chars_of(lower_s.as_str());
    let allowed = vec![
        "cpu ", "memorychip ", "diskdrive ", "logicaldisk ", "os ",
        "computersystem ", "nic ", "nicconfig ", "process ", "service ",
        "startup ", "bios ", "baseboard ", "csproduct ", "useraccount ",
        "path win32_", "qfe ",
    ];
    assert(str_views(allowed@) =~= wmic_allowed());
    if !any_prefix_exec(&lower, &allowed) {
        return Err(
            copy_str(
                "Query WMIC no permitida. Aliases seguros: cpu, os, diskdrive, memorychip, nic, process, service, bios, csproduct, qfe, path Win32_*.",
            ),
        );
    }
    let forbidden = vec![
        "/node:", " delete ", " call ",
        "/format:", "/output:", "/append:", "/record:",
        "/interactive",
    ];
    assert(str_views(forbidden@) =~= wmic_forbidden());
    match first_in_exec(&forbidden, &lower) {
        Some(j) => {
            let bad = chars_of(forbidden[j]);
            let bt = crate::text::trim_chars(&bad);
            let bs = crate::text::string_of(&bt);
            let mut m = copy_str("WMIC: '");
            append(&mut m, bs.as_str());
            append(
                &mut m,
                "' no está permitido. Flags peligrosos (XSL injection, file write, remote exec, interactive) bloqueados.",
            );
            assert(str_views(forbidden@)[j as int] == forbidden@[j as int]@);
            Err(m)
        },
        None => Ok(parse_args(query)),
    }
}

/// `netsh` operations that are refused.
pub open spec fn netsh_blocklist() -> Seq<Seq<char>> {
    seq!["advfirewall set allprofiles state off"@, "set machine"@, "reset"@]
}

/// What `netsh_argv` answers: the refusal, or the arguments to run `netsh` with.
pub open spec fn netsh_verdict(args: Seq<char>) -> Result<Seq<Seq<char>>, Seq<char>> {
    match first_in(netsh_blocklist(), crate::text::unicode_lower(args)) {
        Some(j) => Err("SECURITY_BLOCK: netsh '"@ + netsh_blocklist()[j] + "' no permitido."@),
        None => Ok(parsed_args(args)),
    }
}

/// Check a `netsh` command line and split it into arguments: turning the
/// firewall off, `set machine` and `reset` are refused.
pub fn netsh_argv(args: &str) -> (r: Result<Vec<String>, String>)
    ensures
        match r {
            Ok(a) => netsh_verdict(args@) == Ok::<Seq<Seq<char>>, Seq<char>>(
                a@.map_values(|x: String| x@),
            ),
            Err(m) => netsh_verdict(args@) == Err::<Seq<Seq<char>>, Seq<char>>(m@),
        },
{
    let lower_s = crate::text::to_lowercase(args);
    let lower = chars_of(lower_s.as_str());
    let list = vec!["advfirewall set allprofiles state off", "set machine", "reset"];
    assert(str_views(list@) =~= netsh_blocklist());
    match first_in_exec(&list, &lower) {
        Some(j) => {
            let mut m = copy_str("SECURITY_BLOCK: netsh '");
            append(&mut m, list[j]);
            append(&mut m, "' no permitido.");
            assert(str_views(list@)[j as int] == list@[j as int]@);
            Err(m)
        },
        None => Ok(parse_args(args)),
    }
}

// ── Per-tab working directories ───────────────────────────────────────

/// Characters allowed in a tab id: ASCII alphanumerics, `_`, `-`.
pub open spec fn tab_char_ok(c: char) -> bool {
    crate::text::is_ascii_alnum(c) || c == '_' || c == '-'
}

pub open spec fn tab_chars_ok(t: Seq<char>) -> bool {
    forall|i: int| 0 <= i < t.len() ==> tab_char_ok(#[trigger] t[i])
}

/// What `check_set_tab_cwd` answers.
pub open spec fn set_tab_verdict(tab_id: Seq<char>, path: Seq<char>) -> Result<(), Seq<char>> {
    if tab_id.len() == 0 || crate::hosts::byte_len(tab_id) > 128 {
        Err("tab_id inválido (1-128 chars)"@)
    } else if !tab_chars_ok(tab_id) {
        Err("tab_id contiene caracteres no permitidos (solo a-z, 0-9, _, -)"@)
    } else if path.len() == 0 || crate::hosts::byte_len(path) > 4096 {
        Err("Ruta inválida (vacía o demasiado larga)"@)
    } else if crate::text::contains(path, ".."@) {
        Err("Ruta inválida: '..' (path traversal) no permitido"@)
    } else {
        Ok(())
    }
}

fn tab_chars(v: &Vec<char>) -> (b: bool)
    ensures
        b == tab_chars_ok(v@),
{
    let mut i: usize = 0;
    while i < v.len()
        invariant
            i <= v.len(),
            forall|j: int| 0 <= j < i ==> tab_char_ok(v@[j]),
        decreases v.len() - i,
    {
        let c = v[i];
        if !(crate::text::ascii_alnum(c) || c == '_' || c == '-') {
            assert(!tab_char_ok(v@[i as int]));
            return false;
        }
        i += 1;
    }
    true
}

/// Validate a request to set a tab's working directory: a 1–128 byte tab
/// id of ASCII alphanumerics, `_` and `-`, and a 1–4096 byte path without `..`.
pub fn check_set_tab_cwd(tab_id: &str, path: &str) -> (r: Result<(), String>)
    ensures
        r.is_ok() <==> set_tab_verdict(tab_id@, path@) is Ok,
        r matches Err(m) ==> set_tab_verdict(tab_id@, path@) == Err::<(), Seq<char>>(m@),
{
    let t = chars_of(tab_id);
    if t.len() == 0 || tab_id.as_bytes().len() > 128 {
        return Err(copy_str("tab_id inválido (1-128 chars)"));
    }
    if !tab_chars(&t) {
        return Err(copy_str("tab_id contiene caracteres no permitidos (solo a-z, 0-9, _, -)"));
    }
    let p = chars_of(path);
    if p.len() == 0 || path.as_bytes().len() > 4096 {
        return Err(copy_str("Ruta inválida (vacía o demasiado larga)"));
    }
    let dots = chars_of("..");
    if crate::text::has_sub(&p, &dots) {
        return Err(copy_str("Ruta inválida: '..' (path traversal) no permitido"));
    }
    Ok(())
}

/// What `check_drop_tab_cwd` answers: `Ok(false)` when there is nothing to
/// drop (empty id), `Ok(true)` when the id is valid.
pub open spec fn drop_tab_verdict(tab_id: Seq<char>) -> Result<bool, Seq<char>> {
    if tab_id.len() == 0 {
        Ok(false)
    } else if crate::hosts::byte_len(tab_id) > 128 {
        Err("tab_id inválido (max 128 chars)"@)
    } else if !tab_chars_ok(tab_id) {
        Err("tab_id contiene caracteres no permitidos (solo a-z, 0-9, _, -)"@)
    } else {
        Ok(true)
    }
}

/// Validate a request to forget a tab's working directory; an empty id is
/// a no-op (`Ok(false)`).
pub fn check_drop_tab_cwd(tab_id: &str) -> (r: Result<bool, String>)
    ensures
        match r {
            Ok(b) => drop_tab_verdict(tab_id@) == Ok::<bool, Seq<char>>(b),
            Err(m) => drop_tab_verdict(tab_id@) == Err::<bool, Seq<char>>(m@),
        },
{
    let t = chars_of(tab_id);
    if t.len() == 0 {
        return Ok(false);
    }
    if tab_id.as_bytes().len() > 128 {
        return Err(copy_str("tab_id inválido (max 128 chars)"));
    }
    if !tab_chars(&t) {
        return Err(copy_str("tab_id contiene caracteres no permitidos (solo a-z, 0-9, _, -)"));
    }
    Ok(true)
}

/// The `mstsc /v:` target: the host alone on the standard port 3389, else
/// `host:port`.
pub fn rdp_target(host: &str, port: u16) -> (r: String)
    ensures
        r@ == if port == 3389 {
            host@
        } else {
            host@ + ":"@ + crate::text::decimal(port as nat)
        },
{
    let mut r = copy_str(host);
    if port != 3389 {
        append(&mut r, ":");
        let d = crate::text::dec(port as u64);
        append(&mut r, d.as_str());
    }
    r
}

} // verus!

verus! {

// ── Laws of the path gate ──────────────────────────────────────────────

/// A path refused for reading is refused for writing too.
pub proof fn law_read_refusal_implies_write_refusal(canonical: Seq<char>, profile_lower: Seq<char>)
    ensures
        block_reason(canonical, profile_lower, false) is Some ==> block_reason(canonical, profile_lower, true) is Some,
{
}

/// The verbatim prefix `\\?\` changes nothing: a path is refused with it
/// exactly when it is refused without it.
pub proof fn law_verbatim_prefix_is_ignored(canonical: Seq<char>, profile_lower: Seq<char>, for_write: bool)
    requires
        !starts_with(canonical, r"\\?\"@),
    ensures
        (block_reason(r"\\?\"@ + canonical, profile_lower, for_write) is Some) == (block_reason(
            canonical,
            profile_lower,
            for_write,
        ) is Some),
{
    let v = r"\\?\"@;
    let p = v + canonical;
    assert(p.subrange(0, v.len() as int) =~= v);
    assert(p.subrange(v.len() as int, p.len() as int) =~= canonical);
    assert(strip_verbatim(p) == canonical);
}

/// A character whose ASCII lowercase form is not a letter is that form.
proof fn lemma_lower_nonletter(a: char, b: char)
    requires
        crate::text::ascii_lower_char(a) == b,
        !('a' <= b && b <= 'z'),
    ensures
        a == b,
{
}

/// Paths that differ only in ASCII case are refused alike.
pub proof fn law_ascii_case_is_ignored(a: Seq<char>, b: Seq<char>, profile_lower: Seq<char>, for_write: bool)
    requires
        ascii_lower(a) == ascii_lower(b),
    ensures
        (block_reason(a, profile_lower, for_write) is Some) == (block_reason(b, profile_lower, for_write) is Some),
{
    let v = r"\\?\"@;
    reveal_strlit(r"\\?\");
    assert(v.len() == 4);
    assert(a.len() == ascii_lower(a).len() && b.len() == ascii_lower(b).len());
    assert forall|i: int| 0 <= i < a.len() implies crate::text::ascii_lower_char(a[i]) == crate::text::ascii_lower_char(b[i]) by {
        assert(ascii_lower(a)[i] == ascii_lower(b)[i]);
        assert(ascii_lower(a)[i] == crate::text::ascii_lower_char(a[i]));
        assert(ascii_lower(b)[i] == crate::text::ascii_lower_char(b[i]));
    }
    if starts_with(a, v) {
        assert forall|i: int| 0 <= i < 4 implies b[i] == v[i] by {
            assert(a.subrange(0, 4)[i] == v[i]);
            assert(a[i] == v[i]);
            lemma_lower_nonletter(b[i], v[i]);
        }
        assert(b.subrange(0, 4) =~= v);
    }
    if starts_with(b, v) {
        assert forall|i: int| 0 <= i < 4 implies a[i] == v[i] by {
            assert(b.subrange(0, 4)[i] == v[i]);
            assert(b[i] == v[i]);
            lemma_lower_nonletter(a[i], v[i]);
        }
        assert(a.subrange(0, 4) =~= v);
    }
    assert(ascii_lower(strip_verbatim(a)) =~= ascii_lower(strip_verbatim(b)));
}

} // verus!
