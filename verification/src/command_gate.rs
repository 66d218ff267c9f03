//! The gates every local command passes before it runs: the operator's
//! permission rule, the destructive-pattern blocklists, and which `reg`
//! calls write.
use vstd::prelude::*;
use crate::local::{first_hit, first_hit_exec};
use crate::text::{append, chars_of, copy_str, same, str_views, to_lowercase, trim, trim_str, unicode_lower, words, words_of};

verus! {

/// What a permission rule's action makes of a command: `allow` lets it
/// run; `block` and `ask` refuse it with the rule's reason; any other
/// action is refused as invalid.
pub open spec fn permission_spec(action: Seq<char>, reason: Seq<char>) -> Result<(), Seq<char>> {
    if action == "block"@ {
        Err("Permiso denegado: "@ + reason)
    } else if action == "ask"@ {
        Err("Comando requiere aprobaci\u{f3}n: "@ + reason + "."@)
    } else if action == "allow"@ {
        Ok(())
    } else {
        Err("Acci\u{f3}n de permiso inv\u{e1}lida: "@ + action)
    }
}

/// Applies a permission rule's verdict to a command.
pub fn permission_verdict(action: &str, reason: &str) -> (r: Result<(), String>)
    ensures
        match (r, permission_spec(action@, reason@)) {
            (Ok(()), Ok(())) => true,
            (Err(e), Err(es)) => e@ == es,
            _ => false,
        },
{
    let a = chars_of(action);
    if same(&a, &chars_of("block")) {
        let mut e = String::from_str("Permiso denegado: ");
        append(&mut e, reason);
        Err(e)
    } else if same(&a, &chars_of("ask")) {
        let mut e = String::from_str("Comando requiere aprobaci\u{f3}n: ");
        append(&mut e, reason);
        append(&mut e, ".");
        Err(e)
    } else if same(&a, &chars_of("allow")) {
        Ok(())
    } else {
        let mut e = String::from_str("Acci\u{f3}n de permiso inv\u{e1}lida: ");
        append(&mut e, action);
        Err(e)
    }
}

/// The refusal that asks the operator to authorize a blocked command with
/// a one-shot token.
pub fn security_block(token: &str, reason: &str) -> (r: String)
    ensures
        r@ == "SECURITY_BLOCK:"@ + token@ + ":"@ + reason@,
{
    let mut r = String::from_str("SECURITY_BLOCK:");
    append(&mut r, token);
    append(&mut r, ":");
    append(&mut r, reason);
    r
}

// ── cscript ────────────────────────────────────────────────────────────

/// COM objects a VBScript may not create without authorization.
pub open spec fn cscript_blocklist() -> Seq<Seq<char>> {
    seq!["wscript.shell"@, "shell.application"@, "winhttp.winhttprequest"@, "msxml2.xmlhttp"@]
}

fn cscript_block_list() -> (v: Vec<&'static str>)
    ensures
        str_views(v@) == cscript_blocklist(),
{
    let v = vec!["wscript.shell", "shell.application", "winhttp.winhttprequest", "msxml2.xmlhttp"];
    assert(str_views(v@) =~= cscript_blocklist());
    v
}

/// The first blocked COM object the lowercased script names, if any.
pub open spec fn cscript_block_spec(script: Seq<char>) -> Option<Seq<char>> {
    let lower = unicode_lower(script);
    match first_hit(cscript_blocklist(), lower, lower) {
        Some(j) => Some(cscript_blocklist()[j]),
        None => None,
    }
}

/// The COM object (of `wscript.shell`, `shell.application`, ...) that
/// makes a VBScript need authorization, if it names one (in any case).
pub fn cscript_blocked_pattern(script: &str) -> (r: Option<String>)
    ensures
        match r {
            Some(p) => cscript_block_spec(script@) == Some(p@),
            None => cscript_block_spec(script@) is None,
        },
{
    let lower = chars_of(to_lowercase(script).as_str());
    let list = cscript_block_list();
    match first_hit_exec(&list, &lower, &lower) {
        Some(j) => Some(copy_str(list[j])),
        None => None,
    }
}

// ── reg ────────────────────────────────────────────────────────────────

/// A `reg` call writes unless its first word (after trimming and
/// lowercasing) is `query`, `export` or `compare`.
pub open spec fn reg_writes(args: Seq<char>) -> bool {
    let ws = words(unicode_lower(trim(args)));
    let verb = if ws.len() > 0 { ws[0] } else { Seq::empty() };
    !(verb == "query"@ || verb == "export"@ || verb == "compare"@)
}

/// Whether a `reg` call writes to the registry (and so needs the
/// operator's authorization).
pub fn reg_is_write(args: &str) -> (b: bool)
    ensures
        b == reg_writes(args@),
{
    let t = trim_str(args);
    let lower = chars_of(to_lowercase(t.as_str()).as_str());
    let ws = words_of(&lower);
    assert(crate::text::cviews(ws@) == words(lower@));
    if ws.len() == 0 {
        proof {
            reveal_strlit("query");
            reveal_strlit("export");
            reveal_strlit("compare");
            assert("query"@.len() == 5);
            assert("export"@.len() == 6);
            assert("compare"@.len() == 7);
            assert(Seq::<char>::empty().len() == 0);
        }
        return true;
    }
    assert(crate::text::cviews(ws@)[0] == ws@[0]@);
    let verb = &ws[0];
    !(same(verb, &chars_of("query")) || same(verb, &chars_of("export")) || same(verb, &chars_of("compare")))
}

} // verus!
