//! Input validation for remote execution: host names, user names, passwords
//! and remote file paths, checked before any of them reaches an `ssh` or
//! WinRM argument vector.
use vstd::prelude::*;
use vstd::string::*;
use vstd::utf8::*;
use crate::text::{is_ascii_alnum, is_control, contains, has_char, hex, chars_of, copy_str, append, ascii_alnum, has_sub, has_chr, push_char, hex_u64};

verus! {

/// Length in UTF-8 bytes (what `str::len` returns).
pub open spec fn byte_len(s: Seq<char>) -> nat {
    encode_utf8(s).len()
}

/// Characters allowed in a host: ASCII alphanumerics, `.`, `-`, `_`, `[`, `]`, `:`.
pub open spec fn host_char_ok(c: char) -> bool {
    is_ascii_alnum(c) || c == '.' || c == '-' || c == '_' || c == '[' || c == ']' || c == ':'
}

/// Characters allowed in a user name: ASCII alphanumerics, `.`, `-`, `_`, `\`, `@`.
pub open spec fn user_char_ok(c: char) -> bool {
    is_ascii_alnum(c) || c == '.' || c == '-' || c == '_' || c == '\\' || c == '@'
}

pub open spec fn all_chars(s: Seq<char>, p: spec_fn(char) -> bool) -> bool {
    forall|i: int| 0 <= i < s.len() ==> p(s[i])
}

/// What `validate_host` answers for `h`.
pub open spec fn host_verdict(h: Seq<char>) -> Result<(), Seq<char>> {
    if h.len() == 0 || byte_len(h) > 253 {
        Err("Host inválido: vacío o demasiado largo."@)
    } else if h[0] == '-' {
        Err("Host inválido '"@ + h
            + "': no puede comenzar con '-' (riesgo de argv-injection)."@)
    } else if !all_chars(h, |c: char| host_char_ok(c)) {
        Err("Host inválido '"@ + h
            + "': solo se permiten IPs y nombres DNS ASCII (sin caracteres especiales o Unicode)."@)
    } else {
        Ok(())
    }
}

/// What `validate_password` answers for `p`.
pub open spec fn password_verdict(p: Seq<char>) -> Result<(), Seq<char>> {
    if byte_len(p) > 256 {
        Err("Password inválido: excede 256 caracteres (límite de seguridad)."@)
    } else {
        Ok(())
    }
}

/// What `validate_username` answers for `u`.
pub open spec fn user_verdict(u: Seq<char>) -> Result<(), Seq<char>> {
    if u.len() == 0 || byte_len(u) > 128 {
        Err("Username inválido: vacío o demasiado largo."@)
    } else if u[0] == '-' {
        Err("Username inválido '"@ + u
            + "': no puede comenzar con '-' (riesgo de argv-injection)."@)
    } else if !all_chars(u, |c: char| user_char_ok(c)) {
        Err("Username inválido '"@ + u
            + "': solo se permiten caracteres ASCII alfanuméricos, '.', '-', '_', '\\\\', '@'."@)
    } else {
        Ok(())
    }
}

/// Characters refused in a remote path: shell metacharacters, quotes, and
/// `\n`, `\r`, `\t`.
pub open spec fn forbidden_path_char(c: char) -> bool {
    c == ';' || c == '|' || c == '&' || c == '$' || c == '!' || c == '<' || c == '>' || c == '*'
        || c == '?' || c == '[' || c == ']' || c == '{' || c == '}' || c == '#' || c == '`'
        || c == '"' || c == '\'' || c == '\n' || c == '\r' || c == '\t'
}

pub open spec fn bad_path_char(c: char) -> bool {
    forbidden_path_char(c) || is_control(c)
}

/// Index of the first refused character of `p`, if any.
pub open spec fn first_bad_path_char(p: Seq<char>) -> Option<int> {
    if exists|i: int| 0 <= i < p.len() && bad_path_char(p[i]) {
        Some(choose|i: int| 0 <= i < p.len() && bad_path_char(p[i]) && forall|j: int|
            0 <= j < i ==> !bad_path_char(p[j]))
    } else {
        None
    }
}

/// `char::escape_default` of one character, for the ones a refused path
/// character can be (ASCII): `\t`, `\r`, `\n`, `\'`, `\"`, `\\`, printable
/// ASCII as itself, any other character as `\u{..}` in lowercase hex.
pub open spec fn escape_default(c: char) -> Seq<char> {
    if c == '\t' {
        "\\t"@
    } else if c == '\r' {
        "\\r"@
    } else if c == '\n' {
        "\\n"@
    } else if c == '\'' {
        "\\'"@
    } else if c == '"' {
        "\\\""@
    } else if c == '\\' {
        "\\\\"@
    } else if ' ' <= c && c <= '~' {
        seq![c]
    } else {
        "\\u{"@ + hex(c as nat) + "}"@
    }
}

/// What `validate_remote_path` answers for `p`.
pub open spec fn remote_path_verdict(p: Seq<char>) -> Result<(), Seq<char>> {
    if p.len() == 0 {
        Err("Ruta vacía"@)
    } else if byte_len(p) > 4096 {
        Err("Ruta demasiado larga (>4096)"@)
    } else if contains(p, ".."@) {
        Err("Ruta inválida: '..' no permitido (path traversal)"@)
    } else if has_char(p, '\0') {
        Err("Ruta inválida: contiene byte nulo"@)
    } else {
        match first_bad_path_char(p) {
            Some(i) => Err("Ruta inválida: contiene carácter prohibido '"@ + escape_default(p[i])
                + "' (shell metacharacter o control byte)"@),
            None => Ok(()),
        }
    }
}

/// Builds `a + s + b`.
fn wrap3(a: &str, s: &str, b: &str) -> (r: String)
    ensures
        r@ == a@ + s@ + b@,
{
    let mut r = copy_str(a);
    append(&mut r, s);
    append(&mut r, b);
    r
}

fn all_host_chars(v: &Vec<char>) -> (b: bool)
    ensures
        b == all_chars(v@, |c: char| host_char_ok(c)),
{
    let mut i: usize = 0;
    while i < v.len()
        invariant
            i <= v.len(),
            forall|j: int| 0 <= j < i ==> host_char_ok(v@[j]),
        decreases v.len() - i,
    {
        let c = v[i];
        if !(ascii_alnum(c) || c == '.' || c == '-' || c == '_' || c == '[' || c == ']' || c
            == ':') {
            return false;
        }
        i += 1;
    }
    true
}

fn all_user_chars(v: &Vec<char>) -> (b: bool)
    ensures
        b == all_chars(v@, |c: char| user_char_ok(c)),
{
    let mut i: usize = 0;
    while i < v.len()
        invariant
            i <= v.len(),
            forall|j: int| 0 <= j < i ==> user_char_ok(v@[j]),
        decreases v.len() - i,
    {
        let c = v[i];
        if !(ascii_alnum(c) || c == '.' || c == '-' || c == '_' || c == '\\' || c == '@') {
            return false;
        }
        i += 1;
    }
    true
}

/// Validate that a host string is a safe IP or hostname: non-empty, at most
/// 253 bytes, not starting with `-` (argv injection), ASCII alphanumerics and
/// `.`, `-`, `_`, `[`, `]`, `:` only.
pub fn validate_host(host: &str) -> (r: Result<(), String>)
    ensures
        r.is_ok() <==> host_verdict(host@) is Ok,
        r matches Err(m) ==> host_verdict(host@) == Err::<(), Seq<char>>(m@),
{
    let v = chars_of(host);
    if v.len() == 0 || host.as_bytes().len() > 253 {
        return Err(copy_str("Host inválido: vacío o demasiado largo."));
    }
    if v[0] == '-' {
        return Err(
            wrap3(
                "Host inválido '",
                host,
                "': no puede comenzar con '-' (riesgo de argv-injection).",
            ),
        );
    }
    if !all_host_chars(&v) {
        return Err(
            wrap3(
                "Host inválido '",
                host,
                "': solo se permiten IPs y nombres DNS ASCII (sin caracteres especiales o Unicode).",
            ),
        );
    }
    Ok(())
}

/// Validate that a password is sane-sized: at most 256 bytes. Any characters
/// are allowed, and so is the empty password.
pub fn validate_password(pwd: &str) -> (r: Result<(), String>)
    ensures
        r.is_ok() <==> password_verdict(pwd@) is Ok,
        r matches Err(m) ==> password_verdict(pwd@) == Err::<(), Seq<char>>(m@),
{
    if pwd.as_bytes().len() > 256 {
        return Err(copy_str("Password inválido: excede 256 caracteres (límite de seguridad)."));
    }
    Ok(())
}

/// Validate that a user name is non-empty, at most 128 bytes, does not start
/// with `-`, and holds only ASCII alphanumerics and `.`, `-`, `_`, `\`, `@`.
pub fn validate_username(user: &str) -> (r: Result<(), String>)
    ensures
        r.is_ok() <==> user_verdict(user@) is Ok,
        r matches Err(m) ==> user_verdict(user@) == Err::<(), Seq<char>>(m@),
{
    let v = chars_of(user);
    if v.len() == 0 || user.as_bytes().len() > 128 {
        return Err(copy_str("Username inválido: vacío o demasiado largo."));
    }
    if v[0] == '-' {
        return Err(
            wrap3(
                "Username inválido '",
                user,
                "': no puede comenzar con '-' (riesgo de argv-injection).",
            ),
        );
    }
    if !all_user_chars(&v) {
        return Err(
            wrap3(
                "Username inválido '",
                user,
                "': solo se permiten caracteres ASCII alfanuméricos, '.', '-', '_', '\\\\', '@'.",
            ),
        );
    }
    Ok(())
}

} // verus!

verus! {

fn bad_char(c: char) -> (b: bool)
    ensures
        b == bad_path_char(c),
{
    c == ';' || c == '|' || c == '&' || c == '$' || c == '!' || c == '<' || c == '>' || c == '*'
        || c == '?' || c == '[' || c == ']' || c == '{' || c == '}' || c == '#' || c == '`'
        || c == '"' || c == '\'' || c == '\n' || c == '\r' || c == '\t' || c <= '\u{1f}' || (
    '\u{7f}' <= c && c <= '\u{9f}')
}

fn escape_char(c: char) -> (s: String)
    ensures
        s@ == escape_default(c),
{
    if c == '\t' {
        copy_str("\\t")
    } else if c == '\r' {
        copy_str("\\r")
    } else if c == '\n' {
        copy_str("\\n")
    } else if c == '\'' {
        copy_str("\\'")
    } else if c == '"' {
        copy_str("\\\"")
    } else if c == '\\' {
        copy_str("\\\\")
    } else if ' ' <= c && c <= '~' {
        let mut s = String::new();
        push_char(&mut s, c);
        assert(s@ =~= seq![c]);
        s
    } else {
        let h = hex_u64(c as u32 as u64);
        let mut s = copy_str("\\u{");
        append(&mut s, h.as_str());
        append(&mut s, "}");
        s
    }
}

/// Validate a remote file path before it is single-quoted into a bash or
/// PowerShell command: non-empty, at most 4096 bytes, no `..`, no NUL, and
/// none of the shell metacharacters `; | & $ ! < > * ? [ ] { } # ` " '`,
/// newline, carriage return, tab, or any control character.
pub fn validate_remote_path(p: &str) -> (r: Result<(), String>)
    ensures
        r.is_ok() <==> remote_path_verdict(p@) is Ok,
        r matches Err(m) ==> remote_path_verdict(p@) == Err::<(), Seq<char>>(m@),
{
    let v = chars_of(p);
    if v.len() == 0 {
        return Err(copy_str("Ruta vacía"));
    }
    if p.as_bytes().len() > 4096 {
        return Err(copy_str("Ruta demasiado larga (>4096)"));
    }
    let dots = chars_of("..");
    if has_sub(&v, &dots) {
        return Err(copy_str("Ruta inválida: '..' no permitido (path traversal)"));
    }
    if has_chr(&v, '\0') {
        return Err(copy_str("Ruta inválida: contiene byte nulo"));
    }
    let mut i: usize = 0;
    while i < v.len()
        invariant
            i <= v.len(),
            v@ == p@,
            v@.len() > 0,
            p@.len() > 0,
            byte_len(p@) <= 4096,
            !contains(p@, ".."@),
            !has_char(p@, '\0'),
            forall|j: int| 0 <= j < i ==> !bad_path_char(v@[j]),
        decreases v.len() - i,
    {
        if bad_char(v[i]) {
            let e = escape_char(v[i]);
            let mut m = copy_str("Ruta inválida: contiene carácter prohibido '");
            append(&mut m, e.as_str());
            append(&mut m, "' (shell metacharacter o control byte)");
            proof {
                assert(bad_path_char(p@[i as int]));
                assert(exists|k: int| 0 <= k < p@.len() && bad_path_char(p@[k]));
                assert(exists|k: int| 0 <= k < p@.len() && bad_path_char(p@[k]) && forall|j: int|
                    0 <= j < k ==> !bad_path_char(p@[j]));
                let k = choose|k: int| 0 <= k < p@.len() && bad_path_char(p@[k]) && forall|j: int|
                    0 <= j < k ==> !bad_path_char(p@[j]);
                assert(k == i) by {
                    if k < i {
                    } else if k > i {
                        assert(!bad_path_char(p@[i as int]));
                    }
                }
            }
            return Err(m);
        }
        i += 1;
    }
    Ok(())
}


/// A user name is accepted exactly when it is non-empty, at most 128
/// bytes, does not start with `-`, and every character is an ASCII letter
/// or digit or one of `.`, `-`, `_`, `\`, `@`.
pub proof fn law_username_accepted_iff_safe(u: Seq<char>)
    ensures
        user_verdict(u) is Ok <==> {
            &&& u.len() > 0
            &&& byte_len(u) <= 128
            &&& u[0] != '-'
            &&& forall|i: int| 0 <= i < u.len() ==> {
                let c = #[trigger] u[i];
                ('a' <= c && c <= 'z') || ('A' <= c && c <= 'Z') || ('0' <= c && c <= '9')
                    || c == '.' || c == '-' || c == '_' || c == '\\' || c == '@'
            }
        },
{
}

} // verus!
