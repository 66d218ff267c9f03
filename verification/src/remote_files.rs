//! Files on a remote host, read and written over SSH (bash) or WinRM
//! (PowerShell): the commands sent, carrying the content as base64, and
//! how the host's reply is read back.
use vstd::prelude::*;
use vstd::utf8::*;
use base64::Engine;
use crate::hosts::byte_len;
use crate::text::{
    append, chars_of, contains, dec, decimal, has_sub, has_prefix, lead_white, replace_all_str, replaced_all, remove_chars,
    starts_with, string_of_range, trail_white, trim, trim_str,
};

verus! {

/// The largest file read or written remotely, in bytes.
pub const MAX_REMOTE_FILE_BYTES: usize = 1048576;

/// What the remote helper prints before a categorised failure.
pub const REMOTE_ERROR_PREFIX: &'static str = "__LUCY_ERROR__:";

// ── Base64 ─────────────────────────────────────────────────────────────

/// The base64 digit for a value below 64 (standard alphabet).
pub open spec fn b64_digit(v: int) -> char {
    if v < 26 {
        (65 + v) as char
    } else if v < 52 {
        (97 + v - 26) as char
    } else if v < 62 {
        (48 + v - 52) as char
    } else if v == 62 {
        '+'
    } else {
        '/'
    }
}

/// Standard base64 with `=` padding: every three bytes become four digits.
pub open spec fn b64_encode(b: Seq<u8>) -> Seq<char>
    decreases b.len(),
{
    let x = b[0] as int;
    let y = if b.len() > 1 { b[1] as int } else { 0 };
    let z = if b.len() > 2 { b[2] as int } else { 0 };
    if b.len() == 0 {
        Seq::empty()
    } else if b.len() == 1 {
        seq![b64_digit(x / 4), b64_digit((x % 4) * 16), '=', '=']
    } else if b.len() == 2 {
        seq![b64_digit(x / 4), b64_digit((x % 4) * 16 + y / 16), b64_digit((y % 16) * 4), '=']
    } else {
        seq![b64_digit(x / 4), b64_digit((x % 4) * 16 + y / 16), b64_digit((y % 16) * 4 + z / 64), b64_digit(z % 64)]
            + b64_encode(b.skip(3))
    }
}

/// `base64::engine::general_purpose::STANDARD.encode`: the bytes in
/// standard base64 with padding, which the same engine decodes back.
#[verifier::external_body]
fn b64_encode_bytes(bytes: &[u8]) -> (s: String)
    ensures
        s@ == b64_encode(bytes@),
        decodes_to(s@, bytes@),
{
    base64::engine::general_purpose::STANDARD.encode(bytes)
}

/// What `STANDARD.decode(text)` gives: the bytes, or the error's message.
pub uninterp spec fn b64_decoded(text: Seq<char>) -> Result<Seq<u8>, Seq<char>>;

/// `text` decodes to exactly `bytes`.
pub open spec fn decodes_to(text: Seq<char>, bytes: Seq<u8>) -> bool {
    b64_decoded(text) == Ok::<Seq<u8>, Seq<char>>(bytes)
}

/// `base64::engine::general_purpose::STANDARD.decode`, the error shown as
/// text: the bytes a base64 text stands for, only named here.
#[verifier::external_body]
fn b64_decode_str(text: &str) -> (r: Result<Vec<u8>, String>)
    ensures
        match r {
            Ok(b) => (b64_decoded(text@) matches Ok(x) && x == b@),
            Err(e) => (b64_decoded(text@) matches Err(x) && x == e@),
        },
{
    base64::engine::general_purpose::STANDARD.decode(text).map_err(|e| e.to_string())
}

/// `String::from_utf8`: the text the bytes encode, when they are valid
/// UTF-8.
#[verifier::external_body]
fn utf8_text(bytes: Vec<u8>) -> (r: Option<String>)
    ensures
        r is Some <==> valid_utf8(bytes@),
        r matches Some(s) ==> s@ == decode_utf8(bytes@),
{
    String::from_utf8(bytes).ok()
}

// ── Commands ───────────────────────────────────────────────────────────

/// A path made safe inside single quotes: for bash each `'` closes,
/// escapes and reopens the quote; for PowerShell it is doubled.
pub open spec fn quote_escaped(path: Seq<char>, linux: bool) -> Seq<char> {
    if linux {
        replaced_all(path, "'"@, "'\\''"@)
    } else {
        replaced_all(path, "'"@, "''"@)
    }
}

fn escape_quotes(path: &str, linux: bool) -> (r: String)
    ensures
        r@ == quote_escaped(path@, linux),
{
    if linux {
        replace_all_str(path, "'", "'\\''")
    } else {
        replace_all_str(path, "'", "''")
    }
}

/// The command that prints a remote file as base64, or a categorised
/// failure (`__LUCY_ERROR__:` and a reason) when it is missing, not a
/// file, or unreadable.
pub open spec fn read_command_spec(path: Seq<char>, linux: bool) -> Seq<char> {
    let p = quote_escaped(path, linux);
    if linux {
        "if [ ! -e '"@ + p + "' ]; then echo '__LUCY_ERROR__:not_found'; exit 0; fi; if [ ! -f '"@ + p
            + "' ]; then echo '__LUCY_ERROR__:not_a_file'; exit 0; fi; if [ ! -r '"@ + p
            + "' ]; then echo '__LUCY_ERROR__:permission_denied'; exit 0; fi; base64 -w 0 '"@ + p
            + "' 2>/dev/null | head -c 4194304"@
    } else {
        "if (-not (Test-Path -LiteralPath '"@ + p + "')) { Write-Output '__LUCY_ERROR__:not_found'; } elseif ((Get-Item -LiteralPath '"@
            + p + "').PSIsContainer) { Write-Output '__LUCY_ERROR__:not_a_file'; } else { try { [Convert]::ToBase64String([System.IO.File]::ReadAllBytes('"@
            + p + "')) } catch { Write-Output ('__LUCY_ERROR__:' + ($_.Exception.GetType().Name)) } }"@
    }
}

/// The command that reads `path` on a Linux (bash) or Windows
/// (PowerShell) host.
pub fn remote_read_command(path: &str, linux: bool) -> (r: String)
    ensures
        r@ == read_command_spec(path@, linux),
{
    let p = escape_quotes(path, linux);
    let p = p.as_str();
    if linux {
        let mut r = String::from_str("if [ ! -e '");
        append(&mut r, p);
        append(&mut r, "' ]; then echo '__LUCY_ERROR__:not_found'; exit 0; fi; if [ ! -f '");
        append(&mut r, p);
        append(&mut r, "' ]; then echo '__LUCY_ERROR__:not_a_file'; exit 0; fi; if [ ! -r '");
        append(&mut r, p);
        append(&mut r, "' ]; then echo '__LUCY_ERROR__:permission_denied'; exit 0; fi; base64 -w 0 '");
        append(&mut r, p);
        append(&mut r, "' 2>/dev/null | head -c 4194304");
        r
    } else {
        let mut r = String::from_str("if (-not (Test-Path -LiteralPath '");
        append(&mut r, p);
        append(&mut r, "')) { Write-Output '__LUCY_ERROR__:not_found'; } elseif ((Get-Item -LiteralPath '");
        append(&mut r, p);
        append(
            &mut r,
            "').PSIsContainer) { Write-Output '__LUCY_ERROR__:not_a_file'; } else { try { [Convert]::ToBase64String([System.IO.File]::ReadAllBytes('",
        );
        append(&mut r, p);
        append(&mut r, "')) } catch { Write-Output ('__LUCY_ERROR__:' + ($_.Exception.GetType().Name)) } }");
        r
    }
}

/// The command that writes `content` to `path` (after copying the old file
/// to `path.lucy.bak` when `backup`), and prints `OK:` and the byte count.
pub open spec fn write_command_spec(path: Seq<char>, content: Seq<char>, linux: bool, backup: bool) -> Seq<char> {
    let p = quote_escaped(path, linux);
    let b64 = b64_encode(encode_utf8(content));
    let n = decimal(byte_len(content));
    if linux {
        (if backup {
            "[ -f '"@ + p + "' ] && cp -p '"@ + p + "' '"@ + p + ".lucy.bak' 2>/dev/null; "@
        } else {
            Seq::empty()
        }) + "printf '%s' '"@ + b64 + "' | base64 -d > '"@ + p + "' && echo 'OK:"@ + n + "'"@
    } else {
        (if backup {
            "if (Test-Path '"@ + p + "') { Copy-Item '"@ + p + "' '"@ + p + ".lucy.bak' -Force }; "@
        } else {
            Seq::empty()
        }) + "$bytes = [Convert]::FromBase64String('"@ + b64 + "'); [System.IO.File]::WriteAllBytes('"@ + p
            + "', $bytes); Write-Output 'OK:"@ + n + "'"@
    }
}

/// The command that writes `content` to `path` on the host.
pub fn remote_write_command(path: &str, content: &str, linux: bool, backup: bool) -> (r: String)
    ensures
        r@ == write_command_spec(path@, content@, linux, backup),
{
    let p = escape_quotes(path, linux);
    let p = p.as_str();
    let b64 = b64_encode_bytes(content.as_bytes());
    let n = dec(content.as_bytes().len() as u64);
    let mut r = String::new();
    if linux {
        if backup {
            append(&mut r, "[ -f '");
            append(&mut r, p);
            append(&mut r, "' ] && cp -p '");
            append(&mut r, p);
            append(&mut r, "' '");
            append(&mut r, p);
            append(&mut r, ".lucy.bak' 2>/dev/null; ");
        }
        append(&mut r, "printf '%s' '");
        append(&mut r, b64.as_str());
        append(&mut r, "' | base64 -d > '");
        append(&mut r, p);
        append(&mut r, "' && echo 'OK:");
        append(&mut r, n.as_str());
        append(&mut r, "'");
    } else {
        if backup {
            append(&mut r, "if (Test-Path '");
            append(&mut r, p);
            append(&mut r, "') { Copy-Item '");
            append(&mut r, p);
            append(&mut r, "' '");
            append(&mut r, p);
            append(&mut r, ".lucy.bak' -Force }; ");
        }
        append(&mut r, "$bytes = [Convert]::FromBase64String('");
        append(&mut r, b64.as_str());
        append(&mut r, "'); [System.IO.File]::WriteAllBytes('");
        append(&mut r, p);
        append(&mut r, "', $bytes); Write-Output 'OK:");
        append(&mut r, n.as_str());
        append(&mut r, "'");
    }
    r
}

// ── Replies ────────────────────────────────────────────────────────────

/// A line break, carriage return or space, dropped from a base64 reply.
pub open spec fn b64_noise(c: char) -> bool {
    c == '\n' || c == '\r' || c == ' '
}

/// A reply as decoded: trimmed, with every line break, carriage return and
/// space removed.
pub open spec fn cleaned_reply(out: Seq<char>) -> Seq<char> {
    remove_chars(trim(out), |c: char| b64_noise(c))
}

/// What a read of `path` gives from the host's reply: the categorised
/// failure it reports, or the text the base64 stands for, when it decodes
/// to at most 1 MB of UTF-8.
pub open spec fn read_reply_spec(path: Seq<char>, out: Seq<char>) -> Result<Seq<char>, Seq<char>> {
    let c = cleaned_reply(out);
    if starts_with(c, REMOTE_ERROR_PREFIX@) {
        let reason = c.skip(REMOTE_ERROR_PREFIX@.len() as int);
        Err(
            if reason == "not_found"@ {
                "Archivo no encontrado: "@ + path
            } else if reason == "not_a_file"@ {
                "La ruta existe pero no es un archivo regular: "@ + path
            } else if reason == "permission_denied"@ {
                "Permiso denegado al leer: "@ + path
            } else {
                "Error remoto al leer '"@ + path + "': "@ + reason
            },
        )
    } else {
        match b64_decoded(c) {
            Err(e) => Err(
                "Error decodificando base64 desde host: "@ + e
                    + " (¿el archivo es binario o el remoto truncó la salida?)"@,
            ),
            Ok(b) => if b.len() > MAX_REMOTE_FILE_BYTES {
                Err("Archivo demasiado grande ("@ + decimal(b.len()) + " bytes, máx 1 MB para edición remota)"@)
            } else if valid_utf8(b) {
                Ok(decode_utf8(b))
            } else {
                Err("El archivo contiene bytes no-UTF8 — solo se admiten archivos de texto para edición"@)
            },
        }
    }
}

/// The reply without surrounding whitespace, line breaks, carriage
/// returns or spaces.
fn clean_reply(out: &str) -> (r: String)
    ensures
        r@ == cleaned_reply(out@),
{
    let t = trim_str(out);
    let v = chars_of(t.as_str());
    let mut kept: Vec<char> = Vec::new();
    let mut k: usize = 0;
    while k < v.len()
        invariant
            k <= v.len(),
            v@ == trim(out@),
            kept@ == remove_chars(v@.take(k as int), |c: char| b64_noise(c)),
        decreases v.len() - k,
    {
        let c = v[k];
        assert(v@.take(k + 1).drop_last() =~= v@.take(k as int));
        assert(v@.take(k + 1).last() == c);
        if !(c == '\n' || c == '\r' || c == ' ') {
            kept.push(c);
        }
        k += 1;
    }
    assert(v@.take(v@.len() as int) =~= v@);
    string_of_range(&kept, 0, kept.len())
}

/// What reading `path` gives from the host's reply `out`.
pub fn read_remote_reply(path: &str, out: &str) -> (r: Result<String, String>)
    ensures
        match r {
            Ok(s) => read_reply_spec(path@, out@) == Ok::<Seq<char>, Seq<char>>(s@),
            Err(e) => read_reply_spec(path@, out@) == Err::<Seq<char>, Seq<char>>(e@),
        },
{
    let c = clean_reply(out);
    let cv = chars_of(c.as_str());
    let pre = chars_of(REMOTE_ERROR_PREFIX);
    if has_prefix(&cv, &pre) {
        proof {
            reveal_strlit("__LUCY_ERROR__:");
        }
        let reason = string_of_range(&cv, pre.len(), cv.len());
        let rv = chars_of(reason.as_str());
        let nf = chars_of("not_found");
        let nd = chars_of("not_a_file");
        let pd = chars_of("permission_denied");
        let m = if crate::text::same(&rv, &nf) {
            let mut m = String::from_str("Archivo no encontrado: ");
            append(&mut m, path);
            m
        } else if crate::text::same(&rv, &nd) {
            let mut m = String::from_str("La ruta existe pero no es un archivo regular: ");
            append(&mut m, path);
            m
        } else if crate::text::same(&rv, &pd) {
            let mut m = String::from_str("Permiso denegado al leer: ");
            append(&mut m, path);
            m
        } else {
            let mut m = String::from_str("Error remoto al leer '");
            append(&mut m, path);
            append(&mut m, "': ");
            append(&mut m, reason.as_str());
            m
        };
        return Err(m);
    }
    match b64_decode_str(c.as_str()) {
        Err(e) => {
            let mut m = String::from_str("Error decodificando base64 desde host: ");
            append(&mut m, e.as_str());
            append(&mut m, " (¿el archivo es binario o el remoto truncó la salida?)");
            Err(m)
        },
        Ok(bytes) => {
            if bytes.len() > MAX_REMOTE_FILE_BYTES {
                let mut m = String::from_str("Archivo demasiado grande (");
                append(&mut m, dec(bytes.len() as u64).as_str());
                append(&mut m, " bytes, máx 1 MB para edición remota)");
                return Err(m);
            }
            match utf8_text(bytes) {
                Some(s) => Ok(s),
                None => Err(String::from_str("El archivo contiene bytes no-UTF8 — solo se admiten archivos de texto para edición")),
            }
        },
    }
}

/// Whether `content` may be written remotely: at most 1 MB.
pub open spec fn write_size_verdict(content: Seq<char>) -> Result<(), Seq<char>> {
    if byte_len(content) > MAX_REMOTE_FILE_BYTES {
        Err("Contenido demasiado grande ("@ + decimal(byte_len(content)) + " bytes, máx 1 MB)"@)
    } else {
        Ok(())
    }
}

/// Refuses content over 1 MB before anything is sent.
pub fn check_write_size(content: &str) -> (r: Result<(), String>)
    ensures
        match r {
            Ok(()) => write_size_verdict(content@) is Ok,
            Err(e) => write_size_verdict(content@) == Err::<(), Seq<char>>(e@),
        },
{
    let n = content.as_bytes().len();
    if n > MAX_REMOTE_FILE_BYTES {
        let mut m = String::from_str("Contenido demasiado grande (");
        append(&mut m, dec(n as u64).as_str());
        append(&mut m, " bytes, máx 1 MB)");
        Err(m)
    } else {
        Ok(())
    }
}

/// What a write of `content` to `path` reports from the host's reply: a
/// failure unless the reply holds `OK:`, else the bytes written and where
/// the backup went.
pub open spec fn write_reply_spec(path: Seq<char>, content: Seq<char>, out: Seq<char>, backup: bool) -> Result<
    Seq<char>,
    Seq<char>,
> {
    if !contains(out, "OK:"@) {
        Err("Error escribiendo archivo remoto: "@ + trim(out))
    } else if backup {
        Ok(decimal(byte_len(content)) + " bytes escritos. Backup: "@ + path + ".lucy.bak"@)
    } else {
        Ok(decimal(byte_len(content)) + " bytes escritos."@)
    }
}

/// What writing `content` to `path` reports from the host's reply `out`.
pub fn write_remote_reply(path: &str, content: &str, out: &str, backup: bool) -> (r: Result<String, String>)
    ensures
        match r {
            Ok(s) => write_reply_spec(path@, content@, out@, backup) == Ok::<Seq<char>, Seq<char>>(s@),
            Err(e) => write_reply_spec(path@, content@, out@, backup) == Err::<Seq<char>, Seq<char>>(e@),
        },
{
    let ov = chars_of(out);
    let ok = chars_of("OK:");
    if !has_sub(&ov, &ok) {
        let mut m = String::from_str("Error escribiendo archivo remoto: ");
        append(&mut m, trim_str(out).as_str());
        return Err(m);
    }
    let mut m = dec(content.as_bytes().len() as u64);
    if backup {
        append(&mut m, " bytes escritos. Backup: ");
        append(&mut m, path);
        append(&mut m, ".lucy.bak");
    } else {
        append(&mut m, " bytes escritos.");
    }
    Ok(m)
}

// ── Laws ───────────────────────────────────────────────────────────────

/// A character of base64 text: a digit of the standard alphabet or `=`.
pub open spec fn b64_text_char(c: char) -> bool {
    ('0' <= c && c <= '9') || ('A' <= c && c <= 'Z') || ('a' <= c && c <= 'z') || c == '+' || c == '/' || c == '='
}

proof fn lemma_digit_in_alphabet(v: int)
    requires
        0 <= v < 64,
    ensures
        b64_text_char(b64_digit(v)),
{
}

/// Base64 text holds only alphabet characters and padding.
proof fn lemma_b64_alphabet(b: Seq<u8>)
    ensures
        forall|i: int| 0 <= i < b64_encode(b).len() ==> b64_text_char(#[trigger] b64_encode(b)[i]),
    decreases b.len(),
{
    if b.len() > 0 {
        let x = b[0] as int;
        let y = if b.len() > 1 { b[1] as int } else { 0 };
        let z = if b.len() > 2 { b[2] as int } else { 0 };
        lemma_digit_in_alphabet(x / 4);
        lemma_digit_in_alphabet((x % 4) * 16);
        lemma_digit_in_alphabet((x % 4) * 16 + y / 16);
        lemma_digit_in_alphabet((y % 16) * 4);
        lemma_digit_in_alphabet((y % 16) * 4 + z / 64);
        lemma_digit_in_alphabet(z % 64);
        if b.len() > 2 {
            lemma_b64_alphabet(b.skip(3));
            let head = seq![b64_digit(x / 4), b64_digit((x % 4) * 16 + y / 16), b64_digit((y % 16) * 4 + z / 64), b64_digit(z % 64)];
            assert forall|i: int| 0 <= i < b64_encode(b).len() implies b64_text_char(#[trigger] b64_encode(b)[i]) by {
                if i >= 4 {
                    assert(b64_encode(b)[i] == b64_encode(b.skip(3))[i - 4]);
                } else {
                    assert(b64_encode(b)[i] == head[i]);
                }
            }
        }
    }
}

/// Nothing is removed from a text none of whose characters is noise.
proof fn lemma_remove_nothing(s: Seq<char>)
    requires
        forall|i: int| 0 <= i < s.len() ==> !b64_noise(#[trigger] s[i]),
    ensures
        remove_chars(s, |c: char| b64_noise(c)) == s,
    decreases s.len(),
{
    if s.len() > 0 {
        lemma_remove_nothing(s.drop_last());
        assert(s.drop_last().push(s.last()) =~= s);
    }
}

/// Content written remotely reads back unchanged: when the host answers a
/// read with the base64 a write of `content` sent (text that decodes back
/// to the content's bytes, as the encoder states), the read gives
/// `content`, provided it is within the 1 MB limit.
pub proof fn law_written_content_reads_back(path: Seq<char>, content: Seq<char>)
    requires
        byte_len(content) <= MAX_REMOTE_FILE_BYTES,
        decodes_to(b64_encode(encode_utf8(content)), encode_utf8(content)),
    ensures
        read_reply_spec(path, b64_encode(encode_utf8(content))) == Ok::<Seq<char>, Seq<char>>(content),
{
    let t = b64_encode(encode_utf8(content));
    lemma_b64_alphabet(encode_utf8(content));
    assert(lead_white(t) == 0) by {
        if t.len() > 0 {
            assert(b64_text_char(t[0]));
        }
    }
    assert(trail_white(t) == 0) by {
        if t.len() > 0 {
            assert(b64_text_char(t[t.len() - 1]));
        }
    }
    assert(trim(t) =~= t);
    assert forall|i: int| 0 <= i < t.len() implies !b64_noise(#[trigger] t[i]) by {
        assert(b64_text_char(t[i]));
    }
    lemma_remove_nothing(t);
    assert(cleaned_reply(t) == t);
    reveal_strlit("__LUCY_ERROR__:");
    if starts_with(t, REMOTE_ERROR_PREFIX@) {
        assert(t[0] == REMOTE_ERROR_PREFIX@[0]);
        assert(b64_text_char(t[0]));
    }
    vstd::utf8::encode_utf8_valid_utf8(content);
    vstd::utf8::encode_utf8_decode_utf8(content);
}

} // verus!
