//! The local desktop agent: its gate (confirmed, one run at a time), the
//! decision before each step, the keys it presses (key names and chords
//! such as `ctrl+c` to Windows virtual-key codes), and the conversation
//! window it keeps.
use vstd::prelude::*;
use crate::text::{chars_of, same, split, split_of, cviews, to_lowercase, unicode_lower, words, words_of};

verus! {

/// The virtual-key code of a modifier, by its lowercased name (0 when it
/// is not one).
pub open spec fn modifier_code(lowered: Seq<char>) -> u8 {
    if lowered == "ctrl"@ || lowered == "control"@ {
        0x11
    } else if lowered == "alt"@ {
        0x12
    } else if lowered == "shift"@ {
        0x10
    } else if lowered == "win"@ || lowered == "super"@ {
        0x5B
    } else {
        0
    }
}

/// The code of a function key `f1`..`f12`, by its lowercased name (0 when
/// it is not one).
pub open spec fn function_key_code(lowered: Seq<char>) -> u8 {
    if lowered == "f1"@ {
        0x70
    } else if lowered == "f2"@ {
        0x71
    } else if lowered == "f3"@ {
        0x72
    } else if lowered == "f4"@ {
        0x73
    } else if lowered == "f5"@ {
        0x74
    } else if lowered == "f6"@ {
        0x75
    } else if lowered == "f7"@ {
        0x76
    } else if lowered == "f8"@ {
        0x77
    } else if lowered == "f9"@ {
        0x78
    } else if lowered == "f10"@ {
        0x79
    } else if lowered == "f11"@ {
        0x7A
    } else if lowered == "f12"@ {
        0x7B
    } else {
        0
    }
}

/// The code of a navigation or editing key, by its lowercased name (0
/// when it is not one).
pub open spec fn named_key_code(lowered: Seq<char>) -> u8 {
    if lowered == "return"@ || lowered == "enter"@ || lowered == "\n"@ {
        0x0D
    } else if lowered == "escape"@ || lowered == "esc"@ {
        0x1B
    } else if lowered == "tab"@ {
        0x09
    } else if lowered == "backspace"@ {
        0x08
    } else if lowered == "delete"@ || lowered == "del"@ {
        0x2E
    } else if lowered == "space"@ {
        0x20
    } else if lowered == "home"@ {
        0x24
    } else if lowered == "end"@ {
        0x23
    } else if lowered == "pageup"@ {
        0x21
    } else if lowered == "pagedown"@ {
        0x22
    } else if lowered == "left"@ {
        0x25
    } else if lowered == "up"@ {
        0x26
    } else if lowered == "right"@ {
        0x27
    } else if lowered == "down"@ {
        0x28
    } else {
        function_key_code(lowered)
    }
}

/// The code of a key, by its lowercased name: a named key, else a single
/// ASCII character as its uppercase code, else 0.
pub open spec fn key_code(lowered: Seq<char>) -> u8 {
    if named_key_code(lowered) != 0 {
        named_key_code(lowered)
    } else if lowered.len() == 1 && (lowered[0] as u32) < 128 {
        let c = lowered[0] as u32;
        (if 97 <= c <= 122 { c - 32 } else { c as int }) as u8
    } else {
        0
    }
}

fn is(v: &Vec<char>, lit: &str) -> (b: bool)
    ensures
        b == (v@ == lit@),
{
    same(v, &chars_of(lit))
}

/// The virtual-key code of a modifier name (any case; 0 when it is not
/// one).
pub fn modifier_vk(name: &str) -> (k: u8)
    ensures
        k == modifier_code(unicode_lower(name@)),
{
    let l = chars_of(to_lowercase(name).as_str());
    if is(&l, "ctrl") || is(&l, "control") {
        0x11
    } else if is(&l, "alt") {
        0x12
    } else if is(&l, "shift") {
        0x10
    } else if is(&l, "win") || is(&l, "super") {
        0x5B
    } else {
        0
    }
}

fn function_vk(l: &Vec<char>) -> (k: u8)
    ensures
        k == function_key_code(l@),
{
    if is(l, "f1") {
        0x70
    } else if is(l, "f2") {
        0x71
    } else if is(l, "f3") {
        0x72
    } else if is(l, "f4") {
        0x73
    } else if is(l, "f5") {
        0x74
    } else if is(l, "f6") {
        0x75
    } else if is(l, "f7") {
        0x76
    } else if is(l, "f8") {
        0x77
    } else if is(l, "f9") {
        0x78
    } else if is(l, "f10") {
        0x79
    } else if is(l, "f11") {
        0x7A
    } else if is(l, "f12") {
        0x7B
    } else {
        0
    }
}

fn named_key_vk(l: &Vec<char>) -> (k: u8)
    ensures
        k == named_key_code(l@),
{
    if is(l, "return") || is(l, "enter") || is(l, "\n") {
        0x0D
    } else if is(l, "escape") || is(l, "esc") {
        0x1B
    } else if is(l, "tab") {
        0x09
    } else if is(l, "backspace") {
        0x08
    } else if is(l, "delete") || is(l, "del") {
        0x2E
    } else if is(l, "space") {
        0x20
    } else if is(l, "home") {
        0x24
    } else if is(l, "end") {
        0x23
    } else if is(l, "pageup") {
        0x21
    } else if is(l, "pagedown") {
        0x22
    } else if is(l, "left") {
        0x25
    } else if is(l, "up") {
        0x26
    } else if is(l, "right") {
        0x27
    } else if is(l, "down") {
        0x28
    } else {
        function_vk(l)
    }
}

/// The virtual-key code of a key name (any case): named keys, `f1`..`f12`,
/// or a single ASCII character (letters as their uppercase code); 0 for
/// anything else.
pub fn named_vk(name: &str) -> (k: u8)
    ensures
        k == key_code(unicode_lower(name@)),
{
    let l = chars_of(to_lowercase(name).as_str());
    let n = named_key_vk(&l);
    if n != 0 {
        return n;
    }
    if l.len() == 1 && (l[0] as u32) < 128 {
        let c = l[0] as u32;
        if 97 <= c && c <= 122 {
            (c - 32) as u8
        } else {
            c as u8
        }
    } else {
        0
    }
}

/// The modifiers of a chord that name a modifier, in order.
pub open spec fn modifier_codes(parts: Seq<Seq<char>>) -> Seq<u8>
    decreases parts.len(),
{
    if parts.len() == 0 {
        Seq::empty()
    } else if modifier_code(unicode_lower(parts.last())) != 0 {
        modifier_codes(parts.drop_last()).push(modifier_code(unicode_lower(parts.last())))
    } else {
        modifier_codes(parts.drop_last())
    }
}

/// A chord such as `ctrl+shift+t`: the modifiers pressed (every `+`
/// separated part but the last that names a modifier) and the main key's
/// code (0 when it names none).
pub open spec fn chord_spec(key: Seq<char>) -> (Seq<u8>, u8) {
    let parts = split(key, '+');
    if parts.len() == 0 {
        (Seq::empty(), 0)
    } else {
        (modifier_codes(parts.drop_last()), key_code(unicode_lower(parts.last())))
    }
}

/// The keys a chord presses: its modifiers, in order, then its main key
/// (0 when it names none).
pub fn key_chord(key: &str) -> (r: (Vec<u8>, u8))
    ensures
        (r.0@, r.1) == chord_spec(key@),
{
    let parts = split_of(&chars_of(key), '+');
    let ghost pv = cviews(parts@);
    if parts.len() == 0 {
        return (Vec::new(), 0);
    }
    let mut mods: Vec<u8> = Vec::new();
    let mut i: usize = 0;
    assert(pv.drop_last().take(0) =~= Seq::<Seq<char>>::empty());
    while i + 1 < parts.len()
        invariant
            i + 1 <= parts.len(),
            pv == cviews(parts@),
            mods@ == modifier_codes(pv.drop_last().take(i as int)),
        decreases parts.len() - i,
    {
        let s = crate::text::string_of(&parts[i]);
        let m = modifier_vk(s.as_str());
        assert(pv.drop_last().take(i + 1).drop_last() =~= pv.drop_last().take(i as int));
        assert(pv.drop_last().take(i + 1).last() == parts@[i as int]@);
        if m != 0 {
            mods.push(m);
        }
        i += 1;
    }
    assert(pv.drop_last().take(i as int) =~= pv.drop_last());
    let last = crate::text::string_of(&parts[parts.len() - 1]);
    (mods, named_vk(last.as_str()))
}

/// The keys an agent's key action presses, one chord per
/// whitespace-separated word.
pub fn key_sequence(text: &str) -> (r: Vec<(Vec<u8>, u8)>)
    ensures
        r@.len() == words(text@).len(),
        forall|i: int| 0 <= i < r@.len() ==> ((#[trigger] r@[i]).0@, r@[i].1) == chord_spec(words(text@)[i]),
{
    let ws = words_of(&chars_of(text));
    let mut r: Vec<(Vec<u8>, u8)> = Vec::new();
    let mut i: usize = 0;
    while i < ws.len()
        invariant
            i <= ws.len(),
            cviews(ws@) == words(text@),
            r@.len() == i,
            forall|k: int| 0 <= k < i ==> ((#[trigger] r@[k]).0@, r@[k].1) == chord_spec(words(text@)[k]),
        decreases ws.len() - i,
    {
        let w = crate::text::string_of(&ws[i]);
        assert(cviews(ws@)[i as int] == ws@[i as int]@);
        r.push(key_chord(w.as_str()));
        i += 1;
    }
    r
}

// ── The conversation window ────────────────────────────────────────────

/// The agent's messages after trimming: past eight, the first message
/// (the task) and the last six.
pub open spec fn trimmed_history<T>(m: Seq<T>) -> Seq<T> {
    if m.len() > 8 {
        seq![m[0]] + m.subrange(m.len() - 6, m.len() as int)
    } else {
        m
    }
}

/// Keeps the agent's conversation short: past eight messages, the first
/// and the last six.
pub fn trim_history<T>(messages: Vec<T>) -> (r: Vec<T>)
    ensures
        r@ == trimmed_history(messages@),
{
    if messages.len() <= 8 {
        return messages;
    }
    let n = messages.len();
    let mut rest = messages;
    let mut tail: Vec<T> = rest.split_off(n - 6);
    rest.truncate(1);
    rest.append(&mut tail);
    assert(rest@ =~= trimmed_history(messages@));
    rest
}

// ── Starting a run, and each step ────────────────────────────────────────────────────────────────────────────────

/// Steps a run takes when none is asked for.
pub const DEFAULT_AGENT_STEPS: u32 = 15;

/// Whether a local-control run may start: only when the user confirmed
/// it, and only one at a time.
pub open spec fn agent_start_spec(confirm: bool, already_running: bool) -> Result<(), Seq<char>> {
    if !confirm {
        Err("Control local no confirmado por el usuario (gate de seguridad)."@)
    } else if already_running {
        Err("Ya hay un agente local en ejecución."@)
    } else {
        Ok(())
    }
}

/// Whether a local-control run may start, and if not, why.
pub fn agent_may_start(confirm: bool, already_running: bool) -> (r: Result<(), String>)
    ensures
        match r {
            Ok(()) => agent_start_spec(confirm, already_running) is Ok,
            Err(e) => agent_start_spec(confirm, already_running) == Err::<(), Seq<char>>(e@),
        },
{
    if !confirm {
        Err(String::from_str("Control local no confirmado por el usuario (gate de seguridad)."))
    } else if already_running {
        Err(String::from_str("Ya hay un agente local en ejecución."))
    } else {
        Ok(())
    }
}

/// What the run does before its next step.
#[derive(PartialEq, Eq, Structural, Debug, Clone, Copy)]
pub enum AgentNext {
    /// The user stopped it.
    Cancelled,
    /// The step limit was reached.
    LimitReached,
    /// Take step `step` (1-based).
    Step { step: u32 },
}

/// Before each step: stop when cancelled, end at the step limit, else take
/// the next step.
pub fn agent_next(cancelled: bool, steps_taken: u32, max_steps: u32) -> (r: AgentNext)
    ensures
        r == (if cancelled {
            AgentNext::Cancelled
        } else if steps_taken >= max_steps {
            AgentNext::LimitReached
        } else {
            AgentNext::Step { step: (steps_taken + 1) as u32 }
        }),
{
    if cancelled {
        AgentNext::Cancelled
    } else if steps_taken >= max_steps {
        AgentNext::LimitReached
    } else {
        AgentNext::Step { step: steps_taken + 1 }
    }
}

/// A model reply ends the run when it asks for no action or says to stop.
pub fn reply_ends_run(action_count: usize, should_stop: bool) -> (b: bool)
    ensures
        b == (action_count == 0 || should_stop),
{
    action_count == 0 || should_stop
}

} // verus!
