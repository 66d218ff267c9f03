//! Grounding inputs: the checks an evidence event or a provenance quote
//! passes before it is stored, and which memory it is stored against.
use vstd::prelude::*;
use crate::text::{append, chars_of, copy_str, digits_value, all_digits, parse_uint, parse_unsigned, same};

verus! {

/// What `str::parse::<i64>` gives: an optional sign, then one or more
/// ASCII digits, the value within `i64`.
pub open spec fn parse_i64(s: Seq<char>) -> Option<int> {
    if s.len() > 0 && s[0] == '-' {
        let d = s.drop_first();
        if d.len() > 0 && all_digits(d) && digits_value(d) <= 9223372036854775808 {
            Some(-(digits_value(d) as int))
        } else {
            None
        }
    } else {
        match parse_unsigned(s, 9223372036854775807) {
            Some(v) => Some(v as int),
            None => None,
        }
    }
}

/// `str::parse::<i64>`.
pub fn parse_i64_str(s: &str) -> (r: Option<i64>)
    ensures
        match r {
            Some(v) => parse_i64(s@) == Some(v as int),
            None => parse_i64(s@) is None,
        },
{
    let v = chars_of(s);
    if v.len() > 0 && v[0] == '-' {
        let mut rest: Vec<char> = Vec::new();
        let mut i: usize = 1;
        while i < v.len()
            invariant
                1 <= i <= v.len(),
                rest@ == v@.subrange(1, i as int),
            decreases v.len() - i,
        {
            rest.push(v[i]);
            assert(v@.subrange(1, i + 1) =~= v@.subrange(1, i as int).push(v@[i as int]));
            i += 1;
        }
        assert(rest@ =~= v@.drop_first());
        // No `+` may follow the minus sign.
        if rest.len() > 0 && rest[0] == '+' {
            assert(!crate::text::is_ascii_digit(rest@[0]));
            return None;
        }
        assert(crate::text::unsigned_digits(rest@) == rest@);
        match parse_uint(&rest, 9223372036854775808) {
            Some(n) => {
                if n == 9223372036854775808 {
                    Some(i64::MIN)
                } else {
                    Some(-(n as i64))
                }
            },
            None => None,
        }
    } else {
        match parse_uint(&v, 9223372036854775807) {
            Some(n) => Some(n as i64),
            None => None,
        }
    }
}

/// `s` is the literal `lit`.
fn is_word(s: &str, lit: &str) -> (b: bool)
    ensures
        b == (s@ == lit@),
{
    same(&chars_of(s), &chars_of(lit))
}

/// Where an evidence event is stored: the agent memory's number (0 for a
/// core memory) and the source reference (for a core memory without one,
/// its id); or why the event is refused.
pub open spec fn evidence_target_spec(memory_kind: Seq<char>, memory_id: Seq<char>, kind: Seq<char>, source_ref: Seq<char>) -> Result<
    (int, Seq<char>),
    Seq<char>,
> {
    if kind != "support"@ && kind != "contradict"@ {
        Err("invalid kind '"@ + kind + "', expected 'support' or 'contradict'"@)
    } else if memory_kind != "agent"@ && memory_kind != "core"@ {
        Err("invalid memory_kind '"@ + memory_kind + "', expected 'agent' or 'core'"@)
    } else if memory_kind == "agent"@ {
        match parse_i64(memory_id) {
            Some(n) => Ok((n, source_ref)),
            None => Err("agent memory_id '"@ + memory_id + "' is not an integer"@),
        }
    } else if source_ref.len() == 0 {
        Ok((0, memory_id))
    } else {
        Ok((0, source_ref))
    }
}

/// Checks an evidence event (`kind` support or contradict, `memory_kind`
/// agent or core, an agent id that is an integer) and gives the memory
/// number and source reference it is stored under.
pub fn evidence_target(memory_kind: &str, memory_id: &str, kind: &str, source_ref: &str) -> (r: Result<(i64, String), String>)
    ensures
        match r {
            Ok((n, s)) => evidence_target_spec(memory_kind@, memory_id@, kind@, source_ref@) == Ok::<
                (int, Seq<char>),
                Seq<char>,
            >((n as int, s@)),
            Err(e) => evidence_target_spec(memory_kind@, memory_id@, kind@, source_ref@) == Err::<
                (int, Seq<char>),
                Seq<char>,
            >(e@),
        },
{
    if !is_word(kind, "support") && !is_word(kind, "contradict") {
        let mut m = String::from_str("invalid kind '");
        append(&mut m, kind);
        append(&mut m, "', expected 'support' or 'contradict'");
        return Err(m);
    }
    let agent = is_word(memory_kind, "agent");
    if !agent && !is_word(memory_kind, "core") {
        let mut m = String::from_str("invalid memory_kind '");
        append(&mut m, memory_kind);
        append(&mut m, "', expected 'agent' or 'core'");
        return Err(m);
    }
    if agent {
        match parse_i64_str(memory_id) {
            Some(n) => Ok((n, copy_str(source_ref))),
            None => {
                let mut m = String::from_str("agent memory_id '");
                append(&mut m, memory_id);
                append(&mut m, "' is not an integer");
                Err(m)
            },
        }
    } else if chars_of(source_ref).len() == 0 {
        Ok((0, copy_str(memory_id)))
    } else {
        Ok((0, copy_str(source_ref)))
    }
}

/// Which memory a provenance quote is stored against: the agent memory's
/// number, or the core memory's text id; or why it is refused.
pub open spec fn instance_target_spec(memory_kind: Seq<char>, memory_id: Seq<char>) -> Result<
    (Option<int>, Option<Seq<char>>),
    Seq<char>,
> {
    if memory_kind != "agent"@ && memory_kind != "core"@ {
        Err("invalid memory_kind '"@ + memory_kind + "'"@)
    } else if memory_kind == "agent"@ {
        match parse_i64(memory_id) {
            Some(n) => Ok((Some(n), None)),
            None => Err("agent memory_id '"@ + memory_id + "' is not an integer"@),
        }
    } else {
        Ok((None, Some(memory_id)))
    }
}

/// Checks a provenance quote's memory (`agent` with an integer id, or
/// `core`) and gives the number or text id it is stored against.
pub fn instance_target(memory_kind: &str, memory_id: &str) -> (r: Result<(Option<i64>, Option<String>), String>)
    ensures
        match r {
            Ok((n, t)) => instance_target_spec(memory_kind@, memory_id@) == Ok::<
                (Option<int>, Option<Seq<char>>),
                Seq<char>,
            >((
                match n {
                    Some(x) => Some(x as int),
                    None => None,
                },
                match t {
                    Some(x) => Some(x@),
                    None => None,
                },
            )),
            Err(e) => instance_target_spec(memory_kind@, memory_id@) == Err::<
                (Option<int>, Option<Seq<char>>),
                Seq<char>,
            >(e@),
        },
{
    let agent = is_word(memory_kind, "agent");
    if !agent && !is_word(memory_kind, "core") {
        let mut m = String::from_str("invalid memory_kind '");
        append(&mut m, memory_kind);
        append(&mut m, "'");
        return Err(m);
    }
    if agent {
        match parse_i64_str(memory_id) {
            Some(n) => Ok((Some(n), None)),
            None => {
                let mut m = String::from_str("agent memory_id '");
                append(&mut m, memory_id);
                append(&mut m, "' is not an integer");
                Err(m)
            },
        }
    } else {
        Ok((None, Some(copy_str(memory_id))))
    }
}

} // verus!
