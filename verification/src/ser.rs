//! Table-literal serializer: turns a `Value` back into the exact literal
//! text form the game's own encoder emits (`return {` ... `}` with `%q`-style
//! quoted strings), specified character by character.

use vstd::prelude::*;

use crate::value::{entries_view, key_view, lemma_entries_view_index, val_view, SpecKey, SpecVal, TableKey, Value};

verus! {

broadcast use vstd::std_specs::vec::group_vec_axioms, vstd::seq::group_seq_axioms;

/// `%q`-style escape of one character: quote, backslash and newline get a
/// backslash before them (the newline stays a literal newline), carriage
/// return and NUL become `\r` and `\0`, everything else is copied verbatim.
pub open spec fn esc_char(c: char) -> Seq<char> {
    if c == '"' {
        seq!['\\', '"']
    } else if c == '\\' {
        seq!['\\', '\\']
    } else if c == '\n' {
        seq!['\\', '\n']
    } else if c == '\r' {
        seq!['\\', 'r']
    } else if c == '\u{0}' {
        seq!['\\', '0']
    } else {
        seq![c]
    }
}

pub open spec fn esc_text(s: Seq<char>) -> Seq<char>
    decreases s.len(),
{
    if s.len() == 0 {
        Seq::empty()
    } else {
        esc_char(s[0]) + esc_text(s.drop_first())
    }
}

/// A string literal: the escaped content between double quotes.
pub open spec fn quoted(s: Seq<char>) -> Seq<char> {
    seq!['"'] + esc_text(s) + seq!['"']
}

/// The decimal digit character for `n < 10`.
pub open spec fn digit_char(n: u64) -> char {
    ((48 + n) as u8) as char
}

/// Canonical decimal text of `n`: no sign, no leading zeros except for `0`.
pub open spec fn dec_text(n: u64) -> Seq<char>
    decreases n,
{
    if n < 10 {
        seq![digit_char(n)]
    } else {
        dec_text(n / 10).push(digit_char(n % 10))
    }
}

pub open spec fn ser_key(k: SpecKey) -> Seq<char> {
    match k {
        SpecKey::Text(s) => quoted(s),
        SpecKey::Num(n) => dec_text(n),
    }
}

pub open spec fn ser_val(v: SpecVal) -> Seq<char>
    decreases v,
{
    match v {
        SpecVal::Table(es) => seq!['{'] + ser_entries(es) + seq!['}'],
        SpecVal::Text(s) => quoted(s),
        SpecVal::Num(n) => dec_text(n),
        SpecVal::Bool(b) => if b {
            seq!['t', 'r', 'u', 'e']
        } else {
            seq!['f', 'a', 'l', 's', 'e']
        },
    }
}

pub open spec fn ser_entries(es: Seq<(SpecKey, SpecVal)>) -> Seq<char>
    decreases es,
{
    if es.len() == 0 {
        Seq::empty()
    } else {
        seq!['['] + ser_key(es[0].0) + seq![']', '='] + ser_val(es[0].1) + seq![',']
            + ser_entries(es.drop_first())
    }
}

/// A document root: the table with the `return ` prefix in front.
pub open spec fn ser_doc(v: SpecVal) -> Seq<char> {
    seq!['r', 'e', 't', 'u', 'r', 'n', ' '] + ser_val(v)
}

/// Serializing a pair sequence distributes over concatenation.
pub proof fn lemma_ser_entries_concat(es1: Seq<(SpecKey, SpecVal)>, es2: Seq<(SpecKey, SpecVal)>)
    ensures
        ser_entries(es1 + es2) =~= ser_entries(es1) + ser_entries(es2),
    decreases es1,
{
    if es1.len() == 0 {
        assert(es1 + es2 =~= es2);
    } else {
        assert((es1 + es2).drop_first() =~= es1.drop_first() + es2);
        lemma_ser_entries_concat(es1.drop_first(), es2);
    }
}

/// Escaping distributes over concatenation.
pub proof fn lemma_esc_text_concat(s1: Seq<char>, s2: Seq<char>)
    ensures
        esc_text(s1 + s2) =~= esc_text(s1) + esc_text(s2),
    decreases s1.len(),
{
    if s1.len() == 0 {
        assert(s1 + s2 =~= s2);
    } else {
        assert((s1 + s2).drop_first() =~= s1.drop_first() + s2);
        assert((s1 + s2)[0] == s1[0]);
        lemma_esc_text_concat(s1.drop_first(), s2);
    }
}

/// Append the escaped form of `c` to `out`.
fn write_escaped_char(c: char, out: &mut Vec<char>)
    ensures
        final(out)@ == old(out)@ + esc_char(c),
{
    if c == '"' {
        out.push('\\');
        out.push('"');
    } else if c == '\\' {
        out.push('\\');
        out.push('\\');
    } else if c == '\n' {
        out.push('\\');
        out.push('\n');
    } else if c == '\r' {
        out.push('\\');
        out.push('r');
    } else if c == '\u{0}' {
        out.push('\\');
        out.push('0');
    } else {
        out.push(c);
    }
    assert(out@ =~= old(out)@ + esc_char(c));
}

/// Append the quoted, escaped form of `s` to `out`.
fn write_quoted(s: &Vec<char>, out: &mut Vec<char>)
    ensures
        final(out)@ == old(out)@ + quoted(s@),
{
    out.push('"');
    let n = s.len();
    let mut i: usize = 0;
    while i < n
        invariant
            n == s@.len(),
            i <= n,
            out@ == old(out)@ + seq!['"'] + esc_text(s@.take(i as int)),
        decreases n - i,
    {
        write_escaped_char(s[i], out);
        proof {
            assert(s@.take(i + 1) =~= s@.take(i as int) + seq![s@[i as int]]);
            lemma_esc_text_concat(s@.take(i as int), seq![s@[i as int]]);
            assert(esc_text(Seq::<char>::empty()) =~= Seq::<char>::empty());
            assert(seq![s@[i as int]].drop_first() =~= Seq::<char>::empty());
            assert(esc_text(seq![s@[i as int]]) =~= esc_char(s@[i as int]));
        }
        i = i + 1;
    }
    out.push('"');
    proof {
        assert(s@.take(n as int) =~= s@);
        assert(out@ =~= old(out)@ + quoted(s@));
    }
}

/// Append the serialized form of `k` to `out`.
fn write_key(k: &TableKey, out: &mut Vec<char>)
    ensures
        final(out)@ == old(out)@ + ser_key(key_view(*k)),
{
    match k {
        TableKey::Text(s) => {
            let cs = crate::chars::str_chars_vec(s.as_str());
            write_quoted(&cs, out);
        },
        TableKey::Num(n) => {
            write_decimal(*n, out);
        },
    }
}

/// Append the serialized form of `v` to `out`.
#[verifier::loop_isolation(false)]
fn write_value(v: &Value, out: &mut Vec<char>)
    ensures
        final(out)@ == old(out)@ + ser_val(val_view(*v)),
    decreases *v,
{
    match v {
        Value::Table(entries) => {
            out.push('{');
            let n = entries.len();
            let mut i: usize = 0;
            while i < n
                invariant
                    n == entries@.len(),
                    i <= n,
                    out@ == old(out)@ + seq!['{'] + ser_entries(
                        entries_view(entries@).take(i as int),
                    ),
                decreases n - i,
            {
                proof {
                    lemma_entries_view_index(entries@);
                    assert(decreases_to!(*v => *entries));
                    assert(decreases_to!(*entries => entries@));
                    assert(decreases_to!(entries@ => entries@[i as int]));
                    assert(decreases_to!(entries@[i as int] => entries@[i as int].1));
                    assert(decreases_to!(*v => entries@[i as int].1));
                }
                out.push('[');
                write_key(&entries[i].0, out);
                out.push(']');
                out.push('=');
                write_value(&entries[i].1, out);
                out.push(',');
                proof {
                    let ev = entries_view(entries@);
                    assert(ev.take(i + 1) =~= ev.take(i as int) + seq![ev[i as int]]);
                    lemma_ser_entries_concat(ev.take(i as int), seq![ev[i as int]]);
                    assert(seq![ev[i as int]].drop_first() =~= Seq::<(SpecKey, SpecVal)>::empty());
                    assert(ser_entries(Seq::<(SpecKey, SpecVal)>::empty())
                        =~= Seq::<char>::empty());
                    assert(ser_entries(seq![ev[i as int]]) =~= seq!['['] + ser_key(ev[i as int].0)
                        + seq![']', '='] + ser_val(ev[i as int].1) + seq![',']);
                    assert(out@ =~= old(out)@ + seq!['{'] + ser_entries(ev.take(i + 1)));
                }
                i = i + 1;
            }
            out.push('}');
            proof {
                lemma_entries_view_index(entries@);
                assert(entries_view(entries@).take(n as int) =~= entries_view(entries@));
                assert(out@ =~= old(out)@ + ser_val(val_view(*v)));
            }
        },
        Value::Text(s) => {
            let cs = crate::chars::str_chars_vec(s.as_str());
            write_quoted(&cs, out);
        },
        Value::Num(n) => {
            write_decimal(*n, out);
        },
        Value::Bool(b) => {
            if *b {
                out.push('t');
                out.push('r');
                out.push('u');
                out.push('e');
            } else {
                out.push('f');
                out.push('a');
                out.push('l');
                out.push('s');
                out.push('e');
            }
            assert(out@ =~= old(out)@ + ser_val(val_view(*v)));
        },
    }
}

/// Serialize a value into its exact literal text; a document root gets the
/// `return ` prefix in front of it.
pub fn serialize(v: &Value, root: bool) -> (r: String)
    ensures
        r@ == if root {
            ser_doc(v@)
        } else {
            ser_val(v@)
        },
{
    let mut out: Vec<char> = Vec::new();
    if root {
        out.push('r');
        out.push('e');
        out.push('t');
        out.push('u');
        out.push('r');
        out.push('n');
        out.push(' ');
    }
    write_value(v, &mut out);
    proof {
        if root {
            assert(out@ =~= ser_doc(val_view(*v)));
        } else {
            assert(out@ =~= ser_val(val_view(*v)));
        }
    }
    crate::chars::chars_to_string(&out)
}

/// Append the canonical decimal text of `n` to `out`.
fn write_decimal(n: u64, out: &mut Vec<char>)
    ensures
        final(out)@ == old(out)@ + dec_text(n),
    decreases n,
{
    if n < 10 {
        out.push((48 + n as u8) as char);
        assert(out@ =~= old(out)@ + dec_text(n));
    } else {
        write_decimal(n / 10, out);
        out.push((48 + (n % 10) as u8) as char);
        assert(out@ =~= old(out)@ + dec_text(n));
    }
}

} // verus!
