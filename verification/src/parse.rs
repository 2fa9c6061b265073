//! Table-literal parser: a recursive-descent reader for the restricted
//! constructor grammar the game's serializer emits, specified first as a
//! deterministic character-level parsing function and then implemented by an
//! executable parser proved to return exactly what the specification says.

use vstd::prelude::*;

use crate::chars::{chars_to_string, str_chars_vec};
use crate::ser::{dec_text, digit_char, esc_char, esc_text, ser_doc, ser_entries, ser_key, ser_val};
use crate::value::{entries_view, SpecKey, SpecVal, TableKey, Value};
use crate::CoreError;

verus! {

broadcast use vstd::std_specs::vec::group_vec_axioms, vstd::seq::group_seq_axioms;

pub open spec fn is_digit(c: char) -> bool {
    48 <= c as u32 <= 57
}

pub open spec fn digit_val(c: char) -> int {
    c as u32 - 48
}

/// What a backslash escape stands for; `None` for an escape the grammar does
/// not know.
pub open spec fn unesc_char(c: char) -> Option<char> {
    if c == '"' {
        Some('"')
    } else if c == '\\' {
        Some('\\')
    } else if c == '\n' {
        Some('\n')
    } else if c == 'n' {
        Some('\n')
    } else if c == 'r' {
        Some('\r')
    } else if c == '0' {
        Some('\u{0}')
    } else {
        None
    }
}

/// Parse a quoted string's content, `i` pointing just after the opening
/// quote; on success the unescaped content and the position just after the
/// closing quote.
pub open spec fn sp_string(s: Seq<char>, i: int) -> Option<(Seq<char>, int)>
    decreases s.len() - i,
{
    if i < 0 || i >= s.len() {
        None
    } else if s[i] == '"' {
        Some((Seq::empty(), i + 1))
    } else if s[i] == '\\' {
        if i + 1 < s.len() {
            match unesc_char(s[i + 1]) {
                Some(c) => match sp_string(s, i + 2) {
                    Some((t, j)) => Some((seq![c] + t, j)),
                    None => None,
                },
                None => None,
            }
        } else {
            None
        }
    } else {
        match sp_string(s, i + 1) {
            Some((t, j)) => Some((seq![s[i]] + t, j)),
            None => None,
        }
    }
}

pub proof fn lemma_sp_string_bounds(s: Seq<char>, i: int)
    ensures
        sp_string(s, i) matches Some((t, j)) ==> i < j <= s.len(),
    decreases s.len() - i,
{
    if 0 <= i < s.len() {
        lemma_sp_string_bounds(s, i + 1);
        if i + 1 < s.len() {
            lemma_sp_string_bounds(s, i + 2);
        }
    }
}

/// The end of the run of decimal digits starting at `i`.
pub open spec fn digit_run_end(s: Seq<char>, i: int) -> int
    decreases s.len() - i,
{
    if 0 <= i < s.len() && is_digit(s[i]) {
        digit_run_end(s, i + 1)
    } else {
        i
    }
}

pub proof fn lemma_digit_run_end_bounds(s: Seq<char>, i: int)
    requires
        0 <= i <= s.len(),
    ensures
        i <= digit_run_end(s, i) <= s.len(),
        forall|t: int| i <= t < digit_run_end(s, i) ==> is_digit(#[trigger] s[t]),
        digit_run_end(s, i) < s.len() ==> !is_digit(s[digit_run_end(s, i)]),
    decreases s.len() - i,
{
    if i < s.len() && is_digit(s[i]) {
        lemma_digit_run_end_bounds(s, i + 1);
    }
}

/// The numeric value of a sequence of digit characters.
pub open spec fn digits_val(ds: Seq<char>) -> int
    decreases ds.len(),
{
    if ds.len() == 0 {
        0
    } else {
        digits_val(ds.drop_last()) * 10 + digit_val(ds.last())
    }
}

/// Parse a non-negative integer at `i`: the maximal digit run, rejected when
/// empty or when its value exceeds `u64::MAX`.
pub open spec fn sp_number(s: Seq<char>, i: int) -> Option<(u64, int)> {
    let j = digit_run_end(s, i);
    if j == i {
        None
    } else if digits_val(s.subrange(i, j)) > u64::MAX {
        None
    } else {
        Some((digits_val(s.subrange(i, j)) as u64, j))
    }
}

pub proof fn lemma_sp_number_bounds(s: Seq<char>, i: int)
    requires
        0 <= i <= s.len(),
    ensures
        sp_number(s, i) matches Some((n, j)) ==> i < j <= s.len(),
{
    lemma_digit_run_end_bounds(s, i);
}

/// Parse a table key at `i`: a quoted string or a non-negative integer.
pub open spec fn sp_key(s: Seq<char>, i: int) -> Option<(SpecKey, int)> {
    if i < 0 || i >= s.len() {
        None
    } else if s[i] == '"' {
        match sp_string(s, i + 1) {
            Some((t, j)) => Some((SpecKey::Text(t), j)),
            None => None,
        }
    } else {
        match sp_number(s, i) {
            Some((n, j)) => Some((SpecKey::Num(n), j)),
            None => None,
        }
    }
}

pub proof fn lemma_sp_key_bounds(s: Seq<char>, i: int)
    ensures
        sp_key(s, i) matches Some((k, j)) ==> 0 <= i < j <= s.len(),
{
    if 0 <= i < s.len() {
        lemma_sp_string_bounds(s, i + 1);
        lemma_sp_number_bounds(s, i);
    }
}

/// Parse a value at `i`: a nested table, a quoted string, one of the bare
/// tokens `true` / `false`, or a non-negative integer.
pub open spec fn sp_val(s: Seq<char>, i: int) -> Option<(SpecVal, int)>
    decreases s.len() - i, 1int,
{
    if i < 0 || i >= s.len() {
        None
    } else if s[i] == '{' {
        match sp_entries(s, i + 1) {
            Some((es, j)) => Some((SpecVal::Table(es), j)),
            None => None,
        }
    } else if s[i] == '"' {
        match sp_string(s, i + 1) {
            Some((t, j)) => Some((SpecVal::Text(t), j)),
            None => None,
        }
    } else if s[i] == 't' {
        if i + 4 <= s.len() && s.subrange(i, i + 4) == seq!['t', 'r', 'u', 'e'] {
            Some((SpecVal::Bool(true), i + 4))
        } else {
            None
        }
    } else if s[i] == 'f' {
        if i + 5 <= s.len() && s.subrange(i, i + 5) == seq!['f', 'a', 'l', 's', 'e'] {
            Some((SpecVal::Bool(false), i + 5))
        } else {
            None
        }
    } else {
        match sp_number(s, i) {
            Some((n, j)) => Some((SpecVal::Num(n), j)),
            None => None,
        }
    }
}

/// A whitespace character the parser tolerates between table entries.
pub open spec fn is_ws(c: char) -> bool {
    c == ' ' || c == '\t' || c == '\n' || c == '\r'
}

/// The first position at or after `i` that does not hold whitespace.
pub open spec fn skip_ws(s: Seq<char>, i: int) -> int
    decreases s.len() - i,
{
    if 0 <= i < s.len() && is_ws(s[i]) {
        skip_ws(s, i + 1)
    } else {
        i
    }
}

pub proof fn lemma_skip_ws_bounds(s: Seq<char>, i: int)
    requires
        0 <= i <= s.len(),
    ensures
        i <= skip_ws(s, i) <= s.len(),
        skip_ws(s, i) < s.len() ==> !is_ws(s[skip_ws(s, i)]),
    decreases s.len() - i,
{
    if i < s.len() && is_ws(s[i]) {
        lemma_skip_ws_bounds(s, i + 1);
    }
}

/// Parse the entry list of a table whose `{` has been consumed, up to and
/// including the closing `}`.  Whitespace may precede each entry and the
/// closing brace; after an entry's value a comma either separates it from
/// the next entry or, before the brace, simply ends it.
pub open spec fn sp_entries(s: Seq<char>, i: int) -> Option<(Seq<(SpecKey, SpecVal)>, int)>
    decreases s.len() - i, 0int,
    via sp_entries_decreases
{
    let j = skip_ws(s, i);
    if i < 0 || j >= s.len() {
        None
    } else if s[j] == '}' {
        Some((Seq::empty(), j + 1))
    } else if s[j] == '[' {
        match sp_key(s, j + 1) {
            Some((k, jk)) => {
                if jk + 1 < s.len() && s[jk] == ']' && s[jk + 1] == '=' {
                    match sp_val(s, jk + 2) {
                        Some((v, m)) => {
                            if m < jk + 2 || m > s.len() {
                                None
                            } else {
                                let c = skip_ws(s, m);
                                if c < s.len() && s[c] == ',' {
                                    match sp_entries(s, c + 1) {
                                        Some((rest, e)) => Some((seq![(k, v)] + rest, e)),
                                        None => None,
                                    }
                                } else if c < s.len() && s[c] == '}' {
                                    Some((seq![(k, v)], c + 1))
                                } else {
                                    None
                                }
                            }
                        },
                        None => None,
                    }
                } else {
                    None
                }
            },
            None => None,
        }
    } else {
        None
    }
}

#[via_fn]
proof fn sp_entries_decreases(s: Seq<char>, i: int) {
    if 0 <= i <= s.len() {
        lemma_skip_ws_bounds(s, i);
        lemma_sp_key_bounds(s, skip_ws(s, i) + 1);
    }
    assert forall|t: int| 0 <= t <= s.len() implies t <= #[trigger] skip_ws(s, t) <= s.len() by {
        lemma_skip_ws_bounds(s, t);
    }
}

/// On success the parse position advances and stays inside the text.
pub proof fn lemma_sp_val_bounds(s: Seq<char>, i: int)
    ensures
        sp_val(s, i) matches Some((v, j)) ==> i < j <= s.len(),
    decreases s.len() - i, 1int,
{
    if 0 <= i < s.len() {
        lemma_sp_entries_bounds(s, i + 1);
        lemma_sp_string_bounds(s, i + 1);
        lemma_sp_number_bounds(s, i);
    }
}

pub proof fn lemma_sp_entries_bounds(s: Seq<char>, i: int)
    ensures
        sp_entries(s, i) matches Some((es, j)) ==> i < j <= s.len(),
    decreases s.len() - i, 0int,
{
    if 0 <= i <= s.len() {
        lemma_skip_ws_bounds(s, i);
        let sk = skip_ws(s, i);
        if 0 <= sk < s.len() && s[sk] == '[' {
            lemma_sp_key_bounds(s, sk + 1);
            match sp_key(s, sk + 1) {
                Some((k, jk)) => {
                    if jk + 1 < s.len() && s[jk] == ']' && s[jk + 1] == '=' {
                        lemma_sp_val_bounds(s, jk + 2);
                        match sp_val(s, jk + 2) {
                            Some((v, m)) => {
                                if jk + 2 <= m && m <= s.len() {
                                    lemma_skip_ws_bounds(s, m);
                                    let c = skip_ws(s, m);
                                    if c < s.len() && s[c] == ',' {
                                        lemma_sp_entries_bounds(s, c + 1);
                                    }
                                }
                            },
                            None => {},
                        }
                    }
                },
                None => {},
            }
        }
    }
}

/// Parse a whole document: an optional `return ` prefix, then one value that
/// must span the rest of the text.
pub open spec fn sp_doc(s: Seq<char>) -> Option<SpecVal> {
    let start: int = if s.len() >= 7 && s.subrange(0, 7) == seq!['r', 'e', 't', 'u', 'r', 'n', ' '] {
        7
    } else {
        0
    };
    match sp_val(s, start) {
        Some((v, j)) => if j == s.len() {
            Some(v)
        } else {
            None
        },
        None => None,
    }
}

/// A subrange of a known subrange, re-based to the enclosing text.
proof fn lemma_subrange_within(s: Seq<char>, i: int, l: int, a: int, b: int, w: Seq<char>)
    requires
        0 <= i,
        i + l <= s.len(),
        s.subrange(i, i + l) == w,
        0 <= a <= b <= l,
    ensures
        s.subrange(i + a, i + b) == w.subrange(a, b),
{
    assert(s.subrange(i + a, i + b) =~= s.subrange(i, i + l).subrange(a, b));
}

/// One character of a known subrange, re-based to the enclosing text.
proof fn lemma_index_within(s: Seq<char>, i: int, l: int, off: int, w: Seq<char>)
    requires
        0 <= i,
        i + l <= s.len(),
        s.subrange(i, i + l) == w,
        0 <= off < l,
    ensures
        s[i + off] == w[off],
{
    assert(s.subrange(i, i + l)[off] == s[i + off]);
}

/// Parsing a string body inverts escaping: on text that holds the escaped
/// content followed by the closing quote, `sp_string` returns the content.
proof fn lemma_sp_string_of_escaped(content: Seq<char>, s: Seq<char>, i: int)
    requires
        0 <= i,
        i + esc_text(content).len() + 1 <= s.len(),
        s.subrange(i, i + esc_text(content).len()) == esc_text(content),
        s[i + esc_text(content).len()] == '"',
    ensures
        sp_string(s, i) == Some((content, i + esc_text(content).len() + 1)),
    decreases content.len(),
{
    if content.len() == 0 {
        assert(s[i] == '"');
    } else {
        let c = content[0];
        let rest = content.drop_first();
        let e = esc_char(c);
        let l1 = e.len() as int;
        let w = esc_text(content);
        let l = w.len() as int;
        assert(w == e + esc_text(rest));
        assert(l == l1 + esc_text(rest).len());
        lemma_index_within(s, i, l, 0, w);
        assert(w[0] == e[0]);
        assert(s[i] == e[0]);
        lemma_subrange_within(s, i, l, l1, l, w);
        assert(w.subrange(l1, l) =~= esc_text(rest));
        assert(s[(i + l1) + esc_text(rest).len()] == '"');
        lemma_sp_string_of_escaped(rest, s, i + l1);
        assert(sp_string(s, i + l1) == Some((rest, i + l + 1)));
        if c == '"' || c == '\\' || c == '\n' || c == '\r' || c == '\u{0}' {
            assert(l1 == 2);
            assert(s[i] == '\\');
            lemma_index_within(s, i, l, 1, w);
            assert(w[1] == e[1]);
            assert(unesc_char(s[i + 1]) == Some(c));
            assert(seq![c] + rest =~= content);
            assert(sp_string(s, i) == Some((content, i + l + 1)));
        } else {
            assert(l1 == 1);
            assert(s[i] == c);
            assert(s[i] != '"' && s[i] != '\\');
            assert(seq![c] + rest =~= content);
            assert(sp_string(s, i) == Some((content, i + l + 1)));
        }
    }
}

/// Canonical decimal text is all digits and stands for the number itself.
proof fn lemma_dec_text_digits(n: u64)
    ensures
        dec_text(n).len() >= 1,
        forall|t: int| 0 <= t < dec_text(n).len() ==> is_digit(#[trigger] dec_text(n)[t]),
        digits_val(dec_text(n)) == n,
    decreases n,
{
    if n < 10 {
        assert(dec_text(n) == seq![digit_char(n)]);
        assert(digits_val(dec_text(n)) == digits_val(dec_text(n).drop_last()) * 10 + digit_val(
            digit_char(n),
        ));
        assert(dec_text(n).drop_last() =~= Seq::<char>::empty());
    } else {
        lemma_dec_text_digits(n / 10);
        assert(dec_text(n) == dec_text(n / 10).push(digit_char((n % 10) as u64)));
        assert(dec_text(n).drop_last() =~= dec_text(n / 10));
        assert(digit_val(digit_char((n % 10) as u64)) == n % 10);
        assert(digits_val(dec_text(n)) == (n / 10) * 10 + n % 10);
    }
}

/// A digit run that stops exactly at `j` has `j` as its end.
proof fn lemma_digit_run_end_exact(s: Seq<char>, i: int, j: int)
    requires
        0 <= i <= j <= s.len(),
        forall|t: int| i <= t < j ==> is_digit(#[trigger] s[t]),
        j == s.len() || !is_digit(s[j]),
    ensures
        digit_run_end(s, i) == j,
    decreases j - i,
{
    if i < j {
        lemma_digit_run_end_exact(s, i + 1, j);
    }
}

/// Parsing a number inverts decimal formatting.
proof fn lemma_sp_number_of_dec(n: u64, s: Seq<char>, i: int)
    requires
        0 <= i,
        i + dec_text(n).len() <= s.len(),
        s.subrange(i, i + dec_text(n).len()) == dec_text(n),
        i + dec_text(n).len() == s.len() || !is_digit(s[i + dec_text(n).len()]),
    ensures
        sp_number(s, i) == Some((n, i + dec_text(n).len())),
{
    let w = dec_text(n);
    let l = w.len() as int;
    lemma_dec_text_digits(n);
    assert(forall|t: int| i <= t < i + l ==> is_digit(#[trigger] s[t])) by {
        assert forall|t: int| i <= t < i + l implies is_digit(#[trigger] s[t]) by {
            lemma_index_within(s, i, l, t - i, w);
        }
    }
    lemma_digit_run_end_exact(s, i, i + l);
    assert(digits_val(s.subrange(i, i + l)) == n);
}

/// Parsing a key inverts key serialization, given the `]` that follows it.
proof fn lemma_sp_key_of_ser(k: SpecKey, s: Seq<char>, i: int)
    requires
        0 <= i,
        i + ser_key(k).len() < s.len(),
        s.subrange(i, i + ser_key(k).len()) == ser_key(k),
        s[i + ser_key(k).len()] == ']',
    ensures
        sp_key(s, i) == Some((k, i + ser_key(k).len())),
{
    let w = ser_key(k);
    let l = w.len() as int;
    match k {
        SpecKey::Text(t) => {
            assert(w == seq!['"'] + esc_text(t) + seq!['"']);
            lemma_index_within(s, i, l, 0, w);
            assert(s[i] == '"');
            lemma_subrange_within(s, i, l, 1, 1 + esc_text(t).len() as int, w);
            assert(w.subrange(1, 1 + esc_text(t).len() as int) =~= esc_text(t));
            lemma_index_within(s, i, l, l - 1, w);
            assert(s[(i + 1) + esc_text(t).len()] == '"');
            lemma_sp_string_of_escaped(t, s, i + 1);
        },
        SpecKey::Num(n) => {
            lemma_dec_text_digits(n);
            lemma_index_within(s, i, l, 0, w);
            assert(s[i] == w[0]);
            assert(is_digit(s[i]));
            assert(s[i] != '"');
            assert(!is_digit(']'));
            lemma_sp_number_of_dec(n, s, i);
        },
    }
}

/// The serialized form of a value is never empty.
proof fn lemma_ser_val_len(v: SpecVal)
    ensures
        ser_val(v).len() >= 1,
{
    match v {
        SpecVal::Num(n) => {
            if n < 10 {
            } else {
            }
        },
        _ => {},
    }
}

/// Parsing inverts serialization for a single value, provided no digit
/// directly follows it in the surrounding text.
proof fn lemma_sp_val_of_ser(v: SpecVal, s: Seq<char>, i: int)
    requires
        0 <= i,
        i + ser_val(v).len() <= s.len(),
        s.subrange(i, i + ser_val(v).len()) == ser_val(v),
        i + ser_val(v).len() == s.len() || !is_digit(s[i + ser_val(v).len()]),
    ensures
        sp_val(s, i) == Some((v, i + ser_val(v).len())),
    decreases v, 1int,
{
    let w = ser_val(v);
    let l = w.len() as int;
    lemma_ser_val_len(v);
    match v {
        SpecVal::Table(es) => {
            assert(w == seq!['{'] + ser_entries(es) + seq!['}']);
            lemma_index_within(s, i, l, 0, w);
            assert(s[i] == '{');
            lemma_subrange_within(s, i, l, 1, 1 + ser_entries(es).len() as int, w);
            assert(w.subrange(1, 1 + ser_entries(es).len() as int) =~= ser_entries(es));
            lemma_index_within(s, i, l, l - 1, w);
            assert(s[(i + 1) + ser_entries(es).len()] == '}');
            lemma_sp_entries_of_ser(es, s, i + 1);
        },
        SpecVal::Text(t) => {
            assert(w == seq!['"'] + esc_text(t) + seq!['"']);
            lemma_index_within(s, i, l, 0, w);
            assert(s[i] == '"');
            lemma_subrange_within(s, i, l, 1, 1 + esc_text(t).len() as int, w);
            assert(w.subrange(1, 1 + esc_text(t).len() as int) =~= esc_text(t));
            lemma_index_within(s, i, l, l - 1, w);
            assert(s[(i + 1) + esc_text(t).len()] == '"');
            lemma_sp_string_of_escaped(t, s, i + 1);
        },
        SpecVal::Num(n) => {
            lemma_dec_text_digits(n);
            lemma_index_within(s, i, l, 0, w);
            assert(s[i] == w[0]);
            assert(is_digit(s[i]));
            assert(s[i] != '{' && s[i] != '"' && s[i] != 't' && s[i] != 'f');
            lemma_sp_number_of_dec(n, s, i);
        },
        SpecVal::Bool(b) => {
            if b {
                assert(w == seq!['t', 'r', 'u', 'e']);
                lemma_index_within(s, i, l, 0, w);
                assert(s[i] == 't');
                assert(s[i] != '{' && s[i] != '"');
                lemma_subrange_within(s, i, l, 0, 4, w);
                assert(w.subrange(0, 4) =~= w);
                assert(s.subrange(i, i + 4) == seq!['t', 'r', 'u', 'e']);
            } else {
                assert(w == seq!['f', 'a', 'l', 's', 'e']);
                lemma_index_within(s, i, l, 0, w);
                assert(s[i] == 'f');
                assert(s[i] != '{' && s[i] != '"' && s[i] != 't');
                lemma_subrange_within(s, i, l, 0, 5, w);
                assert(w.subrange(0, 5) =~= w);
                assert(s.subrange(i, i + 5) == seq!['f', 'a', 'l', 's', 'e']);
            }
        },
    }
}

/// Parsing inverts serialization for an entry list followed by its `}`.
proof fn lemma_sp_entries_of_ser(es: Seq<(SpecKey, SpecVal)>, s: Seq<char>, i: int)
    requires
        0 <= i,
        i + ser_entries(es).len() < s.len(),
        s.subrange(i, i + ser_entries(es).len()) == ser_entries(es),
        s[i + ser_entries(es).len()] == '}',
    ensures
        sp_entries(s, i) == Some((es, i + ser_entries(es).len() + 1)),
    decreases es, 0int,
{
    let w = ser_entries(es);
    let l = w.len() as int;
    if es.len() == 0 {
        assert(s[i] == '}');
        assert(skip_ws(s, i) == i);
    } else {
        let k = es[0].0;
        let v = es[0].1;
        let rest = es.drop_first();
        let lk = ser_key(k).len() as int;
        let lv = ser_val(v).len() as int;
        let lr = ser_entries(rest).len() as int;
        assert(w == seq!['['] + ser_key(k) + seq![']', '='] + ser_val(v) + seq![',']
            + ser_entries(rest));
        assert(l == 1 + lk + 2 + lv + 1 + lr);
        lemma_index_within(s, i, l, 0, w);
        assert(s[i] == '[');
        assert(s[i] != '}');
        assert(skip_ws(s, i) == i);
        let j = i + 1 + lk;
        // The key, delimited by the `]` just after it.
        lemma_subrange_within(s, i, l, 1, 1 + lk, w);
        assert(w.subrange(1, 1 + lk) =~= ser_key(k));
        lemma_index_within(s, i, l, 1 + lk, w);
        assert(s[j] == ']');
        lemma_sp_key_of_ser(k, s, i + 1);
        assert(sp_key(s, i + 1) == Some((k, j)));
        lemma_index_within(s, i, l, 2 + lk, w);
        assert(s[j + 1] == '=');
        // The value, delimited by the `,` just after it.
        let m = j + 2 + lv;
        lemma_subrange_within(s, i, l, 3 + lk, 3 + lk + lv, w);
        assert(w.subrange(3 + lk, 3 + lk + lv) =~= ser_val(v));
        lemma_index_within(s, i, l, 3 + lk + lv, w);
        assert(s[m] == ',');
        assert(skip_ws(s, m) == m);
        assert(!is_digit(','));
        lemma_sp_val_of_ser(v, s, j + 2);
        assert(sp_val(s, j + 2) == Some((v, m)));
        // The remaining entries, still followed by the closing brace.
        lemma_subrange_within(s, i, l, 4 + lk + lv, l, w);
        assert(w.subrange(4 + lk + lv, l) =~= ser_entries(rest));
        assert(s[(m + 1) + lr] == '}');
        lemma_sp_entries_of_ser(rest, s, m + 1);
        assert(seq![(k, v)] + rest =~= es);
    }
}

/// Parsing inverts serialization for a whole document: the parser returns
/// exactly the value the serializer wrote.
pub proof fn lemma_sp_doc_of_ser(v: SpecVal)
    ensures
        sp_doc(ser_doc(v)) == Some(v),
{
    let s = ser_doc(v);
    lemma_ser_val_len(v);
    assert(s.subrange(0, 7) =~= seq!['r', 'e', 't', 'u', 'r', 'n', ' ']);
    assert(s.subrange(7, s.len() as int) =~= ser_val(v));
    lemma_sp_val_of_ser(v, s, 7);
}

/// Nonnegative digit values make digit text values grow with the text.
proof fn lemma_digits_val_nonneg(s: Seq<char>, a: int, b: int)
    requires
        0 <= a <= b <= s.len(),
        forall|t: int| a <= t < b ==> is_digit(#[trigger] s[t]),
    ensures
        digits_val(s.subrange(a, b)) >= 0,
    decreases b - a,
{
    if b > a {
        assert(s.subrange(a, b).drop_last() =~= s.subrange(a, b - 1));
        lemma_digits_val_nonneg(s, a, b - 1);
    }
}

/// A longer digit run never has a smaller value.
proof fn lemma_digits_val_mono(s: Seq<char>, a: int, t: int, b: int)
    requires
        0 <= a <= t <= b <= s.len(),
        forall|q: int| a <= q < b ==> is_digit(#[trigger] s[q]),
    ensures
        digits_val(s.subrange(a, b)) >= digits_val(s.subrange(a, t)),
    decreases b - t,
{
    if b > t {
        assert(s.subrange(a, b).drop_last() =~= s.subrange(a, b - 1));
        lemma_digits_val_nonneg(s, a, b - 1);
        lemma_digits_val_mono(s, a, t, b - 1);
    }
}

/// Parse the rest of a quoted string, `start` pointing just after the
/// opening quote.
fn parse_qstring(s: &Vec<char>, start: usize) -> (r: Option<(Vec<char>, usize)>)
    ensures
        match r {
            Some(p) => sp_string(s@, start as int) == Some((p.0@, p.1 as int)) && p.1 <= s@.len(),
            None => sp_string(s@, start as int) is None,
        },
{
    let n = s.len();
    if start >= n {
        return None;
    }
    let mut i = start;
    let mut acc: Vec<char> = Vec::new();
    loop
        invariant
            n == s@.len(),
            i <= n,
            (match sp_string(s@, i as int) {
                Some(p) => sp_string(s@, start as int) == Some((acc@ + p.0, p.1)),
                None => sp_string(s@, start as int) is None,
            }),
        decreases n - i,
    {
        proof {
            lemma_sp_string_bounds(s@, i as int);
        }
        if i >= n {
            return None;
        }
        let c = s[i];
        if c == '"' {
            assert(acc@ + Seq::<char>::empty() =~= acc@);
            return Some((acc, i + 1));
        } else if c == '\\' {
            if i + 1 >= n {
                return None;
            }
            let e = s[i + 1];
            let u: Option<char> = if e == '"' {
                Some('"')
            } else if e == '\\' {
                Some('\\')
            } else if e == '\n' {
                Some('\n')
            } else if e == 'n' {
                Some('\n')
            } else if e == 'r' {
                Some('\r')
            } else if e == '0' {
                Some('\u{0}')
            } else {
                None
            };
            match u {
                None => {
                    return None;
                },
                Some(cu) => {
                    let ghost old_acc = acc@;
                    acc.push(cu);
                    proof {
                        match sp_string(s@, i + 2) {
                            Some(p) => {
                                assert(old_acc + (seq![cu] + p.0) =~= acc@ + p.0);
                            },
                            None => {},
                        }
                    }
                    i = i + 2;
                },
            }
        } else {
            let ghost old_acc = acc@;
            acc.push(c);
            proof {
                match sp_string(s@, i + 1) {
                    Some(p) => {
                        assert(old_acc + (seq![c] + p.0) =~= acc@ + p.0);
                    },
                    None => {},
                }
            }
            i = i + 1;
        }
    }
}

/// Parse a non-negative integer at `start`.
fn parse_number(s: &Vec<char>, start: usize) -> (r: Option<(u64, usize)>)
    requires
        start <= s@.len(),
    ensures
        match r {
            Some(p) => sp_number(s@, start as int) == Some((p.0, p.1 as int)) && p.1 <= s@.len(),
            None => sp_number(s@, start as int) is None,
        },
{
    let n = s.len();
    let mut i = start;
    let mut acc: u64 = 0;
    proof {
        assert(s@.subrange(start as int, start as int) =~= Seq::<char>::empty());
        lemma_digit_run_end_bounds(s@, start as int);
    }
    loop
        invariant
            n == s@.len(),
            start <= i <= n,
            forall|t: int| start <= t < i ==> is_digit(#[trigger] s@[t]),
            acc == digits_val(s@.subrange(start as int, i as int)),
            digit_run_end(s@, start as int) == digit_run_end(s@, i as int),
        decreases n - i,
    {
        let is_dig = if i >= n {
            false
        } else {
            let cu = s[i] as u32;
            48 <= cu && cu <= 57
        };
        if !is_dig {
            // The run ends here.
            assert(digit_run_end(s@, i as int) == i);
            if i == start {
                return None;
            }
            assert(sp_number(s@, start as int) == Some((acc, i as int)));
            return Some((acc, i));
        }
        let c = s[i];
        let d: u64 = (c as u32 as u64) - 48;
        assert(is_digit(s@[i as int]) && d == digit_val(s@[i as int]));
        if acc > (u64::MAX - d) / 10 {
            // The value of the whole run exceeds what a u64 can hold.
            proof {
                let e = digit_run_end(s@, start as int);
                lemma_digit_run_end_bounds(s@, i as int);
                assert(s@.subrange(start as int, i + 1).drop_last() =~= s@.subrange(
                    start as int,
                    i as int,
                ));
                assert(digits_val(s@.subrange(start as int, i + 1)) == acc * 10 + d);
                assert(acc * 10 + d > u64::MAX) by (nonlinear_arith)
                    requires
                        acc > (u64::MAX - d) / 10,
                        d <= 9,
                ;
                lemma_digits_val_mono(s@, start as int, i + 1, e);
            }
            return None;
        }
        proof {
            assert(acc * 10 + d <= u64::MAX) by (nonlinear_arith)
                requires
                    acc <= (u64::MAX - d) / 10,
                    d <= 9,
            ;
        }
        let ghost old_acc = acc;
        acc = acc * 10 + d;
        proof {
            assert(s@.subrange(start as int, i + 1).drop_last() =~= s@.subrange(
                start as int,
                i as int,
            ));
            assert(acc == digits_val(s@.subrange(start as int, i + 1)));
        }
        i = i + 1;
    }
}

/// Parse a table key at `start`.
fn parse_key(s: &Vec<char>, start: usize) -> (r: Option<(TableKey, usize)>)
    ensures
        match r {
            Some(p) => sp_key(s@, start as int) == Some((p.0@, p.1 as int)) && p.1 <= s@.len(),
            None => sp_key(s@, start as int) is None,
        },
{
    let n = s.len();
    if start >= n {
        return None;
    }
    if s[start] == '"' {
        match parse_qstring(s, start + 1) {
            Some((cs, j)) => {
                let text = chars_to_string(&cs);
                Some((TableKey::Text(text), j))
            },
            None => None,
        }
    } else {
        match parse_number(s, start) {
            Some((v, j)) => Some((TableKey::Num(v), j)),
            None => None,
        }
    }
}

/// Parse a value at `start`.
fn parse_value(s: &Vec<char>, start: usize) -> (r: Option<(Value, usize)>)
    ensures
        match r {
            Some(p) => sp_val(s@, start as int) == Some((p.0@, p.1 as int)) && p.1 <= s@.len(),
            None => sp_val(s@, start as int) is None,
        },
    decreases s@.len() - start, 1int,
{
    let n = s.len();
    if start >= n {
        return None;
    }
    let c = s[start];
    if c == '{' {
        match parse_entries(s, start + 1) {
            Some((es, j)) => Some((Value::Table(es), j)),
            None => None,
        }
    } else if c == '"' {
        match parse_qstring(s, start + 1) {
            Some((cs, j)) => {
                let text = chars_to_string(&cs);
                Some((Value::Text(text), j))
            },
            None => None,
        }
    } else if c == 't' {
        if n - start >= 4 && s[start + 1] == 'r' && s[start + 2] == 'u' && s[start + 3] == 'e' {
            assert(s@.subrange(start as int, start + 4) =~= seq!['t', 'r', 'u', 'e']);
            Some((Value::Bool(true), start + 4))
        } else {
            assert(sp_val(s@, start as int) is None);
            None
        }
    } else if c == 'f' {
        if n - start >= 5 && s[start + 1] == 'a' && s[start + 2] == 'l' && s[start + 3] == 's'
            && s[start + 4] == 'e' {
            assert(s@.subrange(start as int, start + 5) =~= seq!['f', 'a', 'l', 's', 'e']);
            Some((Value::Bool(false), start + 5))
        } else {
            assert(sp_val(s@, start as int) is None);
            None
        }
    } else {
        match parse_number(s, start) {
            Some((v, j)) => Some((Value::Num(v), j)),
            None => None,
        }
    }
}

/// Parse a table's entry list, `start` pointing just after the `{`, up to
/// and including the closing `}`.
fn parse_entries(s: &Vec<char>, start: usize) -> (r: Option<(Vec<(TableKey, Value)>, usize)>)
    requires
        start <= s@.len(),
    ensures
        match r {
            Some(p) => sp_entries(s@, start as int) == Some((entries_view(p.0@), p.1 as int))
                && p.1 <= s@.len(),
            None => sp_entries(s@, start as int) is None,
        },
    decreases s@.len() - start, 0int,
{
    let n = s.len();
    let mut i = start;
    let mut acc: Vec<(TableKey, Value)> = Vec::new();
    loop
        invariant
            n == s@.len(),
            start <= i <= n,
            (match sp_entries(s@, i as int) {
                Some(p) => sp_entries(s@, start as int) == Some((entries_view(acc@) + p.0, p.1)),
                None => sp_entries(s@, start as int) is None,
            }),
        decreases n - i,
    {
        proof {
            lemma_sp_entries_bounds(s@, i as int);
            lemma_skip_ws_bounds(s@, i as int);
        }
        let j = skip_ws_exec(s, i);
        if j >= n {
            return None;
        }
        if s[j] == '}' {
            assert(entries_view(acc@) + Seq::<(SpecKey, SpecVal)>::empty() =~= entries_view(acc@));
            return Some((acc, j + 1));
        }
        if s[j] != '[' {
            return None;
        }
        let (k, jk) = match parse_key(s, j + 1) {
            Some(p) => p,
            None => {
                return None;
            },
        };
        proof {
            lemma_sp_key_bounds(s@, j + 1);
        }
        if !(jk < n && jk + 1 < n && s[jk] == ']' && s[jk + 1] == '=') {
            return None;
        }
        let (v, m) = match parse_value(s, jk + 2) {
            Some(p) => p,
            None => {
                return None;
            },
        };
        proof {
            lemma_sp_val_bounds(s@, jk + 2);
            lemma_skip_ws_bounds(s@, m as int);
        }
        let c = skip_ws_exec(s, m);
        if c < n && s[c] == ',' {
            let ghost old_acc = acc@;
            acc.push((k, v));
            proof {
                crate::value::lemma_entries_view_push(old_acc, (k, v));
                match sp_entries(s@, c + 1) {
                    Some(p) => {
                        assert(entries_view(old_acc) + (seq![(k@, v@)] + p.0) =~= entries_view(acc@)
                            + p.0);
                    },
                    None => {},
                }
            }
            i = c + 1;
        } else if c < n && s[c] == '}' {
            let ghost old_acc = acc@;
            acc.push((k, v));
            proof {
                crate::value::lemma_entries_view_push(old_acc, (k, v));
                assert(entries_view(old_acc) + seq![(k@, v@)] =~= entries_view(acc@));
            }
            return Some((acc, c + 1));
        } else {
            return None;
        }
    }
}

/// Advance past whitespace.
fn skip_ws_exec(s: &Vec<char>, start: usize) -> (r: usize)
    requires
        start <= s@.len(),
    ensures
        r as int == skip_ws(s@, start as int),
        start <= r <= s@.len(),
{
    let n = s.len();
    let mut i = start;
    while i < n && (s[i] == ' ' || s[i] == '\t' || s[i] == '\n' || s[i] == '\r')
        invariant
            n == s@.len(),
            start <= i <= n,
            skip_ws(s@, start as int) == skip_ws(s@, i as int),
        decreases n - i,
    {
        i = i + 1;
    }
    proof {
        assert(skip_ws(s@, i as int) == i);
    }
    i
}

/// Parse a whole document.  Fails with `ParseError` exactly when the text
/// does not match the restricted grammar.
pub fn parse(text: &str) -> (r: Result<Value, CoreError>)
    ensures
        match r {
            Ok(v) => sp_doc(text@) == Some(v@),
            Err(e) => sp_doc(text@) is None && e matches CoreError::ParseError,
        },
{
    let s = str_chars_vec(text);
    let n = s.len();
    let has_prefix = n >= 7 && s[0] == 'r' && s[1] == 'e' && s[2] == 't' && s[3] == 'u' && s[4]
        == 'r' && s[5] == 'n' && s[6] == ' ';
    proof {
        if has_prefix {
            assert(s@.subrange(0, 7) =~= seq!['r', 'e', 't', 'u', 'r', 'n', ' ']);
        } else if n >= 7 {
            assert(s@.subrange(0, 7) != seq!['r', 'e', 't', 'u', 'r', 'n', ' ']) by {
                if s@.subrange(0, 7) == seq!['r', 'e', 't', 'u', 'r', 'n', ' '] {
                    assert(s@[0] == 'r' && s@[1] == 'e' && s@[2] == 't' && s@[3] == 'u' && s@[4]
                        == 'r' && s@[5] == 'n' && s@[6] == ' ');
                }
            }
        }
    }
    let start: usize = if has_prefix {
        7
    } else {
        0
    };
    match parse_value(&s, start) {
        Some((v, j)) => {
            if j == n {
                Ok(v)
            } else {
                Err(CoreError::ParseError)
            }
        },
        None => Err(CoreError::ParseError),
    }
}

} // verus!
