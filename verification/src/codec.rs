use vstd::prelude::*;
use crate::task::Todo;
use crate::task::pairs;
use crate::text::chars_to_string;
use crate::text::str_to_chars;

verus! {

// ---------------------------------------------------------------------
// The stored text of a task list: a JSON array of records, written in
// one canonical way. `[]` for the empty list, otherwise
// `[{"task":"...","completed":...},...]` with no spacing, the task text
// escaped as below, and `true`/`false` for the flag.
// ---------------------------------------------------------------------
/// The opening of a record, up to and including the quote that starts
/// the task text: `{"task":"`.
pub open spec fn lit_open() -> Seq<char> {
    seq!['{', '"', 't', 'a', 's', 'k', '"', ':', '"']
}

/// What follows the quote that ends the task text: `,"completed":`.
pub open spec fn lit_comp() -> Seq<char> {
    seq![',', '"', 'c', 'o', 'm', 'p', 'l', 'e', 't', 'e', 'd', '"', ':']
}

pub open spec fn bool_chars(b: bool) -> Seq<char> {
    if b {
        seq!['t', 'r', 'u', 'e']
    } else {
        seq!['f', 'a', 'l', 's', 'e']
    }
}

/// The lowercase hex digit for d < 16.
pub open spec fn hex_char(d: nat) -> char {
    if d < 10 {
        ((d + 48) as u8) as char
    } else {
        ((d + 87) as u8) as char
    }
}

/// The characters written with a two-character backslash escape.
pub open spec fn has_short_escape(c: char) -> bool {
    c == '"' || c == '\\' || c == '\u{8}' || c == '\u{9}' || c == '\u{a}' || c == '\u{c}' || c
        == '\u{d}'
}

/// The code letter of a two-character escape.
pub open spec fn short_escape(c: char) -> char {
    if c == '\u{8}' {
        'b'
    } else if c == '\u{9}' {
        't'
    } else if c == '\u{a}' {
        'n'
    } else if c == '\u{c}' {
        'f'
    } else if c == '\u{d}' {
        'r'
    } else {
        c
    }
}

/// How one character appears inside the stored task text: quote,
/// backslash and the common control characters get a two-character
/// backslash escape, the remaining control characters a `\u00xy`
/// escape, and every other character stands for itself.
pub open spec fn esc_char(c: char) -> Seq<char> {
    if has_short_escape(c) {
        seq!['\\', short_escape(c)]
    } else if (c as u32) < 32 {
        seq![
            '\\',
            'u',
            '0',
            '0',
            hex_char((c as u32 / 16) as nat),
            hex_char((c as u32 % 16) as nat),
        ]
    } else {
        seq![c]
    }
}

/// The escaped form of a whole task text.
pub open spec fn esc(s: Seq<char>) -> Seq<char>
    decreases s.len(),
{
    if s.len() == 0 {
        Seq::empty()
    } else {
        esc_char(s[0]) + esc(s.drop_first())
    }
}

/// The stored text of one record.
pub open spec fn json_of_record(p: (Seq<char>, bool)) -> Seq<char> {
    lit_open() + esc(p.0) + seq!['"'] + lit_comp() + bool_chars(p.1) + seq!['}']
}

/// The stored text of the records, comma-separated.
pub open spec fn json_of_records(ps: Seq<(Seq<char>, bool)>) -> Seq<char>
    decreases ps.len(),
{
    if ps.len() == 0 {
        Seq::empty()
    } else if ps.len() == 1 {
        json_of_record(ps[0])
    } else {
        json_of_record(ps[0]) + seq![','] + json_of_records(ps.drop_first())
    }
}

/// The canonical stored text of a task list.
pub open spec fn json_of(ps: Seq<(Seq<char>, bool)>) -> Seq<char> {
    seq!['['] + json_of_records(ps) + seq![']']
}

// ---------------------------------------------------------------------
// Decoding: a read of any JSON spelling of a task list — whitespace
// between tokens, either field order, and the full escape set.
// ---------------------------------------------------------------------
/// JSON inter-token whitespace.
pub open spec fn is_ws(c: char) -> bool {
    c == ' ' || c == '\t' || c == '\n' || c == '\r'
}

/// The first position at or after i that does not hold whitespace.
pub open spec fn skip_ws(s: Seq<char>, i: int) -> int
    decreases s.len() - i,
{
    if 0 <= i < s.len() && is_ws(s[i]) {
        skip_ws(s, i + 1)
    } else {
        i
    }
}

pub open spec fn is_hex(c: char) -> bool {
    (48 <= (c as u32) && (c as u32) <= 57) || (97 <= (c as u32) && (c as u32) <= 102) || (65 <= (
    c as u32) && (c as u32) <= 70)
}

/// The value of a hex digit, either case.
pub open spec fn hex_val(c: char) -> nat {
    if 48 <= (c as u32) && (c as u32) <= 57 {
        (c as u32 - 48) as nat
    } else if 97 <= (c as u32) && (c as u32) <= 102 {
        (c as u32 - 87) as nat
    } else {
        (c as u32 - 55) as nat
    }
}

/// Four hex digits at position i.
pub open spec fn is_hex4(s: Seq<char>, i: int) -> bool {
    0 <= i && i + 4 <= s.len() && is_hex(s[i]) && is_hex(s[i + 1]) && is_hex(s[i + 2]) && is_hex(
        s[i + 3],
    )
}

/// The value of four hex digits at position i.
pub open spec fn hex4(s: Seq<char>, i: int) -> nat {
    hex_val(s[i]) * 4096 + hex_val(s[i + 1]) * 256 + hex_val(s[i + 2]) * 16 + hex_val(s[i + 3])
}

/// The character with code point v.
pub open spec fn char_of(v: nat) -> char {
    (v as u32) as char
}

/// The code letters that may follow a backslash in a two-character
/// escape.
pub open spec fn is_escape_code(c: char) -> bool {
    c == '"' || c == '\\' || c == '/' || c == 'b' || c == 't' || c == 'n' || c == 'f' || c == 'r'
}

/// The character a two-character escape stands for.
pub open spec fn unescape_code(c: char) -> char {
    if c == 'b' {
        '\u{8}'
    } else if c == 't' {
        '\u{9}'
    } else if c == 'n' {
        '\u{a}'
    } else if c == 'f' {
        '\u{c}'
    } else if c == 'r' {
        '\u{d}'
    } else {
        c
    }
}

/// Does `lit` stand in `s` at position `i`?
pub open spec fn match_at(s: Seq<char>, i: int, lit: Seq<char>) -> bool {
    0 <= i && i + lit.len() <= s.len() && s.subrange(i, i + lit.len()) == lit
}

/// Read a quoted task text from position i (just past the opening
/// quote): the decoded characters, and the position just past the
/// closing quote.
pub open spec fn parse_string_body(s: Seq<char>, i: int) -> Option<(Seq<char>, int)>
    decreases s.len() - i,
{
    if i < 0 || i >= s.len() {
        None
    } else if s[i] == '"' {
        Some((Seq::empty(), i + 1))
    } else if s[i] == '\\' {
        if i + 1 < s.len() && is_escape_code(s[i + 1]) {
            match parse_string_body(s, i + 2) {
                Some((t, j)) => Some((seq![unescape_code(s[i + 1])] + t, j)),
                None => None,
            }
        } else if i + 5 < s.len() && s[i + 1] == 'u' && is_hex4(s, i + 2) {
            let v = hex4(s, i + 2);
            if v < 0xd800 || v > 0xdfff {
                match parse_string_body(s, i + 6) {
                    Some((t, j)) => Some((seq![char_of(v)] + t, j)),
                    None => None,
                }
            } else if v < 0xdc00 {
                // a high surrogate must pair with a low one
                if i + 11 < s.len() && s[i + 6] == '\\' && s[i + 7] == 'u' && is_hex4(s, i + 8) {
                    let lo = hex4(s, i + 8);
                    if 0xdc00 <= lo && lo <= 0xdfff {
                        match parse_string_body(s, i + 12) {
                            Some((t, j)) => Some(
                                (
                                    seq![
                                        char_of(
                                            (0x10000 + (v - 0xd800) * 0x400 + (lo
                                                - 0xdc00)) as nat,
                                        )
                                    ] + t,
                                    j,
                                ),
                            ),
                            None => None,
                        }
                    } else {
                        None
                    }
                } else {
                    None
                }
            } else {
                None
            }
        } else {
            None
        }
    } else {
        match parse_string_body(s, i + 1) {
            Some((t, j)) => Some((seq![s[i]] + t, j)),
            None => None,
        }
    }
}

/// Read `true` or `false` at position i.
pub open spec fn parse_bool(s: Seq<char>, i: int) -> Option<(bool, int)> {
    if match_at(s, i, seq!['t', 'r', 'u', 'e']) {
        Some((true, i + 4))
    } else if match_at(s, i, seq!['f', 'a', 'l', 's', 'e']) {
        Some((false, i + 5))
    } else {
        None
    }
}

/// The spelling of the task key: `"task"`.
pub open spec fn lit_task_key() -> Seq<char> {
    seq!['"', 't', 'a', 's', 'k', '"']
}

/// The spelling of the completed key: `"completed"`.
pub open spec fn lit_comp_key() -> Seq<char> {
    seq!['"', 'c', 'o', 'm', 'p', 'l', 'e', 't', 'e', 'd', '"']
}

/// Read a `"task"` member starting at its key at position i: the key,
/// a colon, and a quoted string, whitespace allowed between tokens.
pub open spec fn parse_task_member(s: Seq<char>, i: int) -> Option<(Seq<char>, int)> {
    if !match_at(s, i, lit_task_key()) {
        None
    } else {
        let c = skip_ws(s, i + 6);
        if !(c < s.len() && s[c] == ':') {
            None
        } else {
            let v = skip_ws(s, c + 1);
            if !(v < s.len() && s[v] == '"') {
                None
            } else {
                parse_string_body(s, v + 1)
            }
        }
    }
}

/// Read a `"completed"` member starting at its key at position i.
pub open spec fn parse_completed_member(s: Seq<char>, i: int) -> Option<(bool, int)> {
    if !match_at(s, i, lit_comp_key()) {
        None
    } else {
        let c = skip_ws(s, i + 11);
        if !(c < s.len() && s[c] == ':') {
            None
        } else {
            parse_bool(s, skip_ws(s, c + 1))
        }
    }
}

/// Read one record starting at its `{` at position i: exactly the two
/// members, in either order, whitespace allowed between tokens.
pub open spec fn parse_record(s: Seq<char>, i: int) -> Option<((Seq<char>, bool), int)> {
    if !(0 <= i < s.len() && s[i] == '{') {
        None
    } else {
        let m = skip_ws(s, i + 1);
        if m + 1 < s.len() && s[m] == '"' && s[m + 1] == 't' {
            match parse_task_member(s, m) {
                None => None,
                Some((task, j)) => {
                    let k = skip_ws(s, j);
                    if !(k < s.len() && s[k] == ',') {
                        None
                    } else {
                        match parse_completed_member(s, skip_ws(s, k + 1)) {
                            None => None,
                            Some((b, j2)) => {
                                let e = skip_ws(s, j2);
                                if e < s.len() && s[e] == '}' {
                                    Some(((task, b), e + 1))
                                } else {
                                    None
                                }
                            },
                        }
                    }
                },
            }
        } else {
            match parse_completed_member(s, m) {
                None => None,
                Some((b, j)) => {
                    let k = skip_ws(s, j);
                    if !(k < s.len() && s[k] == ',') {
                        None
                    } else {
                        match parse_task_member(s, skip_ws(s, k + 1)) {
                            None => None,
                            Some((task, j2)) => {
                                let e = skip_ws(s, j2);
                                if e < s.len() && s[e] == '}' {
                                    Some(((task, b), e + 1))
                                } else {
                                    None
                                }
                            },
                        }
                    }
                },
            }
        }
    }
}

/// Skipping whitespace stays inside the text and never goes back.
proof fn lemma_skip_ws_bounds(s: Seq<char>, i: int)
    requires
        0 <= i <= s.len(),
    ensures
        i <= skip_ws(s, i) <= s.len(),
    decreases s.len() - i,
{
    if i < s.len() && is_ws(s[i]) {
        lemma_skip_ws_bounds(s, i + 1);
    }
}

/// A successful read of a task text always moves forward.
proof fn lemma_string_body_advances(s: Seq<char>, i: int)
    ensures
        parse_string_body(s, i) matches Some((t, j)) ==> i < j <= s.len(),
    decreases s.len() - i,
{
    if 0 <= i < s.len() {
        if s[i] == '\\' {
            if i + 1 < s.len() {
                lemma_string_body_advances(s, i + 2);
            }
            if i + 5 < s.len() {
                lemma_string_body_advances(s, i + 6);
            }
            if i + 11 < s.len() {
                lemma_string_body_advances(s, i + 12);
            }
        } else if s[i] != '"' {
            lemma_string_body_advances(s, i + 1);
        }
    }
}

/// A successful read of a task member always moves forward.
proof fn lemma_task_member_advances(s: Seq<char>, i: int)
    ensures
        parse_task_member(s, i) matches Some((t, j)) ==> i < j <= s.len(),
{
    if match_at(s, i, lit_task_key()) {
        lemma_skip_ws_bounds(s, i + 6);
        let c = skip_ws(s, i + 6);
        if c < s.len() && s[c] == ':' {
            lemma_skip_ws_bounds(s, c + 1);
            let v = skip_ws(s, c + 1);
            if v < s.len() && s[v] == '"' {
                lemma_string_body_advances(s, v + 1);
            }
        }
    }
}

/// A successful read of a completed member always moves forward.
proof fn lemma_completed_member_advances(s: Seq<char>, i: int)
    ensures
        parse_completed_member(s, i) matches Some((b, j)) ==> i < j <= s.len(),
{
    if match_at(s, i, lit_comp_key()) {
        lemma_skip_ws_bounds(s, i + 11);
        let c = skip_ws(s, i + 11);
        if c < s.len() && s[c] == ':' {
            lemma_skip_ws_bounds(s, c + 1);
        }
    }
}

/// A successful read of a record always moves forward.
proof fn lemma_record_advances(s: Seq<char>, i: int)
    ensures
        parse_record(s, i) matches Some((p, j)) ==> i < j <= s.len(),
{
    if 0 <= i < s.len() && s[i] == '{' {
        lemma_skip_ws_bounds(s, i + 1);
        let m = skip_ws(s, i + 1);
        lemma_task_member_advances(s, m);
        lemma_completed_member_advances(s, m);
        match parse_task_member(s, m) {
            Some((task, j)) => {
                lemma_skip_ws_bounds(s, j);
                let k = skip_ws(s, j);
                if k < s.len() {
                    lemma_skip_ws_bounds(s, k + 1);
                    lemma_completed_member_advances(s, skip_ws(s, k + 1));
                    match parse_completed_member(s, skip_ws(s, k + 1)) {
                        Some((b, j2)) => {
                            lemma_skip_ws_bounds(s, j2);
                        },
                        None => {},
                    }
                }
            },
            None => {},
        }
        match parse_completed_member(s, m) {
            Some((b, j)) => {
                lemma_skip_ws_bounds(s, j);
                let k = skip_ws(s, j);
                if k < s.len() {
                    lemma_skip_ws_bounds(s, k + 1);
                    lemma_task_member_advances(s, skip_ws(s, k + 1));
                    match parse_task_member(s, skip_ws(s, k + 1)) {
                        Some((task, j2)) => {
                            lemma_skip_ws_bounds(s, j2);
                        },
                        None => {},
                    }
                }
            },
            None => {},
        }
    }
}

/// Read one or more comma-separated records starting at position i (at
/// the `{` of the first), closed by `]` and then nothing but
/// whitespace.
pub open spec fn parse_records(s: Seq<char>, i: int) -> Option<Seq<(Seq<char>, bool)>>
    decreases s.len() - i,
    via parse_records_decreases
{
    match parse_record(s, i) {
        None => None,
        Some((p, j)) => {
            let k = skip_ws(s, j);
            if k < s.len() && s[k] == ']' {
                if skip_ws(s, k + 1) == s.len() {
                    Some(seq![p])
                } else {
                    None
                }
            } else if k < s.len() && s[k] == ',' {
                match parse_records(s, skip_ws(s, k + 1)) {
                    None => None,
                    Some(ps) => Some(seq![p] + ps),
                }
            } else {
                None
            }
        },
    }
}

#[via_fn]
proof fn parse_records_decreases(s: Seq<char>, i: int) {
    lemma_record_advances(s, i);
    match parse_record(s, i) {
        Some((p, j)) => {
            lemma_skip_ws_bounds(s, j);
            let k = skip_ws(s, j);
            if k < s.len() {
                lemma_skip_ws_bounds(s, k + 1);
            }
        },
        None => {},
    }
}

/// The task lists whose stored text is s, if any: a JSON array of task
/// records, whitespace allowed around every token.
pub open spec fn parse_json(s: Seq<char>) -> Option<Seq<(Seq<char>, bool)>> {
    let i0 = skip_ws(s, 0);
    if !(i0 < s.len() && s[i0] == '[') {
        None
    } else {
        let i1 = skip_ws(s, i0 + 1);
        if i1 < s.len() && s[i1] == ']' {
            if skip_ws(s, i1 + 1) == s.len() {
                Some(Seq::empty())
            } else {
                None
            }
        } else {
            parse_records(s, i1)
        }
    }
}

/// What loading stored text yields: the decoded list, or the empty
/// list where the text is not a canonical task list.
pub open spec fn loaded(s: Seq<char>) -> Seq<(Seq<char>, bool)> {
    match parse_json(s) {
        Some(ps) => ps,
        None => Seq::empty(),
    }
}

// ---------------------------------------------------------------------
// Encoding a list.
// ---------------------------------------------------------------------
proof fn lemma_esc_snoc(s: Seq<char>, c: char)
    ensures
        esc(s.push(c)) == esc(s) + esc_char(c),
    decreases s.len(),
{
    if s.len() == 0 {
        assert(s.push(c).drop_first() =~= Seq::<char>::empty());
        assert(esc(Seq::<char>::empty()) == Seq::<char>::empty());
        assert(esc(s.push(c)) == esc_char(c) + Seq::<char>::empty());
        assert(esc(s.push(c)) =~= esc(s) + esc_char(c));
    } else {
        lemma_esc_snoc(s.drop_first(), c);
        assert(s.push(c).drop_first() =~= s.drop_first().push(c));
        assert(esc(s.push(c)) =~= esc(s) + esc_char(c));
    }
}

proof fn lemma_records_snoc(ps: Seq<(Seq<char>, bool)>, p: (Seq<char>, bool))
    requires
        ps.len() >= 1,
    ensures
        json_of_records(ps.push(p)) == json_of_records(ps) + seq![','] + json_of_record(p),
    decreases ps.len(),
{
    if ps.len() == 1 {
        assert(ps.push(p).drop_first() =~= seq![p]);
        assert(json_of_records(seq![p]) == json_of_record(p));
        assert(json_of_records(ps.push(p)) =~= json_of_records(ps) + seq![','] + json_of_record(p));
    } else {
        lemma_records_snoc(ps.drop_first(), p);
        assert(ps.push(p).drop_first() =~= ps.drop_first().push(p));
        assert(json_of_records(ps.push(p)) =~= json_of_records(ps) + seq![','] + json_of_record(p));
    }
}

fn hex_digit(d: u32) -> (c: char)
    requires
        d < 16,
    ensures
        c == hex_char(d as nat),
{
    if d < 10 {
        ((d + 48) as u8) as char
    } else {
        ((d + 87) as u8) as char
    }
}

fn push_esc_char(out: &mut Vec<char>, c: char)
    ensures
        final(out)@ == old(out)@ + esc_char(c),
{
    if c == '"' {
        out.push('\\');
        out.push('"');
    } else if c == '\\' {
        out.push('\\');
        out.push('\\');
    } else if c == '\u{8}' {
        out.push('\\');
        out.push('b');
    } else if c == '\u{9}' {
        out.push('\\');
        out.push('t');
    } else if c == '\u{a}' {
        out.push('\\');
        out.push('n');
    } else if c == '\u{c}' {
        out.push('\\');
        out.push('f');
    } else if c == '\u{d}' {
        out.push('\\');
        out.push('r');
    } else {
        let u = c as u32;
        if u < 32 {
            out.push('\\');
            out.push('u');
            out.push('0');
            out.push('0');
            out.push(hex_digit(u / 16));
            out.push(hex_digit(u % 16));
        } else {
            out.push(c);
        }
    }
    proof {
        assert(out@ =~= old(out)@ + esc_char(c));
    }
}

fn push_escaped(out: &mut Vec<char>, task: &str)
    ensures
        final(out)@ == old(out)@ + esc(task@),
{
    let chars = str_to_chars(task);
    let mut i: usize = 0;
    proof {
        assert(task@.take(0) =~= Seq::<char>::empty());
        assert(out@ =~= old(out)@ + esc(task@.take(0)));
    }
    while i < chars.len()
        invariant
            chars@ == task@,
            i <= chars@.len(),
            out@ == old(out)@ + esc(task@.take(i as int)),
        decreases chars@.len() - i,
    {
        push_esc_char(out, chars[i]);
        proof {
            lemma_esc_snoc(task@.take(i as int), task@[i as int]);
            assert(task@.take(i + 1) =~= task@.take(i as int).push(task@[i as int]));
            assert(out@ =~= old(out)@ + esc(task@.take(i + 1)));
        }
        i = i + 1;
    }
    proof {
        assert(task@.take(chars@.len() as int) =~= task@);
    }
}

#[verifier::rlimit(50)]
fn push_record(out: &mut Vec<char>, t: &Todo)
    ensures
        final(out)@ == old(out)@ + json_of_record((t.task@, t.completed)),
{
    out.push('{');
    out.push('"');
    out.push('t');
    out.push('a');
    out.push('s');
    out.push('k');
    out.push('"');
    out.push(':');
    out.push('"');
    proof {
        assert(out@ =~= old(out)@ + lit_open());
    }
    push_escaped(out, t.task.as_str());
    let ghost mid1 = out@;
    proof {
        assert(mid1 == old(out)@ + lit_open() + esc(t.task@));
    }
    out.push('"');
    out.push(',');
    out.push('"');
    out.push('c');
    out.push('o');
    out.push('m');
    out.push('p');
    out.push('l');
    out.push('e');
    out.push('t');
    out.push('e');
    out.push('d');
    out.push('"');
    out.push(':');
    let ghost mid2 = out@;
    proof {
        assert(mid2 =~= mid1 + seq!['"'] + lit_comp());
    }
    if t.completed {
        out.push('t');
        out.push('r');
        out.push('u');
        out.push('e');
    } else {
        out.push('f');
        out.push('a');
        out.push('l');
        out.push('s');
        out.push('e');
    }
    let ghost mid3 = out@;
    proof {
        assert(mid3 =~= mid2 + bool_chars(t.completed));
    }
    out.push('}');
    proof {
        assert(out@ =~= old(out)@ + json_of_record((t.task@, t.completed)));
    }
}

/// Encode a task list as its canonical stored text.
pub fn serialize_tasks(todos: &Vec<Todo>) -> (r: String)
    ensures
        r@ == json_of(pairs(todos@)),
{
    let mut out: Vec<char> = Vec::new();
    out.push('[');
    let mut i: usize = 0;
    proof {
        assert(pairs(todos@).take(0) =~= Seq::<(Seq<char>, bool)>::empty());
        assert(out@ =~= seq!['['] + json_of_records(pairs(todos@).take(0)));
    }
    while i < todos.len()
        invariant
            i <= todos@.len(),
            out@ == seq!['['] + json_of_records(pairs(todos@).take(i as int)),
        decreases todos@.len() - i,
    {
        if i > 0 {
            out.push(',');
        }
        push_record(&mut out, &todos[i]);
        proof {
            let ps = pairs(todos@);
            assert(ps[i as int] == (todos@[i as int].task@, todos@[i as int].completed));
            assert(ps.take(i + 1) =~= ps.take(i as int).push(ps[i as int]));
            if i > 0 {
                lemma_records_snoc(ps.take(i as int), ps[i as int]);
                assert(out@ =~= seq!['['] + json_of_records(ps.take(i + 1)));
            } else {
                assert(ps.take(1) =~= seq![ps[0]]);
                assert(out@ =~= seq!['['] + json_of_records(ps.take(i + 1)));
            }
        }
        i = i + 1;
    }
    out.push(']');
    proof {
        assert(pairs(todos@).take(todos@.len() as int) =~= pairs(todos@));
        assert(out@ =~= json_of(pairs(todos@)));
    }
    chars_to_string(&out)
}

// ---------------------------------------------------------------------
// Decoding a list.
// ---------------------------------------------------------------------
fn is_ws_exec(c: char) -> (r: bool)
    ensures
        r == is_ws(c),
{
    c == ' ' || c == '\t' || c == '\n' || c == '\r'
}

fn skip_ws_exec(v: &Vec<char>, i: usize) -> (r: usize)
    requires
        i <= v.len(),
    ensures
        r as int == skip_ws(v@, i as int),
        i <= r <= v.len(),
{
    let mut j = i;
    while j < v.len() && is_ws_exec(v[j])
        invariant
            i <= j <= v.len(),
            skip_ws(v@, i as int) == skip_ws(v@, j as int),
        decreases v.len() - j,
    {
        proof {
            assert(skip_ws(v@, j as int) == skip_ws(v@, j + 1));
        }
        j = j + 1;
    }
    proof {
        assert(skip_ws(v@, j as int) == j as int);
    }
    j
}

/// Relies on char::from_u32: a value that is not a surrogate and at
/// most 0x10ffff is a scalar value, and yields the character with that
/// code point.
#[verifier::external_body]
fn char_from_u32(v: u32) -> (r: char)
    requires
        v < 0xd800 || (0xe000 <= v && v <= 0x10ffff),
    ensures
        r as u32 == v,
{
    char::from_u32(v).expect("not a scalar value")
}

fn is_escape_code_exec(c: char) -> (r: bool)
    ensures
        r == is_escape_code(c),
{
    c == '"' || c == '\\' || c == '/' || c == 'b' || c == 't' || c == 'n' || c == 'f' || c == 'r'
}

fn unescape_code_exec(c: char) -> (r: char)
    ensures
        r == unescape_code(c),
{
    if c == 'b' {
        '\u{8}'
    } else if c == 't' {
        '\u{9}'
    } else if c == 'n' {
        '\u{a}'
    } else if c == 'f' {
        '\u{c}'
    } else if c == 'r' {
        '\u{d}'
    } else {
        c
    }
}

fn is_hex_exec(c: char) -> (r: bool)
    ensures
        r == is_hex(c),
{
    let u = c as u32;
    (48 <= u && u <= 57) || (97 <= u && u <= 102) || (65 <= u && u <= 70)
}

fn hex_val_exec(c: char) -> (r: u32)
    requires
        is_hex(c),
    ensures
        r == hex_val(c),
        r < 16,
{
    let u = c as u32;
    if u <= 57 {
        u - 48
    } else if u >= 97 {
        u - 87
    } else {
        u - 55
    }
}

fn match_task_key(v: &Vec<char>, i: usize) -> (r: bool)
    ensures
        r == match_at(v@, i as int, lit_task_key()),
{
    if v.len() < 6 || i > v.len() - 6 {
        return false;
    }
    let r = v[i] == '"' && v[i + 1] == 't' && v[i + 2] == 'a' && v[i + 3] == 's' && v[i + 4]
        == 'k' && v[i + 5] == '"';
    proof {
        if r {
            assert(v@.subrange(i as int, i + 6) =~= lit_task_key());
        } else {
            if match_at(v@, i as int, lit_task_key()) {
                assert(forall|k: int|
                    0 <= k < 6 ==> v@.subrange(i as int, i + 6)[k] == lit_task_key()[k]);
            }
        }
    }
    r
}

fn match_comp_key(v: &Vec<char>, i: usize) -> (r: bool)
    ensures
        r == match_at(v@, i as int, lit_comp_key()),
{
    if v.len() < 11 || i > v.len() - 11 {
        return false;
    }
    let r = v[i] == '"' && v[i + 1] == 'c' && v[i + 2] == 'o' && v[i + 3] == 'm' && v[i + 4]
        == 'p' && v[i + 5] == 'l' && v[i + 6] == 'e' && v[i + 7] == 't' && v[i + 8] == 'e' && v[i
        + 9] == 'd' && v[i + 10] == '"';
    proof {
        if r {
            assert(v@.subrange(i as int, i + 11) =~= lit_comp_key());
        } else {
            if match_at(v@, i as int, lit_comp_key()) {
                assert(forall|k: int|
                    0 <= k < 11 ==> v@.subrange(i as int, i + 11)[k] == lit_comp_key()[k]);
            }
        }
    }
    r
}

fn parse_bool_exec(v: &Vec<char>, i: usize) -> (r: Option<(bool, usize)>)
    requires
        i <= v.len(),
    ensures
        (match r {
            Some((b, j)) => parse_bool(v@, i as int) == Some((b, j as int)) && i < j && j
                <= v.len(),
            None => parse_bool(v@, i as int) is None,
        }),
{
    if v.len() - i >= 4 && v[i] == 't' && v[i + 1] == 'r' && v[i + 2] == 'u' && v[i + 3] == 'e' {
        proof {
            assert(v@.subrange(i as int, i + 4) =~= seq!['t', 'r', 'u', 'e']);
        }
        return Some((true, i + 4));
    }
    if v.len() - i >= 5 && v[i] == 'f' && v[i + 1] == 'a' && v[i + 2] == 'l' && v[i + 3] == 's'
        && v[i + 4] == 'e' {
        proof {
            assert(v@.subrange(i as int, i + 5) =~= seq!['f', 'a', 'l', 's', 'e']);
        }
        return Some((false, i + 5));
    }
    proof {
        if match_at(v@, i as int, seq!['t', 'r', 'u', 'e']) {
            assert(forall|k: int|
                0 <= k < 4 ==> v@.subrange(i as int, i + 4)[k] == seq!['t', 'r', 'u', 'e'][k]);
        }
        if match_at(v@, i as int, seq!['f', 'a', 'l', 's', 'e']) {
            assert(forall|k: int|
                0 <= k < 5 ==> v@.subrange(i as int, i + 5)[k] == seq!['f', 'a', 'l', 's', 'e'][k]);
        }
    }
    None
}

#[verifier::rlimit(50)]
fn parse_string_body_exec(v: &Vec<char>, start: usize) -> (r: Option<(Vec<char>, usize)>)
    requires
        start <= v.len(),
    ensures
        (match r {
            Some((t, j)) => parse_string_body(v@, start as int) == Some((t@, j as int)) && start
                < j && j <= v.len(),
            None => parse_string_body(v@, start as int) is None,
        }),
{
    let mut acc: Vec<char> = Vec::new();
    let mut i = start;
    proof {
        assert forall|t: Seq<char>| Seq::<char>::empty() + t == t by {
            assert(Seq::<char>::empty() + t =~= t);
        }
    }
    loop
        invariant
            start <= i <= v.len(),
            (parse_string_body(v@, start as int) == match parse_string_body(v@, i as int) {
                Some((t, j)) => Some((acc@ + t, j)),
                None => None,
            }),
        decreases v.len() - i,
    {
        if i >= v.len() {
            return None;
        }
        let c = v[i];
        if c == '"' {
            proof {
                assert(acc@ + Seq::<char>::empty() =~= acc@);
            }
            return Some((acc, i + 1));
        } else if c == '\\' {
            if v.len() - i >= 2 && is_escape_code_exec(v[i + 1]) {
                let d = unescape_code_exec(v[i + 1]);
                let ghost acc0 = acc@;
                acc.push(d);
                proof {
                    assert forall|t: Seq<char>| acc0 + (seq![d] + t) == acc@ + t by {
                        assert(acc0 + (seq![d] + t) =~= acc@ + t);
                    }
                }
                i = i + 2;
            } else if v.len() - i >= 6 && v[i + 1] == 'u' && is_hex_exec(v[i + 2]) && is_hex_exec(
                v[i + 3],
            ) && is_hex_exec(v[i + 4]) && is_hex_exec(v[i + 5]) {
                let h = hex_val_exec(v[i + 2]) * 4096 + hex_val_exec(v[i + 3]) * 256 + hex_val_exec(
                    v[i + 4],
                ) * 16 + hex_val_exec(v[i + 5]);
                proof {
                    assert(is_hex4(v@, i + 2));
                    assert(h as nat == hex4(v@, i + 2));
                }
                if h < 0xd800 || h > 0xdfff {
                    let d = char_from_u32(h);
                    proof {
                        lemma_scalar_code(h as nat);
                        lemma_char_eq(d, char_of(h as nat));
                    }
                    let ghost acc0 = acc@;
                    acc.push(d);
                    proof {
                        assert forall|t: Seq<char>| acc0 + (seq![d] + t) == acc@ + t by {
                            assert(acc0 + (seq![d] + t) =~= acc@ + t);
                        }
                    }
                    i = i + 6;
                } else if h < 0xdc00 {
                    if v.len() - i >= 12 && v[i + 6] == '\\' && v[i + 7] == 'u' && is_hex_exec(
                        v[i + 8],
                    ) && is_hex_exec(v[i + 9]) && is_hex_exec(v[i + 10]) && is_hex_exec(v[i + 11]) {
                        let lo = hex_val_exec(v[i + 8]) * 4096 + hex_val_exec(v[i + 9]) * 256
                            + hex_val_exec(v[i + 10]) * 16 + hex_val_exec(v[i + 11]);
                        proof {
                            assert(is_hex4(v@, i + 8));
                            assert(lo as nat == hex4(v@, i + 8));
                        }
                        if 0xdc00 <= lo && lo <= 0xdfff {
                            let code = 0x10000 + (h - 0xd800) * 0x400 + (lo - 0xdc00);
                            let d = char_from_u32(code);
                            proof {
                                lemma_scalar_code(code as nat);
                                lemma_char_eq(d, char_of(code as nat));
                            }
                            let ghost acc0 = acc@;
                            acc.push(d);
                            proof {
                                assert forall|t: Seq<char>| acc0 + (seq![d] + t) == acc@ + t by {
                                    assert(acc0 + (seq![d] + t) =~= acc@ + t);
                                }
                            }
                            i = i + 12;
                        } else {
                            return None;
                        }
                    } else {
                        return None;
                    }
                } else {
                    return None;
                }
            } else {
                return None;
            }
        } else {
            let ghost acc0 = acc@;
            acc.push(c);
            proof {
                assert forall|t: Seq<char>| acc0 + (seq![c] + t) == acc@ + t by {
                    assert(acc0 + (seq![c] + t) =~= acc@ + t);
                }
            }
            i = i + 1;
        }
    }
}

fn parse_task_member_exec(v: &Vec<char>, i: usize) -> (r: Option<(Vec<char>, usize)>)
    requires
        i <= v.len(),
    ensures
        (match r {
            Some((t, j)) => parse_task_member(v@, i as int) == Some((t@, j as int)) && i < j && j
                <= v.len(),
            None => parse_task_member(v@, i as int) is None,
        }),
{
    if !match_task_key(v, i) {
        return None;
    }
    let c = skip_ws_exec(v, i + 6);
    if !(c < v.len() && v[c] == ':') {
        return None;
    }
    let w = skip_ws_exec(v, c + 1);
    if !(w < v.len() && v[w] == '"') {
        return None;
    }
    parse_string_body_exec(v, w + 1)
}

fn parse_completed_member_exec(v: &Vec<char>, i: usize) -> (r: Option<(bool, usize)>)
    requires
        i <= v.len(),
    ensures
        (match r {
            Some((b, j)) => parse_completed_member(v@, i as int) == Some((b, j as int)) && i < j
                && j <= v.len(),
            None => parse_completed_member(v@, i as int) is None,
        }),
{
    if !match_comp_key(v, i) {
        return None;
    }
    let c = skip_ws_exec(v, i + 11);
    if !(c < v.len() && v[c] == ':') {
        return None;
    }
    parse_bool_exec(v, skip_ws_exec(v, c + 1))
}

fn parse_record_exec(v: &Vec<char>, i: usize) -> (r: Option<(Todo, usize)>)
    requires
        i <= v.len(),
    ensures
        (match r {
            Some((t, j)) => parse_record(v@, i as int) == Some(((t.task@, t.completed), j as int))
                && i < j && j <= v.len(),
            None => parse_record(v@, i as int) is None,
        }),
{
    if !(i < v.len() && v[i] == '{') {
        return None;
    }
    let m = skip_ws_exec(v, i + 1);
    if m < v.len() && m + 1 < v.len() && v[m] == '"' && v[m + 1] == 't' {
        match parse_task_member_exec(v, m) {
            None => None,
            Some((task_chars, j)) => {
                let k = skip_ws_exec(v, j);
                if !(k < v.len() && v[k] == ',') {
                    return None;
                }
                let m2 = skip_ws_exec(v, k + 1);
                match parse_completed_member_exec(v, m2) {
                    None => None,
                    Some((b, j2)) => {
                        let e = skip_ws_exec(v, j2);
                        if e < v.len() && v[e] == '}' {
                            let task = chars_to_string(&task_chars);
                            Some((Todo { task, completed: b }, e + 1))
                        } else {
                            None
                        }
                    },
                }
            },
        }
    } else {
        match parse_completed_member_exec(v, m) {
            None => None,
            Some((b, j)) => {
                let k = skip_ws_exec(v, j);
                if !(k < v.len() && v[k] == ',') {
                    return None;
                }
                let m2 = skip_ws_exec(v, k + 1);
                match parse_task_member_exec(v, m2) {
                    None => None,
                    Some((task_chars, j2)) => {
                        let e = skip_ws_exec(v, j2);
                        if e < v.len() && v[e] == '}' {
                            let task = chars_to_string(&task_chars);
                            Some((Todo { task, completed: b }, e + 1))
                        } else {
                            None
                        }
                    },
                }
            },
        }
    }
}

/// Decode stored text into a task list; None where the text is not a
/// JSON array of task records.
#[verifier::rlimit(100)]
pub fn parse_tasks(s: &str) -> (r: Option<Vec<Todo>>)
    ensures
        (match r {
            Some(l) => parse_json(s@) == Some(pairs(l@)),
            None => parse_json(s@) is None,
        }),
{
    let v = str_to_chars(s);
    let i0 = skip_ws_exec(&v, 0);
    if !(i0 < v.len() && v[i0] == '[') {
        return None;
    }
    let i1 = skip_ws_exec(&v, i0 + 1);
    if i1 < v.len() && v[i1] == ']' {
        let z = skip_ws_exec(&v, i1 + 1);
        if z == v.len() {
            let out: Vec<Todo> = Vec::new();
            proof {
                assert(pairs(out@) =~= Seq::<(Seq<char>, bool)>::empty());
            }
            return Some(out);
        } else {
            return None;
        }
    }
    proof {
        assert(parse_json(s@) == parse_records(v@, i1 as int));
    }
    let mut out: Vec<Todo> = Vec::new();
    let mut i: usize = i1;
    proof {
        assert(pairs(out@) =~= Seq::<(Seq<char>, bool)>::empty());
        assert forall|ps: Seq<(Seq<char>, bool)>| Seq::<(Seq<char>, bool)>::empty() + ps == ps by {
            assert(Seq::<(Seq<char>, bool)>::empty() + ps =~= ps);
        }
    }
    loop
        invariant
            i <= v@.len(),
            v@ == s@,
            (parse_json(s@) == match parse_records(v@, i as int) {
                Some(ps) => Some(pairs(out@) + ps),
                None => None,
            }),
        decreases v@.len() - i,
    {
        match parse_record_exec(&v, i) {
            None => {
                return None;
            },
            Some((t, j)) => {
                let ghost p = (t.task@, t.completed);
                let k = skip_ws_exec(&v, j);
                if k < v.len() && v[k] == ']' {
                    let z = skip_ws_exec(&v, k + 1);
                    if z == v.len() {
                        let ghost out0 = pairs(out@);
                        out.push(t);
                        proof {
                            assert(parse_records(v@, i as int) == Some(seq![p]));
                            assert(pairs(out@) =~= out0 + seq![p]);
                        }
                        return Some(out);
                    } else {
                        return None;
                    }
                } else if k < v.len() && v[k] == ',' {
                    let m = skip_ws_exec(&v, k + 1);
                    let ghost out0 = pairs(out@);
                    out.push(t);
                    proof {
                        assert(parse_records(v@, i as int) == (match parse_records(
                            v@,
                            m as int,
                        ) {
                            Some(ps) => Some(seq![p] + ps),
                            None => None,
                        }));
                        assert(pairs(out@) =~= out0.push(p));
                        assert forall|ps: Seq<(Seq<char>, bool)>|
                            out0 + (seq![p] + ps) == pairs(out@) + ps by {
                            assert(out0 + (seq![p] + ps) =~= out0.push(p) + ps);
                        }
                    }
                    i = m;
                } else {
                    return None;
                }
            },
        }
    }
}
// ---------------------------------------------------------------------
// Round trip: the canonical text of a list decodes to exactly that
// list.
// ---------------------------------------------------------------------
proof fn lemma_hex_digit(d: nat)
    requires
        d < 16,
    ensures
        is_hex(hex_char(d)),
        hex_val(hex_char(d)) == d,
{
}

/// A scalar value survives the trip through its code point.
proof fn lemma_scalar_code(v: nat)
    requires
        v < 0xd800 || (0xe000 <= v && v <= 0x10ffff),
    ensures
        char_of(v) as u32 == v,
{
}

/// Characters with the same code point are the same character.
proof fn lemma_char_eq(c1: char, c2: char)
    requires
        c1 as u32 == c2 as u32,
    ensures
        c1 == c2,
{
}

/// Where no whitespace stands, skipping whitespace does nothing.
proof fn lemma_skip_ws_none(s: Seq<char>, i: int)
    requires
        0 <= i <= s.len(),
        i < s.len() ==> !is_ws(s[i]),
    ensures
        skip_ws(s, i) == i,
{
}

/// From the window equality, every position inside it is known.
proof fn lemma_window_points(s: Seq<char>, i: int, w: Seq<char>)
    requires
        0 <= i,
        i + w.len() <= s.len(),
        s.subrange(i, i + w.len()) == w,
    ensures
        forall|k: int| 0 <= k < w.len() ==> s[i + k] == w[k],
{
    assert forall|k: int| 0 <= k < w.len() implies s[i + k] == w[k] by {
        assert(s.subrange(i, i + w.len())[k] == s[i + k]);
    }
}

/// Reading an escaped task text followed by its closing quote yields
/// the text back, ending just past the quote.
proof fn lemma_psb_of_esc(s: Seq<char>, i: int, t: Seq<char>)
    requires
        0 <= i,
        i + esc(t).len() + 1 <= s.len(),
        s.subrange(i, i + esc(t).len() + 1) == esc(t) + seq!['"'],
    ensures
        parse_string_body(s, i) == Some((t, i + esc(t).len() + 1)),
    decreases t.len(),
{
    let w = esc(t) + seq!['"'];
    lemma_window_points(s, i, w);
    if t.len() == 0 {
        assert(t =~= Seq::<char>::empty());
        assert(esc(t) == Seq::<char>::empty());
        assert(s[i] == w[0]);
        assert(s[i] == '"');
    } else {
        let c = t[0];
        let e = esc_char(c);
        let rest = t.drop_first();
        assert(esc(t) == e + esc(rest));
        let i2 = i + e.len();
        assert(s.subrange(i2, i2 + esc(rest).len() + 1) =~= esc(rest) + seq!['"']) by {
            assert forall|k: int| 0 <= k < esc(rest).len() + 1 implies s.subrange(
                i2,
                i2 + esc(rest).len() + 1,
            )[k] == (esc(rest) + seq!['"'])[k] by {
                assert(s.subrange(i2, i2 + esc(rest).len() + 1)[k] == s[i2 + k]);
                assert(s[i2 + k] == w[e.len() + k]);
            }
        }
        lemma_psb_of_esc(s, i2, rest);
        assert(seq![c] + rest =~= t);
        assert forall|k: int| 0 <= k < e.len() implies s[i + k] == e[k] by {
            assert(s[i + k] == w[k]);
            assert(w[k] == esc(t)[k]);
            assert(esc(t)[k] == e[k]);
        }
        if has_short_escape(c) {
            assert(s[i + 0] == e[0] && s[i + 1] == e[1]);
            assert(s[i] == '\\' && s[i + 1] == short_escape(c));
            assert(is_escape_code(short_escape(c)));
            assert(unescape_code(short_escape(c)) == c);
        } else if (c as u32) < 32 {
            let u = c as u32;
            lemma_hex_digit((u / 16) as nat);
            lemma_hex_digit((u % 16) as nat);
            assert(s[i + 0] == e[0] && s[i + 1] == e[1] && s[i + 2] == e[2] && s[i + 3] == e[3]
                && s[i + 4] == e[4] && s[i + 5] == e[5]);
            assert(s[i] == '\\' && s[i + 1] == 'u' && s[i + 2] == '0' && s[i + 3] == '0');
            assert(s[i + 4] == hex_char((u / 16) as nat));
            assert(s[i + 5] == hex_char((u % 16) as nat));
            assert(is_hex('0') && hex_val('0') == 0);
            assert(is_hex4(s, i + 2));
            assert(hex4(s, i + 2) == u);
            lemma_scalar_code(u as nat);
            assert(char_of(hex4(s, i + 2)) as u32 == c as u32);
            lemma_char_eq(char_of(hex4(s, i + 2)), c);
            assert(char_of(hex4(s, i + 2)) == c);
        } else {
            assert(s[i + 0] == e[0]);
            assert(s[i] == c);
        }
    }
}

/// Reading the text of one record yields that record back.
#[verifier::rlimit(100)]
proof fn lemma_record_of_json(s: Seq<char>, i: int, p: (Seq<char>, bool))
    requires
        0 <= i,
        i + json_of_record(p).len() <= s.len(),
        s.subrange(i, i + json_of_record(p).len()) == json_of_record(p),
    ensures
        parse_record(s, i) == Some((p, i + json_of_record(p).len())),
{
    let w = json_of_record(p);
    lemma_window_points(s, i, w);
    let el = esc(p.0).len();
    let bl = bool_chars(p.1).len();
    assert(w.len() == 9 + el + 1 + 13 + bl + 1);
    // the opening brace and the task key, with no whitespace between
    assert forall|k: int| 0 <= k < 9 implies s[i + k] == lit_open()[k] by {
        assert(s[i + k] == w[k]);
    }
    assert(s[i] == '{');
    assert(s[i + 1] == '"');
    lemma_skip_ws_none(s, i + 1);
    assert(s[i + 2] == 't');
    assert(s.subrange(i + 1, i + 7) =~= lit_task_key()) by {
        assert forall|k: int| 0 <= k < 6 implies s.subrange(i + 1, i + 7)[k]
            == lit_task_key()[k] by {
            assert(s.subrange(i + 1, i + 7)[k] == s[i + 1 + k]);
            assert(s[i + 1 + k] == w[1 + k]);
        }
    }
    assert(match_at(s, i + 1, lit_task_key()));
    assert(s[i + 7] == ':');
    lemma_skip_ws_none(s, i + 7);
    assert(s[i + 8] == '"');
    lemma_skip_ws_none(s, i + 8);
    // the escaped task text with its closing quote
    assert(s.subrange(i + 9, i + 9 + el + 1) =~= esc(p.0) + seq!['"']) by {
        assert forall|k: int| 0 <= k < el + 1 implies s.subrange(i + 9, i + 9 + el + 1)[k] == (esc(
            p.0,
        ) + seq!['"'])[k] by {
            assert(s.subrange(i + 9, i + 9 + el + 1)[k] == s[i + 9 + k]);
            assert(s[i + 9 + k] == w[9 + k]);
        }
    }
    lemma_psb_of_esc(s, i + 9, p.0);
    assert(parse_task_member(s, i + 1) == Some((p.0, i + 10 + el)));
    let j = i + 10 + el;
    // the comma and the completed key
    assert(s[j] == w[10 + el as int]);
    assert(w[10 + el as int] == lit_comp()[0]);
    assert(s[j] == ',');
    lemma_skip_ws_none(s, j);
    assert(s[j + 1] == w[11 + el as int]);
    assert(w[11 + el as int] == lit_comp()[1]);
    assert(s[j + 1] == '"');
    lemma_skip_ws_none(s, j + 1);
    assert(s.subrange(j + 1, j + 12) =~= lit_comp_key()) by {
        assert forall|k: int| 0 <= k < 11 implies s.subrange(j + 1, j + 12)[k]
            == lit_comp_key()[k] by {
            assert(s.subrange(j + 1, j + 12)[k] == s[j + 1 + k]);
            assert(s[j + 1 + k] == w[11 + el + k]);
            assert(w[11 + el + k] == lit_comp()[1 + k]);
        }
    }
    assert(match_at(s, j + 1, lit_comp_key()));
    assert(s[j + 12] == w[22 + el as int]);
    assert(w[22 + el as int] == lit_comp()[12]);
    assert(s[j + 12] == ':');
    lemma_skip_ws_none(s, j + 12);
    // the flag itself
    assert(s.subrange(j + 13, j + 13 + bl) =~= bool_chars(p.1)) by {
        assert forall|k: int| 0 <= k < bl implies s.subrange(j + 13, j + 13 + bl)[k] == bool_chars(
            p.1,
        )[k] by {
            assert(s.subrange(j + 13, j + 13 + bl)[k] == s[j + 13 + k]);
            assert(s[j + 13 + k] == w[9 + el + 1 + 13 + k]);
        }
    }
    assert(s[j + 13] == bool_chars(p.1)[0]);
    lemma_skip_ws_none(s, j + 13);
    if p.1 {
        assert(match_at(s, j + 13, seq!['t', 'r', 'u', 'e']));
        assert(parse_bool(s, j + 13) == Some((true, j + 13 + 4)));
    } else {
        assert(s[j + 13] == 'f');
        assert(!match_at(s, j + 13, seq!['t', 'r', 'u', 'e'])) by {
            if match_at(s, j + 13, seq!['t', 'r', 'u', 'e']) {
                assert(s.subrange(j + 13, j + 13 + 4)[0] == s[j + 13]);
            }
        }
        assert(match_at(s, j + 13, seq!['f', 'a', 'l', 's', 'e']));
        assert(parse_bool(s, j + 13) == Some((false, j + 13 + 5)));
    }
    assert(parse_completed_member(s, j + 1) == Some((p.1, j + 13 + bl)));
    // the closing brace
    assert(s[j + 13 + bl] == w[9 + el + 1 + 13 + bl as int]);
    assert(s[j + 13 + bl] == '}');
    lemma_skip_ws_none(s, j + 13 + bl);
    assert(j + 13 + bl + 1 == i + w.len());
}

/// Reading the text of one or more records, closed by `]` at the very
/// end, yields those records back.
proof fn lemma_records_of_json(s: Seq<char>, i: int, ps: Seq<(Seq<char>, bool)>)
    requires
        ps.len() >= 1,
        0 <= i,
        i + json_of_records(ps).len() + 1 == s.len(),
        s.subrange(i, s.len() as int) == json_of_records(ps) + seq![']'],
    ensures
        parse_records(s, i) == Some(ps),
    decreases ps.len(),
{
    let w = json_of_records(ps) + seq![']'];
    lemma_window_points(s, i, w);
    let r0 = json_of_record(ps[0]);
    if ps.len() == 1 {
        assert(json_of_records(ps) == r0);
        assert(s.subrange(i, i + r0.len()) =~= r0) by {
            assert forall|k: int| 0 <= k < r0.len() implies s.subrange(i, i + r0.len())[k]
                == r0[k] by {
                assert(s.subrange(i, i + r0.len())[k] == s[i + k]);
                assert(s[i + k] == w[k]);
            }
        }
        lemma_record_of_json(s, i, ps[0]);
        let j = i + r0.len();
        assert(s[j] == w[r0.len() as int]);
        assert(s[j] == ']');
        lemma_skip_ws_none(s, j);
        assert(j == s.len() - 1);
        lemma_skip_ws_none(s, j + 1);
        assert(skip_ws(s, j + 1) == s.len());
        assert(seq![ps[0]] =~= ps);
    } else {
        let tail = ps.drop_first();
        assert(json_of_records(ps) == r0 + seq![','] + json_of_records(tail));
        assert(s.subrange(i, i + r0.len()) =~= r0) by {
            assert forall|k: int| 0 <= k < r0.len() implies s.subrange(i, i + r0.len())[k]
                == r0[k] by {
                assert(s.subrange(i, i + r0.len())[k] == s[i + k]);
                assert(s[i + k] == w[k]);
            }
        }
        lemma_record_of_json(s, i, ps[0]);
        let j = i + r0.len();
        assert(s[j] == w[r0.len() as int]);
        assert(s[j] == ',');
        lemma_skip_ws_none(s, j);
        assert(j < s.len());
        assert(s[j] != ']');
        assert(s[j + 1] == w[r0.len() + 1 as int]);
        assert(w[r0.len() + 1 as int] == json_of_records(tail)[0]);
        assert(json_of_records(tail)[0] == json_of_record(tail[0])[0]);
        assert(json_of_record(tail[0])[0] == lit_open()[0]);
        assert(s[j + 1] == '{');
        lemma_skip_ws_none(s, j + 1);
        assert(s.subrange(j + 1, s.len() as int) =~= json_of_records(tail) + seq![']']) by {
            assert forall|k: int| 0 <= k < json_of_records(tail).len() + 1 implies s.subrange(
                j + 1,
                s.len() as int,
            )[k] == (json_of_records(tail) + seq![']'])[k] by {
                assert(s.subrange(j + 1, s.len() as int)[k] == s[j + 1 + k]);
                assert(s[j + 1 + k] == w[r0.len() + 1 + k]);
            }
        }
        lemma_records_of_json(s, j + 1, tail);
        assert(seq![ps[0]] + tail =~= ps);
    }
}

/// Round trip: the canonical stored text of any task list decodes to
/// exactly that list. Saving a list and loading it back yields the
/// same ordered (description, completed) pairs.
#[verifier::rlimit(100)]
pub proof fn lemma_round_trip(ps: Seq<(Seq<char>, bool)>)
    ensures
        parse_json(json_of(ps)) == Some(ps),
        loaded(json_of(ps)) == ps,
{
    let s = json_of(ps);
    assert(s[0] == '[');
    assert(s[s.len() - 1] == ']');
    lemma_skip_ws_none(s, 0);
    if ps.len() == 0 {
        assert(json_of_records(ps) == Seq::<char>::empty());
        assert(s.len() == 2);
        assert(s[1] == ']');
        lemma_skip_ws_none(s, 1);
        lemma_skip_ws_none(s, 2);
        assert(parse_json(s) == Some(Seq::<(Seq<char>, bool)>::empty()));
        assert(ps =~= Seq::<(Seq<char>, bool)>::empty());
    } else {
        assert(json_of_record(ps[0]).len() >= 28);
        assert(json_of_records(ps).len() >= 28);
        assert(s.len() > 2);
        assert(s[1] == json_of_records(ps)[0]);
        assert(json_of_records(ps)[0] == json_of_record(ps[0])[0]);
        assert(json_of_record(ps[0])[0] == lit_open()[0]);
        assert(s[1] == '{');
        lemma_skip_ws_none(s, 1);
        assert(s.subrange(1, s.len() as int) =~= json_of_records(ps) + seq![']']);
        lemma_records_of_json(s, 1, ps);
    }
}

/// Decode stored text, treating anything that is not a JSON array of
/// task records as the empty list.
pub fn load_from_text(s: &str) -> (r: Vec<Todo>)
    ensures
        pairs(r@) == loaded(s@),
{
    match parse_tasks(s) {
        Some(l) => l,
        None => {
            let out: Vec<Todo> = Vec::new();
            proof {
                assert(pairs(out@) =~= Seq::<(Seq<char>, bool)>::empty());
            }
            out
        },
    }
}

} // verus!
