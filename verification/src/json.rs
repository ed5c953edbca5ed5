//! The persisted file format: one JSON object with a single field,
//! `projector`, holding a mapping from directory path to a flat
//! string-to-string mapping.
//!
//! The grammar below is the file contract itself: the writer emits
//! exactly the text the spec functions describe, and the reader accepts
//! exactly what the parsing spec functions accept. A file that does not
//! parse loads as the empty store; the loader is defined to be total.

use vstd::prelude::*;
use vstd::string::StringExecFns;
use vstd::string::StrSliceExecFns;
use crate::path::{DirPath, normalize, path_str};
use crate::store::{Scope, Store};
use crate::strutil::{char_from_u32, is_scalar_value, push_char};

verus! {

// --- character codes ---

/// The lower-case hex digit for a value below sixteen.
pub open spec fn hex_c(d: int) -> char {
    if d == 0 { '0' } else if d == 1 { '1' } else if d == 2 { '2' } else if d == 3 { '3' }
    else if d == 4 { '4' } else if d == 5 { '5' } else if d == 6 { '6' } else if d == 7 { '7' }
    else if d == 8 { '8' } else if d == 9 { '9' } else if d == 10 { 'a' } else if d == 11 { 'b' }
    else if d == 12 { 'c' } else if d == 13 { 'd' } else if d == 14 { 'e' } else { 'f' }
}

/// The value of a hex digit, either case; -1 for any other character.
#[verifier::opaque]
pub open spec fn hex_v(c: char) -> int {
    let n = c as int;
    if '0' as int <= n <= '9' as int {
        n - '0' as int
    } else if 'a' as int <= n <= 'f' as int {
        n - 'a' as int + 10
    } else if 'A' as int <= n <= 'F' as int {
        n - 'A' as int + 10
    } else {
        -1
    }
}

proof fn lemma_hex_v_c(d: int)
    requires
        0 <= d < 16,
    ensures
        hex_v(hex_c(d)) == d,
{
    reveal(hex_v);
}

/// The value of four hex digits starting at `j`; -1 when any of the
/// four is not a hex digit.
#[verifier::opaque]
pub open spec fn hex4(s: Seq<char>, j: int) -> int {
    if hex_v(s[j]) < 0 || hex_v(s[j + 1]) < 0 || hex_v(s[j + 2]) < 0 || hex_v(s[j + 3]) < 0 {
        -1
    } else {
        ((hex_v(s[j]) * 16 + hex_v(s[j + 1])) * 16 + hex_v(s[j + 2])) * 16 + hex_v(s[j + 3])
    }
}

/// The code point of a character.
pub open spec fn code_of(c: char) -> int {
    c as int
}

/// The character with code point `n` (for `n` a unicode scalar value).
pub open spec fn char_of(n: int) -> char {
    choose|c: char| #[trigger] code_of(c) == n
}

proof fn lemma_char_code_range(c: char)
    ensures
        0 <= c as int <= 0x10FFFF,
{
}

proof fn lemma_char_of(c: char, n: int)
    requires
        c as int == n,
    ensures
        char_of(n) == c,
{
    assert(exists|c2: char| #[trigger] code_of(c2) == n) by {
        assert(code_of(c) == n);
    }
    assert(code_of(char_of(n)) == n);
}

// --- the written form ---

/// The escape of one character inside a JSON string literal. The quote
/// and the backslash are escaped, the named control characters by their
/// letters, every other control character below U+0020 as `\u00..`;
/// every remaining character stands for itself.
pub open spec fn esc_char(c: char) -> Seq<char> {
    if c == '"' {
        seq!['\\', '"']
    } else if c == '\\' {
        seq!['\\', '\\']
    } else if c == '\n' {
        seq!['\\', 'n']
    } else if c == '\t' {
        seq!['\\', 't']
    } else if c == '\r' {
        seq!['\\', 'r']
    } else if c == '\u{0008}' {
        seq!['\\', 'b']
    } else if c == '\u{000C}' {
        seq!['\\', 'f']
    } else if (c as int) < 0x20 {
        seq!['\\', 'u', '0', '0', hex_c((c as int) / 16), hex_c((c as int) % 16)]
    } else {
        seq![c]
    }
}

/// The body of a JSON string literal for `s`.
pub open spec fn esc(s: Seq<char>) -> Seq<char>
    decreases s.len(),
{
    if s.len() == 0 {
        Seq::empty()
    } else {
        esc(s.drop_last()) + esc_char(s.last())
    }
}

/// The JSON string literal for `s`.
pub open spec fn json_string(s: Seq<char>) -> Seq<char> {
    seq!['"'] + esc(s) + seq!['"']
}

/// One `"key":"value"` member.
pub open spec fn json_pair(k: Seq<char>, v: Seq<char>) -> Seq<char> {
    json_string(k) + seq![':'] + json_string(v)
}

/// The members of a scope object, comma separated, in entry order.
pub open spec fn json_scope_body(entries: Seq<(String, String)>) -> Seq<char>
    decreases entries.len(),
{
    if entries.len() == 0 {
        Seq::empty()
    } else if entries.len() == 1 {
        json_pair(entries[0].0@, entries[0].1@)
    } else {
        json_scope_body(entries.drop_last()) + seq![','] + json_pair(
            entries.last().0@,
            entries.last().1@,
        )
    }
}

/// A scope as a JSON object.
pub open spec fn json_scope(entries: Seq<(String, String)>) -> Seq<char> {
    seq!['{'] + json_scope_body(entries) + seq!['}']
}

/// The members of the store object: each directory's path as the key,
/// its scope object as the value, in entry order.
pub open spec fn json_store_body(scopes: Seq<(DirPath, Scope)>) -> Seq<char>
    decreases scopes.len(),
{
    if scopes.len() == 0 {
        Seq::empty()
    } else if scopes.len() == 1 {
        json_pair_obj(scopes[0].0, scopes[0].1)
    } else {
        json_store_body(scopes.drop_last()) + seq![','] + json_pair_obj(
            scopes.last().0,
            scopes.last().1,
        )
    }
}

/// One `"path":{...}` member of the store object.
pub open spec fn json_pair_obj(p: DirPath, sc: Scope) -> Seq<char> {
    json_string(path_str(p@)) + seq![':'] + json_scope(sc.entry_seq())
}

/// The whole persisted document.
pub open spec fn json_store(scopes: Seq<(DirPath, Scope)>) -> Seq<char> {
    seq!['{'] + json_string("projector"@) + seq![':'] + seq!['{'] + json_store_body(scopes)
        + seq!['}'] + seq!['}']
}

// --- the writer ---

/// The lower-case hex digit for a value below sixteen.
fn hex_c_x(d: u8) -> (r: char)
    requires
        d < 16,
    ensures
        r == hex_c(d as int),
{
    if d == 0 { '0' } else if d == 1 { '1' } else if d == 2 { '2' } else if d == 3 { '3' }
    else if d == 4 { '4' } else if d == 5 { '5' } else if d == 6 { '6' } else if d == 7 { '7' }
    else if d == 8 { '8' } else if d == 9 { '9' } else if d == 10 { 'a' } else if d == 11 { 'b' }
    else if d == 12 { 'c' } else if d == 13 { 'd' } else if d == 14 { 'e' } else { 'f' }
}

/// Appends the escaped body of a string literal for `s`.
fn write_escaped(out: &mut String, s: &str)
    ensures
        final(out)@ == old(out)@ + esc(s@),
{
    let n = s.unicode_len();
    let mut j: usize = 0;
    proof {
        assert(old(out)@ + esc(s@.take(0)) =~= old(out)@);
    }
    while j < n
        invariant
            j <= n,
            n == s@.len(),
            out@ == old(out)@ + esc(s@.take(j as int)),
        decreases n - j,
    {
        let c = s.get_char(j);
        if c == '"' {
            out.append("\\\"");
            proof {
                reveal_strlit("\\\"");
            }
        } else if c == '\\' {
            out.append("\\\\");
            proof {
                reveal_strlit("\\\\");
            }
        } else if c == '\n' {
            out.append("\\n");
            proof {
                reveal_strlit("\\n");
            }
        } else if c == '\t' {
            out.append("\\t");
            proof {
                reveal_strlit("\\t");
            }
        } else if c == '\r' {
            out.append("\\r");
            proof {
                reveal_strlit("\\r");
            }
        } else if c == '\u{0008}' {
            out.append("\\b");
            proof {
                reveal_strlit("\\b");
            }
        } else if c == '\u{000C}' {
            out.append("\\f");
            proof {
                reveal_strlit("\\f");
            }
        } else {
            let code = c as u32;
            if code < 0x20 {
                out.append("\\u00");
                proof {
                    reveal_strlit("\\u00");
                }
                push_char(out, hex_c_x((code / 16) as u8));
                push_char(out, hex_c_x((code % 16) as u8));
            } else {
                push_char(out, c);
            }
        }
        proof {
            assert(s@.take(j as int + 1).drop_last() =~= s@.take(j as int));
            assert(s@.take(j as int + 1).last() == s@[j as int]);
            assert(out@ =~= old(out)@ + esc(s@.take(j as int + 1)));
        }
        j += 1;
    }
    proof {
        assert(s@.take(n as int) =~= s@);
    }
}

/// Appends the JSON string literal for `s`.
fn write_json_string(out: &mut String, s: &str)
    ensures
        final(out)@ == old(out)@ + json_string(s@),
{
    out.append("\"");
    write_escaped(out, s);
    out.append("\"");
    proof {
        reveal_strlit("\"");
        assert(out@ =~= old(out)@ + json_string(s@));
    }
}

/// Appends a scope as a JSON object, members in entry order.
fn write_scope(out: &mut String, sc: &Scope)
    ensures
        final(out)@ == old(out)@ + json_scope(sc.entry_seq()),
{
    out.append("{");
    let n = sc.entry_count();
    let mut j: usize = 0;
    proof {
        reveal_strlit("{");
        assert(sc.entry_seq().take(0) =~= Seq::<(String, String)>::empty());
        assert(out@ =~= old(out)@ + seq!['{'] + json_scope_body(sc.entry_seq().take(0)));
    }
    while j < n
        invariant
            j <= n,
            n == sc.entry_seq().len(),
            out@ == old(out)@ + seq!['{'] + json_scope_body(sc.entry_seq().take(j as int)),
        decreases n - j,
    {
        if j > 0 {
            out.append(",");
            proof {
                reveal_strlit(",");
            }
        }
        let (k, v) = sc.entry_at(j);
        let ks = k.clone();
        let vs = v.clone();
        write_json_string(out, ks.as_str());
        out.append(":");
        write_json_string(out, vs.as_str());
        proof {
            reveal_strlit(":");
            let t = sc.entry_seq().take(j as int + 1);
            assert(t.drop_last() =~= sc.entry_seq().take(j as int));
            assert(t.last() == sc.entry_seq()[j as int]);
            assert(out@ =~= old(out)@ + seq!['{'] + json_scope_body(t));
        }
        j += 1;
    }
    out.append("}");
    proof {
        reveal_strlit("}");
        assert(sc.entry_seq().take(n as int) =~= sc.entry_seq());
        assert(out@ =~= old(out)@ + json_scope(sc.entry_seq()));
    }
}

/// The whole persisted document for a store, as text.
pub fn store_to_json(st: &Store) -> (r: String)
    ensures
        r@ == json_store(st.scope_seq()),
{
    let mut out = String::new();
    out.append("{");
    write_json_string(&mut out, "projector");
    out.append(":");
    out.append("{");
    let n = st.scope_count();
    let mut j: usize = 0;
    let ghost head = seq!['{'] + json_string("projector"@) + seq![':'] + seq!['{'];
    proof {
        reveal_strlit("{");
        reveal_strlit(":");
        assert(st.scope_seq().take(0) =~= Seq::<(DirPath, Scope)>::empty());
        assert(out@ =~= head + json_store_body(st.scope_seq().take(0)));
    }
    while j < n
        invariant
            j <= n,
            n == st.scope_seq().len(),
            out@ == head + json_store_body(st.scope_seq().take(j as int)),
            head == seq!['{'] + json_string("projector"@) + seq![':'] + seq!['{'],
        decreases n - j,
    {
        if j > 0 {
            out.append(",");
            proof {
                reveal_strlit(",");
            }
        }
        let (p, sc) = st.scope_entry_at(j);
        let ps = p.to_string();
        write_json_string(&mut out, ps.as_str());
        out.append(":");
        write_scope(&mut out, sc);
        proof {
            reveal_strlit(":");
            let t = st.scope_seq().take(j as int + 1);
            assert(t.drop_last() =~= st.scope_seq().take(j as int));
            assert(t.last() == st.scope_seq()[j as int]);
            assert(json_pair_obj(t.last().0, t.last().1) == json_string(path_str(
                t.last().0@,
            )) + seq![':'] + json_scope(t.last().1.entry_seq()));
            assert(out@ =~= head + json_store_body(t));
        }
        j += 1;
    }
    out.append("}");
    out.append("}");
    proof {
        reveal_strlit("}");
        assert(st.scope_seq().take(n as int) =~= st.scope_seq());
        assert(out@ =~= json_store(st.scope_seq()));
    }
    out
}

// --- the read form ---

/// JSON whitespace.
pub open spec fn is_ws(c: char) -> bool {
    c == ' ' || c == '\n' || c == '\t' || c == '\r'
}

/// The first index at or after `i` holding a non-whitespace character.
pub open spec fn skip_ws(s: Seq<char>, i: int) -> int
    decreases s.len() - i,
{
    if 0 <= i && i < s.len() && is_ws(s[i]) {
        skip_ws(s, i + 1)
    } else {
        i
    }
}

/// What one escape letter stands for; `None` rejects the escape.
pub open spec fn unesc(c: char) -> Option<char> {
    if c == '"' {
        Some('"')
    } else if c == '\\' {
        Some('\\')
    } else if c == '/' {
        Some('/')
    } else if c == 'n' {
        Some('\n')
    } else if c == 't' {
        Some('\t')
    } else if c == 'r' {
        Some('\r')
    } else if c == 'b' {
        Some('\u{0008}')
    } else if c == 'f' {
        Some('\u{000C}')
    } else {
        None
    }
}

/// The body of a string literal from `i` up to its closing quote: the
/// decoded text and the index just past the quote. A `\u` escape names
/// a code point in four hex digits; a surrogate pair of two such
/// escapes names one supplementary character; an unescaped control
/// character below U+0020 is rejected.
pub open spec fn parse_chars(s: Seq<char>, i: int) -> Option<(Seq<char>, int)>
    decreases s.len() - i,
{
    if i < 0 || i >= s.len() {
        None
    } else if s[i] == '"' {
        Some((Seq::empty(), i + 1))
    } else if s[i] == '\\' {
        if i + 1 >= s.len() {
            None
        } else if s[i + 1] == 'u' {
            if i + 6 > s.len() {
                None
            } else {
                let d = hex4(s, i + 2);
                if d < 0 {
                    None
                } else if 0xD800 <= d < 0xDC00 {
                    if i + 12 > s.len() || s[i + 6] != '\\' || s[i + 7] != 'u' {
                        None
                    } else {
                        let d2 = hex4(s, i + 8);
                        if !(0xDC00 <= d2 < 0xE000) {
                            None
                        } else {
                            let code = 0x10000 + (d - 0xD800) * 0x400 + (d2 - 0xDC00);
                            match parse_chars(s, i + 12) {
                                None => None,
                                Some((t, j)) => Some((seq![char_of(code)] + t, j)),
                            }
                        }
                    }
                } else if 0xDC00 <= d < 0xE000 {
                    None
                } else {
                    match parse_chars(s, i + 6) {
                        None => None,
                        Some((t, j)) => Some((seq![char_of(d)] + t, j)),
                    }
                }
            }
        } else {
            match unesc(s[i + 1]) {
                None => None,
                Some(c) => match parse_chars(s, i + 2) {
                    None => None,
                    Some((t, j)) => Some((seq![c] + t, j)),
                },
            }
        }
    } else if (s[i] as int) < 0x20 {
        None
    } else {
        match parse_chars(s, i + 1) {
            None => None,
            Some((t, j)) => Some((seq![s[i]] + t, j)),
        }
    }
}

/// A string literal starting at `i`.
pub open spec fn parse_string(s: Seq<char>, i: int) -> Option<(Seq<char>, int)> {
    if 0 <= i && i < s.len() && s[i] == '"' {
        parse_chars(s, i + 1)
    } else {
        None
    }
}

/// The members of a scope object after its opening brace (first member
/// expected at `i`): the pairs in written order and the index just past
/// the closing brace.
pub open spec fn parse_inner_pairs(s: Seq<char>, i: int, fuel: nat) -> Option<
    (Seq<(Seq<char>, Seq<char>)>, int),
>
    decreases fuel,
{
    if fuel == 0 {
        None
    } else {
        match parse_string(s, i) {
            None => None,
            Some((k, i1)) => {
                let i2 = skip_ws(s, i1);
                if !(0 <= i2 && i2 < s.len() && s[i2] == ':') {
                    None
                } else {
                    let i3 = skip_ws(s, i2 + 1);
                    match parse_string(s, i3) {
                        None => None,
                        Some((v, i4)) => {
                            let i5 = skip_ws(s, i4);
                            if 0 <= i5 && i5 < s.len() && s[i5] == ',' {
                                let i6 = skip_ws(s, i5 + 1);
                                match parse_inner_pairs(s, i6, (fuel - 1) as nat) {
                                    None => None,
                                    Some((rest, i7)) => Some((seq![(k, v)] + rest, i7)),
                                }
                            } else if 0 <= i5 && i5 < s.len() && s[i5] == '}' {
                                Some((seq![(k, v)], i5 + 1))
                            } else {
                                None
                            }
                        },
                    }
                }
            },
        }
    }
}

/// A scope object starting at `i`.
pub open spec fn parse_inner_obj(s: Seq<char>, i: int, fuel: nat) -> Option<
    (Seq<(Seq<char>, Seq<char>)>, int),
> {
    if 0 <= i && i < s.len() && s[i] == '{' {
        let j = skip_ws(s, i + 1);
        if 0 <= j && j < s.len() && s[j] == '}' {
            Some((Seq::empty(), j + 1))
        } else {
            parse_inner_pairs(s, j, fuel)
        }
    } else {
        None
    }
}

/// The members of the store object after its opening brace: each a path
/// with its scope object.
pub open spec fn parse_outer_pairs(s: Seq<char>, i: int, fuel: nat) -> Option<
    (Seq<(Seq<char>, Seq<(Seq<char>, Seq<char>)>)>, int),
>
    decreases fuel,
{
    if fuel == 0 {
        None
    } else {
        match parse_string(s, i) {
            None => None,
            Some((k, i1)) => {
                let i2 = skip_ws(s, i1);
                if !(0 <= i2 && i2 < s.len() && s[i2] == ':') {
                    None
                } else {
                    let i3 = skip_ws(s, i2 + 1);
                    match parse_inner_obj(s, i3, fuel) {
                        None => None,
                        Some((v, i4)) => {
                            let i5 = skip_ws(s, i4);
                            if 0 <= i5 && i5 < s.len() && s[i5] == ',' {
                                let i6 = skip_ws(s, i5 + 1);
                                match parse_outer_pairs(s, i6, (fuel - 1) as nat) {
                                    None => None,
                                    Some((rest, i7)) => Some((seq![(k, v)] + rest, i7)),
                                }
                            } else if 0 <= i5 && i5 < s.len() && s[i5] == '}' {
                                Some((seq![(k, v)], i5 + 1))
                            } else {
                                None
                            }
                        },
                    }
                }
            },
        }
    }
}

/// The store object starting at `i`.
pub open spec fn parse_outer_obj(s: Seq<char>, i: int, fuel: nat) -> Option<
    (Seq<(Seq<char>, Seq<(Seq<char>, Seq<char>)>)>, int),
> {
    if 0 <= i && i < s.len() && s[i] == '{' {
        let j = skip_ws(s, i + 1);
        if 0 <= j && j < s.len() && s[j] == '}' {
            Some((Seq::empty(), j + 1))
        } else {
            parse_outer_pairs(s, j, fuel)
        }
    } else {
        None
    }
}

/// The whole document: an object that is empty or holds exactly the
/// `projector` field, nothing after it. `None` when the text has any
/// other shape.
pub open spec fn parse_store_file(s: Seq<char>) -> Option<
    Seq<(Seq<char>, Seq<(Seq<char>, Seq<char>)>)>,
> {
    let i0 = skip_ws(s, 0);
    if !(0 <= i0 && i0 < s.len() && s[i0] == '{') {
        None
    } else {
        let i1 = skip_ws(s, i0 + 1);
        if 0 <= i1 && i1 < s.len() && s[i1] == '}' {
            if skip_ws(s, i1 + 1) == s.len() {
                Some(Seq::empty())
            } else {
                None
            }
        } else {
            match parse_string(s, i1) {
                None => None,
                Some((key, i2)) => {
                    if key != "projector"@ {
                        None
                    } else {
                        let i3 = skip_ws(s, i2);
                        if !(0 <= i3 && i3 < s.len() && s[i3] == ':') {
                            None
                        } else {
                            let i4 = skip_ws(s, i3 + 1);
                            match parse_outer_obj(s, i4, s.len()) {
                                None => None,
                                Some((pairs, i5)) => {
                                    let i6 = skip_ws(s, i5);
                                    if !(0 <= i6 && i6 < s.len() && s[i6] == '}') {
                                        None
                                    } else if skip_ws(s, i6 + 1) == s.len() {
                                        Some(pairs)
                                    } else {
                                        None
                                    }
                                },
                            }
                        }
                    }
                },
            }
        }
    }
}

/// The scope a parsed member list denotes: entries folded in order, a
/// later duplicate key overriding an earlier one.
pub open spec fn load_scope(entries: Seq<(Seq<char>, Seq<char>)>) -> Map<Seq<char>, Seq<char>>
    decreases entries.len(),
{
    if entries.len() == 0 {
        Map::empty()
    } else {
        load_scope(entries.drop_last()).insert(entries.last().0, entries.last().1)
    }
}

/// The store a parsed document denotes: each path normalized, a later
/// duplicate directory overriding an earlier one.
pub open spec fn load_store(pairs: Seq<(Seq<char>, Seq<(Seq<char>, Seq<char>)>)>) -> Map<
    Seq<Seq<char>>,
    Map<Seq<char>, Seq<char>>,
>
    decreases pairs.len(),
{
    if pairs.len() == 0 {
        Map::empty()
    } else {
        load_store(pairs.drop_last()).insert(
            normalize(pairs.last().0),
            load_scope(pairs.last().1),
        )
    }
}

/// What loading file contents yields: the parsed store, or the empty
/// store when there is no file or the text does not parse.
pub open spec fn loaded_store(contents: Option<Seq<char>>) -> Map<
    Seq<Seq<char>>,
    Map<Seq<char>, Seq<char>>,
> {
    match contents {
        None => Map::empty(),
        Some(s) => match parse_store_file(s) {
            None => Map::empty(),
            Some(pairs) => load_store(pairs),
        },
    }
}

// --- the written form reads back ---

proof fn lemma_esc_append(a: Seq<char>, b: Seq<char>)
    ensures
        esc(a + b) == esc(a) + esc(b),
    decreases b.len(),
{
    if b.len() == 0 {
        assert(a + b =~= a);
        assert(esc(a) + esc(b) =~= esc(a));
    } else {
        assert((a + b).drop_last() =~= a + b.drop_last());
        assert((a + b).last() == b.last());
        lemma_esc_append(a, b.drop_last());
        assert(esc(a + b) =~= esc(a) + esc(b));
    }
}

proof fn lemma_esc_first(s: Seq<char>)
    requires
        s.len() > 0,
    ensures
        esc(s) == esc_char(s[0]) + esc(s.drop_first()),
{
    assert(s =~= seq![s[0]] + s.drop_first());
    lemma_esc_append(seq![s[0]], s.drop_first());
    assert(esc(seq![s[0]]) =~= esc_char(s[0])) by {
        assert(seq![s[0]].drop_last() =~= Seq::<char>::empty());
        assert(esc(seq![s[0]]) == esc(seq![s[0]].drop_last()) + esc_char(s[0]));
        assert(esc(Seq::<char>::empty()) =~= Seq::<char>::empty());
    }
    assert(esc(s) == esc(seq![s[0]] + s.drop_first()));
}

proof fn lemma_parse_chars_back(t: Seq<char>, i: int, s: Seq<char>, j: int)
    requires
        0 <= i,
        j == i + esc(s).len() + 1,
        j <= t.len(),
        t.subrange(i, j) == esc(s) + seq!['"'],
    ensures
        parse_chars(t, i) == Some((s, j)),
    decreases s.len(),
{
    let body = esc(s) + seq!['"'];
    if s.len() == 0 {
        assert(t[i] == body[0]);
        assert(t[i] == '"');
        assert(parse_chars(t, i) == Some((Seq::<char>::empty(), i + 1)));
        assert(s =~= Seq::<char>::empty());
    } else {
        let c = s[0];
        let s2 = s.drop_first();
        lemma_esc_first(s);
        let e = esc_char(c);
        let i2 = i + e.len();
        assert(esc(s) == e + esc(s2));
        assert(t.subrange(i2, j) =~= esc(s2) + seq!['"']) by {
            assert(forall|k: int| #![trigger t.subrange(i2, j)[k]]
                0 <= k < j - i2 ==> t.subrange(i2, j)[k] == body[k + e.len()]);
            assert(forall|k: int| #![trigger (esc(s2) + seq!['"'])[k]]
                0 <= k < j - i2 ==> (esc(s2) + seq!['"'])[k] == body[k + e.len()]);
        }
        lemma_parse_chars_back(t, i2, s2, j);
        assert(t[i] == body[0]);
        assert(t[i] == e[0]);
        if c == '"' || c == '\\' || c == '\n' || c == '\t' || c == '\r' || c == '\u{0008}' || c
            == '\u{000C}' {
            assert(e[0] == '\\');
            assert(t[i + 1] == body[1]);
            assert(t[i + 1] == e[1]);
            assert(e[1] != 'u');
            assert(unesc(e[1]) == Some(c));
            assert(i + 1 < t.len());
            assert(parse_chars(t, i) == Some((seq![c] + s2, j)));
        } else if (c as int) < 0x20 {
            let nc = c as int;
            lemma_char_code_range(c);
            assert(0 <= nc < 0x20);
            reveal(hex_v);
            reveal(hex4);
            assert(e == seq!['\\', 'u', '0', '0', hex_c(nc / 16), hex_c(nc % 16)]);
            assert(t[i + 1] == body[1]);
            assert(t[i + 1] == 'u');
            assert(t[i + 2] == body[2] && body[2] == '0');
            assert(t[i + 3] == body[3] && body[3] == '0');
            assert(t[i + 4] == body[4] && body[4] == hex_c(nc / 16));
            assert(t[i + 5] == body[5] && body[5] == hex_c(nc % 16));
            lemma_hex_v_c(nc / 16);
            lemma_hex_v_c(nc % 16);
            assert(hex_v('0') == 0);
            assert(hex4(t, i + 2) == (nc / 16) * 16 + nc % 16);
            assert(hex4(t, i + 2) == nc);
            assert(i + 6 <= t.len());
            lemma_char_of(c, nc);
            assert(parse_chars(t, i) == Some((seq![c] + s2, j)));
        } else {
            assert(e[0] == c);
            assert(c != '"' && c != '\\');
            assert((t[i] as int) >= 0x20);
            assert(parse_chars(t, i) == Some((seq![c] + s2, j)));
        }
        assert(seq![c] + s2 =~= s);
    }
}

proof fn lemma_parse_string_back(t: Seq<char>, i: int, s: Seq<char>, j: int)
    requires
        0 <= i,
        j == i + json_string(s).len(),
        j <= t.len(),
        t.subrange(i, j) == json_string(s),
    ensures
        parse_string(t, i) == Some((s, j)),
{
    assert(t[i] == json_string(s)[0]);
    assert(t[i] == '"');
    assert(t.subrange(i + 1, j) =~= esc(s) + seq!['"']) by {
        assert(forall|k: int| #![trigger t.subrange(i + 1, j)[k]]
            0 <= k < j - i - 1 ==> t.subrange(i + 1, j)[k] == json_string(s)[k + 1]);
        assert(forall|k: int| #![trigger (esc(s) + seq!['"'])[k]]
            0 <= k < j - i - 1 ==> (esc(s) + seq!['"'])[k] == json_string(s)[k + 1]);
    }
    lemma_parse_chars_back(t, i + 1, s, j);
}

/// The views of a scope's entries, in order.
spec fn entry_views(s: Seq<(String, String)>) -> Seq<(Seq<char>, Seq<char>)> {
    Seq::new(s.len(), |i: int| (s[i].0@, s[i].1@))
}

/// The printed path and entry views of each store entry, in order.
spec fn outer_views(scopes: Seq<(DirPath, Scope)>) -> Seq<
    (Seq<char>, Seq<(Seq<char>, Seq<char>)>),
> {
    Seq::new(scopes.len(), |i: int| (path_str(scopes[i].0@), entry_views(scopes[i].1.entry_seq())))
}

proof fn lemma_scope_body_first(entries: Seq<(String, String)>)
    requires
        entries.len() > 0,
    ensures
        entries.len() == 1 ==> json_scope_body(entries) == json_pair(
            entries[0].0@,
            entries[0].1@,
        ),
        entries.len() > 1 ==> json_scope_body(entries) == json_pair(entries[0].0@, entries[0].1@)
            + seq![','] + json_scope_body(entries.drop_first()),
    decreases entries.len(),
{
    if entries.len() == 2 {
        let dl = entries.drop_last();
        assert(dl.len() == 1);
        assert(dl[0] == entries[0]);
        assert(json_scope_body(dl) == json_pair(dl[0].0@, dl[0].1@));
        assert(entries.drop_first().len() == 1);
        assert(entries.drop_first()[0] == entries[1]);
        assert(json_scope_body(entries.drop_first()) == json_pair(entries[1].0@, entries[1].1@));
        assert(json_scope_body(entries) =~= json_pair(entries[0].0@, entries[0].1@) + seq![',']
            + json_scope_body(entries.drop_first()));
    } else if entries.len() > 2 {
        let dl = entries.drop_last();
        lemma_scope_body_first(dl);
        assert(dl[0] == entries[0]);
        assert(entries.drop_first().drop_last() =~= dl.drop_first());
        assert(entries.drop_first().last() == entries.last());
        assert(json_scope_body(entries.drop_first()) == json_scope_body(
            entries.drop_first().drop_last(),
        ) + seq![','] + json_pair(entries.last().0@, entries.last().1@));
        assert(json_scope_body(entries) =~= json_pair(entries[0].0@, entries[0].1@) + seq![',']
            + json_scope_body(entries.drop_first()));
    }
}

proof fn lemma_store_body_first(scopes: Seq<(DirPath, Scope)>)
    requires
        scopes.len() > 0,
    ensures
        scopes.len() == 1 ==> json_store_body(scopes) == json_pair_obj(scopes[0].0, scopes[0].1),
        scopes.len() > 1 ==> json_store_body(scopes) == json_pair_obj(scopes[0].0, scopes[0].1)
            + seq![','] + json_store_body(scopes.drop_first()),
    decreases scopes.len(),
{
    if scopes.len() == 2 {
        let dl = scopes.drop_last();
        assert(dl.len() == 1);
        assert(dl[0] == scopes[0]);
        assert(json_store_body(dl) == json_pair_obj(dl[0].0, dl[0].1));
        assert(scopes.drop_first().len() == 1);
        assert(scopes.drop_first()[0] == scopes[1]);
        assert(json_store_body(scopes.drop_first()) == json_pair_obj(scopes[1].0, scopes[1].1));
        assert(json_store_body(scopes) =~= json_pair_obj(scopes[0].0, scopes[0].1) + seq![',']
            + json_store_body(scopes.drop_first()));
    } else if scopes.len() > 2 {
        let dl = scopes.drop_last();
        lemma_store_body_first(dl);
        assert(dl[0] == scopes[0]);
        assert(scopes.drop_first().drop_last() =~= dl.drop_first());
        assert(scopes.drop_first().last() == scopes.last());
        assert(json_store_body(scopes.drop_first()) == json_store_body(
            scopes.drop_first().drop_last(),
        ) + seq![','] + json_pair_obj(scopes.last().0, scopes.last().1));
        assert(json_store_body(scopes) =~= json_pair_obj(scopes[0].0, scopes[0].1) + seq![',']
            + json_store_body(scopes.drop_first()));
    }
}

proof fn lemma_scope_body_len(entries: Seq<(String, String)>)
    ensures
        entries.len() > 0 ==> json_scope_body(entries).len() >= 6 * entries.len() - 1,
    decreases entries.len(),
{
    if entries.len() > 1 {
        lemma_scope_body_len(entries.drop_last());
    }
}

proof fn lemma_store_body_len(scopes: Seq<(DirPath, Scope)>, k: int)
    requires
        0 <= k < scopes.len(),
    ensures
        json_store_body(scopes).len() >= scopes.len() + scopes[k].1.entry_seq().len(),
    decreases scopes.len(),
{
    let last = scopes.last();
    lemma_scope_body_len(last.1.entry_seq());
    assert(json_pair_obj(last.0, last.1).len() >= 4 + last.1.entry_seq().len());
    if k < scopes.len() - 1 {
        lemma_store_body_len(scopes.drop_last(), k);
        assert(scopes.drop_last()[k] == scopes[k]);
    } else {
        if scopes.len() > 1 {
            lemma_store_body_len(scopes.drop_last(), 0);
        }
    }
}

proof fn lemma_skip_ws_id(t: Seq<char>, i: int)
    requires
        0 <= i <= t.len(),
        i < t.len() ==> !is_ws(t[i]),
    ensures
        skip_ws(t, i) == i,
{
}

#[verifier::rlimit(100)]
proof fn lemma_parse_inner_pairs_back(
    t: Seq<char>,
    i: int,
    entries: Seq<(String, String)>,
    j: int,
    fuel: nat,
)
    requires
        0 <= i,
        j <= t.len(),
        entries.len() > 0,
        fuel >= entries.len(),
        j == i + json_scope_body(entries).len() + 1,
        t.subrange(i, j) == json_scope_body(entries) + seq!['}'],
    ensures
        parse_inner_pairs(t, i, fuel) == Some((entry_views(entries), j)),
    decreases entries.len(),
{
    let w = json_scope_body(entries) + seq!['}'];
    assert forall|k: int| #![trigger t[k]] i <= k < j implies t[k] == w[k - i] by {
        assert(t.subrange(i, j)[k - i] == w[k - i]);
    }
    let k0 = entries[0].0@;
    let v0 = entries[0].1@;
    let jp = json_pair(k0, v0);
    lemma_scope_body_first(entries);
    let lk = json_string(k0).len() as int;
    let lv = json_string(v0).len() as int;
    // the key literal
    assert(t.subrange(i, i + lk) =~= json_string(k0)) by {
        assert(forall|k: int| #![trigger t.subrange(i, i + lk)[k]]
            0 <= k < lk ==> t.subrange(i, i + lk)[k] == t[i + k]);
        assert(forall|k: int| #![trigger json_string(k0)[k]]
            0 <= k < lk ==> w[k] == json_string(k0)[k]);
    }
    lemma_parse_string_back(t, i, k0, i + lk);
    // the colon
    assert(t[i + lk] == ':') by {
        assert(w[lk] == ':');
    }
    lemma_skip_ws_id(t, i + lk);
    // the value literal
    let iv = i + lk + 1;
    assert(t.subrange(iv, iv + lv) =~= json_string(v0)) by {
        assert(forall|k: int| #![trigger t.subrange(iv, iv + lv)[k]]
            0 <= k < lv ==> t.subrange(iv, iv + lv)[k] == t[iv + k]);
        assert(forall|k: int| #![trigger json_string(v0)[k]]
            0 <= k < lv ==> w[lk + 1 + k] == json_string(v0)[k]);
    }
    assert(t[iv] == '"') by {
        assert(w[lk + 1] == '"');
    }
    lemma_skip_ws_id(t, iv);
    lemma_parse_string_back(t, iv, v0, iv + lv);
    let ie = iv + lv;
    if entries.len() == 1 {
        assert(t[ie] == '}') by {
            assert(w[lk + 1 + lv] == '}');
        }
        lemma_skip_ws_id(t, ie);
        assert(parse_inner_pairs(t, i, fuel) == Some((seq![(k0, v0)], ie + 1)));
        assert(ie + 1 == j);
        assert(entry_views(entries) =~= seq![(k0, v0)]);
    } else {
        let rest = entries.drop_first();
        assert(t[ie] == ',') by {
            assert(w[lk + 1 + lv] == ',');
        }
        lemma_skip_ws_id(t, ie);
        let ir = ie + 1;
        assert(t[ir] == '"') by {
            lemma_scope_body_first(rest);
            assert(w[lk + 1 + lv + 1] == json_scope_body(rest)[0]);
        }
        lemma_skip_ws_id(t, ir);
        assert(t.subrange(ir, j) =~= json_scope_body(rest) + seq!['}']) by {
            assert(forall|k: int| #![trigger t.subrange(ir, j)[k]]
                0 <= k < j - ir ==> t.subrange(ir, j)[k] == t[ir + k]);
            assert(forall|k: int| #![trigger (json_scope_body(rest) + seq!['}'])[k]]
                0 <= k < j - ir ==> w[jp.len() + 1 + k] == (json_scope_body(rest)
                    + seq!['}'])[k]);
        }
        lemma_parse_inner_pairs_back(t, ir, rest, j, (fuel - 1) as nat);
        assert(parse_inner_pairs(t, i, fuel) == Some((seq![(k0, v0)] + entry_views(rest), j)));
        assert(seq![(k0, v0)] + entry_views(rest) =~= entry_views(entries));
    }
}

#[verifier::rlimit(100)]
proof fn lemma_parse_inner_obj_back(
    t: Seq<char>,
    i: int,
    entries: Seq<(String, String)>,
    j: int,
    fuel: nat,
)
    requires
        0 <= i,
        j <= t.len(),
        fuel >= entries.len(),
        j == i + json_scope(entries).len(),
        t.subrange(i, j) == json_scope(entries),
    ensures
        parse_inner_obj(t, i, fuel) == Some((entry_views(entries), j)),
{
    let w = json_scope(entries);
    assert forall|k: int| #![trigger t[k]] i <= k < j implies t[k] == w[k - i] by {
        assert(t.subrange(i, j)[k - i] == w[k - i]);
    }
    assert(t[i] == '{') by {
        assert(w[0] == '{');
    }
    if entries.len() == 0 {
        assert(t[i + 1] == '}') by {
            assert(json_scope_body(entries).len() == 0);
            assert(w[1] == '}');
        }
        lemma_skip_ws_id(t, i + 1);
        assert(entry_views(entries) =~= Seq::<(Seq<char>, Seq<char>)>::empty());
        assert(j == i + 2);
    } else {
        lemma_scope_body_first(entries);
        assert(t[i + 1] == '"') by {
            assert(w[1] == json_scope_body(entries)[0]);
        }
        lemma_skip_ws_id(t, i + 1);
        assert(t.subrange(i + 1, j) =~= json_scope_body(entries) + seq!['}']) by {
            assert(forall|k: int| #![trigger t.subrange(i + 1, j)[k]]
                0 <= k < j - i - 1 ==> t.subrange(i + 1, j)[k] == t[i + 1 + k]);
            assert(forall|k: int| #![trigger (json_scope_body(entries) + seq!['}'])[k]]
                0 <= k < j - i - 1 ==> w[1 + k] == (json_scope_body(entries) + seq!['}'])[k]);
        }
        lemma_parse_inner_pairs_back(t, i + 1, entries, j, fuel);
    }
}

#[verifier::rlimit(100)]
proof fn lemma_parse_outer_pairs_back(
    t: Seq<char>,
    i: int,
    scopes: Seq<(DirPath, Scope)>,
    j: int,
    fuel: nat,
)
    requires
        0 <= i,
        j <= t.len(),
        scopes.len() > 0,
        forall|k: int|
            0 <= k < scopes.len() ==> fuel >= k + 1 + (#[trigger] scopes[k]).1.entry_seq().len(),
        j == i + json_store_body(scopes).len() + 1,
        t.subrange(i, j) == json_store_body(scopes) + seq!['}'],
    ensures
        parse_outer_pairs(t, i, fuel) == Some((outer_views(scopes), j)),
    decreases scopes.len(),
{
    let w = json_store_body(scopes) + seq!['}'];
    assert forall|k: int| #![trigger t[k]] i <= k < j implies t[k] == w[k - i] by {
        assert(t.subrange(i, j)[k - i] == w[k - i]);
    }
    let k0 = path_str(scopes[0].0@);
    let e0 = scopes[0].1.entry_seq();
    let jp = json_pair_obj(scopes[0].0, scopes[0].1);
    lemma_store_body_first(scopes);
    let lk = json_string(k0).len() as int;
    let lv = json_scope(e0).len() as int;
    assert(fuel >= 1 + e0.len());
    // the path literal
    assert(t.subrange(i, i + lk) =~= json_string(k0)) by {
        assert(forall|k: int| #![trigger t.subrange(i, i + lk)[k]]
            0 <= k < lk ==> t.subrange(i, i + lk)[k] == t[i + k]);
        assert(forall|k: int| #![trigger json_string(k0)[k]]
            0 <= k < lk ==> w[k] == json_string(k0)[k]);
    }
    lemma_parse_string_back(t, i, k0, i + lk);
    // the colon
    assert(t[i + lk] == ':') by {
        assert(w[lk] == ':');
    }
    lemma_skip_ws_id(t, i + lk);
    // the scope object
    let iv = i + lk + 1;
    assert(t.subrange(iv, iv + lv) =~= json_scope(e0)) by {
        assert(forall|k: int| #![trigger t.subrange(iv, iv + lv)[k]]
            0 <= k < lv ==> t.subrange(iv, iv + lv)[k] == t[iv + k]);
        assert(forall|k: int| #![trigger json_scope(e0)[k]]
            0 <= k < lv ==> w[lk + 1 + k] == json_scope(e0)[k]);
    }
    assert(t[iv] == '{') by {
        assert(w[lk + 1] == '{');
    }
    lemma_skip_ws_id(t, iv);
    lemma_parse_inner_obj_back(t, iv, e0, iv + lv, fuel);
    let ie = iv + lv;
    if scopes.len() == 1 {
        assert(t[ie] == '}') by {
            assert(w[lk + 1 + lv] == '}');
        }
        lemma_skip_ws_id(t, ie);
        assert(parse_outer_pairs(t, i, fuel) == Some((seq![(k0, entry_views(e0))], ie + 1)));
        assert(ie + 1 == j);
        assert(outer_views(scopes) =~= seq![(k0, entry_views(e0))]);
    } else {
        let rest = scopes.drop_first();
        assert(t[ie] == ',') by {
            assert(w[lk + 1 + lv] == ',');
        }
        lemma_skip_ws_id(t, ie);
        let ir = ie + 1;
        assert(t[ir] == '"') by {
            lemma_store_body_first(rest);
            assert(w[lk + 1 + lv + 1] == json_store_body(rest)[0]);
        }
        lemma_skip_ws_id(t, ir);
        assert(t.subrange(ir, j) =~= json_store_body(rest) + seq!['}']) by {
            assert(forall|k: int| #![trigger t.subrange(ir, j)[k]]
                0 <= k < j - ir ==> t.subrange(ir, j)[k] == t[ir + k]);
            assert(forall|k: int| #![trigger (json_store_body(rest) + seq!['}'])[k]]
                0 <= k < j - ir ==> w[jp.len() + 1 + k] == (json_store_body(rest)
                    + seq!['}'])[k]);
        }
        assert(forall|k: int|
            0 <= k < rest.len() ==> (fuel - 1) >= k + 1 + (#[trigger] rest[k]).1.entry_seq().len())
            by {
            assert(forall|k: int| 0 <= k < rest.len() ==> rest[k] == scopes[k + 1]);
        }
        lemma_parse_outer_pairs_back(t, ir, rest, j, (fuel - 1) as nat);
        assert(parse_outer_pairs(t, i, fuel) == Some(
            (seq![(k0, entry_views(e0))] + outer_views(rest), j),
        ));
        assert(seq![(k0, entry_views(e0))] + outer_views(rest) =~= outer_views(scopes));
    }
}

proof fn lemma_load_scope_views(es: Seq<(String, String)>)
    ensures
        load_scope(entry_views(es)) == crate::store::map_of(es),
    decreases es.len(),
{
    if es.len() > 0 {
        lemma_load_scope_views(es.drop_last());
        assert(entry_views(es).drop_last() =~= entry_views(es.drop_last()));
        assert(entry_views(es).last() == (es.last().0@, es.last().1@));
    } else {
        assert(entry_views(es) =~= Seq::<(Seq<char>, Seq<char>)>::empty());
    }
}

proof fn lemma_load_store_views(scopes: Seq<(DirPath, Scope)>)
    requires
        forall|i: int| 0 <= i < scopes.len() ==> (#[trigger] scopes[i]).0.wf(),
    ensures
        load_store(outer_views(scopes)) == crate::store::map_of(scopes),
    decreases scopes.len(),
{
    if scopes.len() > 0 {
        lemma_load_store_views(scopes.drop_last());
        assert(outer_views(scopes).drop_last() =~= outer_views(scopes.drop_last()));
        assert(outer_views(scopes).last() == (
            path_str(scopes.last().0@),
            entry_views(scopes.last().1.entry_seq()),
        ));
        crate::path::lemma_path_round_trip(scopes.last().0@);
        lemma_load_scope_views(scopes.last().1.entry_seq());
    } else {
        assert(outer_views(scopes) =~= Seq::<
            (Seq<char>, Seq<(Seq<char>, Seq<char>)>),
        >::empty());
    }
}

/// Save then load is the identity: the document written for a well
/// formed store reads back as exactly that store.
#[verifier::rlimit(100)]
pub proof fn lemma_store_round_trip(st: &Store)
    requires
        st.wf(),
    ensures
        loaded_store(Some(json_store(st.scope_seq()))) == st@,
{
    let scopes = st.scope_seq();
    let t = json_store(scopes);
    let jp = json_string("projector"@);
    let body = json_store_body(scopes);
    let head = seq!['{'] + jp + seq![':'] + seq!['{'];
    let w_all = head + body + seq!['}'] + seq!['}'];
    assert(t =~= w_all);
    let lk = jp.len() as int;
    assert(t[0] == '{') by {
        assert(w_all[0] == '{');
    }
    lemma_skip_ws_id(t, 0);
    assert(t[1] == '"') by {
        assert(w_all[1] == '"');
    }
    lemma_skip_ws_id(t, 1);
    assert(t.subrange(1, 1 + lk) =~= jp) by {
        assert(forall|k: int| #![trigger t.subrange(1, 1 + lk)[k]]
            0 <= k < lk ==> t.subrange(1, 1 + lk)[k] == t[1 + k]);
        assert(forall|k: int| #![trigger jp[k]] 0 <= k < lk ==> w_all[1 + k] == jp[k]);
        assert(forall|k: int| #![trigger w_all[k]] 0 <= k < w_all.len() ==> t[k] == w_all[k]);
    }
    lemma_parse_string_back(t, 1, "projector"@, 1 + lk);
    assert(t[1 + lk] == ':') by {
        assert(w_all[1 + lk] == ':');
    }
    lemma_skip_ws_id(t, 1 + lk);
    let io = 2 + lk;
    assert(t[io] == '{') by {
        assert(w_all[2 + lk] == '{');
    }
    lemma_skip_ws_id(t, io);
    let jo = io + 2 + body.len() as int;
    // the store object
    if scopes.len() == 0 {
        assert(body =~= Seq::<char>::empty());
        assert(t[io + 1] == '}') by {
            assert(w_all[3 + lk] == '}');
        }
        lemma_skip_ws_id(t, io + 1);
        assert(parse_outer_obj(t, io, t.len() as nat) == Some(
            (Seq::<(Seq<char>, Seq<(Seq<char>, Seq<char>)>)>::empty(), io + 2),
        ));
        assert(outer_views(scopes) =~= Seq::<
            (Seq<char>, Seq<(Seq<char>, Seq<char>)>),
        >::empty());
    } else {
        lemma_store_body_first(scopes);
        assert(t[io + 1] == '"') by {
            assert(w_all[3 + lk] == body[0]);
            assert(body[0] == '"');
        }
        lemma_skip_ws_id(t, io + 1);
        assert(t.subrange(io + 1, jo) =~= body + seq!['}']) by {
            assert(forall|k: int| #![trigger t.subrange(io + 1, jo)[k]]
                0 <= k < body.len() + 1 ==> t.subrange(io + 1, jo)[k] == t[io + 1 + k]);
            assert(forall|k: int| #![trigger (body + seq!['}'])[k]]
                0 <= k < body.len() + 1 ==> w_all[3 + lk + k] == (body + seq!['}'])[k]);
            assert(forall|k: int| #![trigger w_all[k]]
                0 <= k < w_all.len() ==> t[k] == w_all[k]);
        }
        assert forall|k: int| 0 <= k < scopes.len() implies t.len() >= k + 1 + (
        #[trigger] scopes[k]).1.entry_seq().len() by {
            lemma_store_body_len(scopes, k);
        }
        lemma_parse_outer_pairs_back(t, io + 1, scopes, jo, t.len() as nat);
        assert(parse_outer_obj(t, io, t.len() as nat) == Some((outer_views(scopes), jo)));
    }
    // the closing brace and the end of the text
    let close: int = if scopes.len() == 0 { io + 2 } else { jo };
    assert(close == t.len() - 1);
    assert(t[close] == '}') by {
        assert(w_all[w_all.len() - 1] == '}');
    }
    lemma_skip_ws_id(t, close);
    assert(skip_ws(t, t.len() as int) == t.len());
    assert(parse_store_file(t) == Some(outer_views(scopes)));
    lemma_load_store_views(scopes);
}

// --- the reader ---

fn skip_ws_x(s: &str, i: usize) -> (r: usize)
    requires
        i <= s@.len(),
    ensures
        r == skip_ws(s@, i as int),
        i <= r <= s@.len(),
    decreases s@.len() - i,
{
    let n = s.unicode_len();
    if i < n {
        let c = s.get_char(i);
        if c == ' ' || c == '\n' || c == '\t' || c == '\r' {
            return skip_ws_x(s, i + 1);
        }
    }
    i
}

/// The value of a hex digit character, either case.
fn hex_v_x(c: char) -> (r: Option<u8>)
    ensures
        match r {
            Some(v) => hex_v(c) == v as int && v < 16,
            None => hex_v(c) < 0,
        },
{
    proof {
        reveal(hex_v);
    }
    let n = c as u32;
    if n >= 48 && n <= 57 {
        Some((n - 48) as u8)
    } else if n >= 97 && n <= 102 {
        Some((n - 97 + 10) as u8)
    } else if n >= 65 && n <= 70 {
        Some((n - 65 + 10) as u8)
    } else {
        None
    }
}

/// The value of four hex digits starting at `j`.
fn hex4_x(s: &str, j: usize) -> (r: Option<u32>)
    requires
        j + 4 <= s@.len(),
    ensures
        match r {
            Some(v) => hex4(s@, j as int) == v as int && v < 0x10000,
            None => hex4(s@, j as int) < 0,
        },
{
    proof {
        reveal(hex4);
    }
    let n = s.unicode_len();
    let a = match hex_v_x(s.get_char(j)) {
        None => {
            return None;
        },
        Some(v) => v,
    };
    let b = match hex_v_x(s.get_char(j + 1)) {
        None => {
            return None;
        },
        Some(v) => v,
    };
    let c = match hex_v_x(s.get_char(j + 2)) {
        None => {
            return None;
        },
        Some(v) => v,
    };
    let d = match hex_v_x(s.get_char(j + 3)) {
        None => {
            return None;
        },
        Some(v) => v,
    };
    Some(((a as u32 * 16 + b as u32) * 16 + c as u32) * 16 + d as u32)
}

fn unesc_x(c: char) -> (r: Option<char>)
    ensures
        r == unesc(c),
{
    if c == '"' {
        Some('"')
    } else if c == '\\' {
        Some('\\')
    } else if c == '/' {
        Some('/')
    } else if c == 'n' {
        Some('\n')
    } else if c == 't' {
        Some('\t')
    } else if c == 'r' {
        Some('\r')
    } else if c == 'b' {
        Some('\u{0008}')
    } else if c == 'f' {
        Some('\u{000C}')
    } else {
        None
    }
}

fn parse_chars_x(s: &str, i: usize) -> (r: Option<(String, usize)>)
    requires
        i <= s@.len(),
    ensures
        match r {
            Some(t) => parse_chars(s@, i as int) == Some((t.0@, t.1 as int)) && i < t.1
                <= s@.len(),
            None => parse_chars(s@, i as int) is None,
        },
    decreases s@.len() - i,
{
    let n = s.unicode_len();
    if i >= n {
        return None;
    }
    let c = s.get_char(i);
    if c == '"' {
        return Some((String::new(), i + 1));
    }
    if c == '\\' {
        if i + 1 >= n {
            return None;
        }
        let e = s.get_char(i + 1);
        if e == 'u' {
            if n - i < 6 {
                return None;
            }
            let d = match hex4_x(s, i + 2) {
                None => {
                    return None;
                },
                Some(v) => v,
            };
            if 0xD800 <= d && d < 0xDC00 {
                if n - i < 12 {
                    return None;
                }
                if s.get_char(i + 6) != '\\' || s.get_char(i + 7) != 'u' {
                    return None;
                }
                let d2 = match hex4_x(s, i + 8) {
                    None => {
                        return None;
                    },
                    Some(v) => v,
                };
                if !(0xDC00 <= d2 && d2 < 0xE000) {
                    return None;
                }
                let code = 0x10000 + (d - 0xD800) * 0x400 + (d2 - 0xDC00);
                match char_from_u32(code) {
                    None => {
                        proof {
                            assert(is_scalar_value(code as int));
                        }
                        None
                    },
                    Some(u) => {
                        proof {
                            lemma_char_of(u, code as int);
                        }
                        match parse_chars_x(s, i + 12) {
                            None => None,
                            Some(rest) => {
                                let mut t = String::new();
                                push_char(&mut t, u);
                                let t2 = t.concat(rest.0.as_str());
                                proof {
                                    assert(t2@ =~= seq![u] + rest.0@);
                                }
                                Some((t2, rest.1))
                            },
                        }
                    },
                }
            } else if 0xDC00 <= d && d < 0xE000 {
                None
            } else {
                match char_from_u32(d) {
                    None => {
                        proof {
                            assert(is_scalar_value(d as int));
                        }
                        None
                    },
                    Some(u) => {
                        proof {
                            lemma_char_of(u, d as int);
                        }
                        match parse_chars_x(s, i + 6) {
                            None => None,
                            Some(rest) => {
                                let mut t = String::new();
                                push_char(&mut t, u);
                                let t2 = t.concat(rest.0.as_str());
                                proof {
                                    assert(t2@ =~= seq![u] + rest.0@);
                                }
                                Some((t2, rest.1))
                            },
                        }
                    },
                }
            }
        } else {
            match unesc_x(e) {
                None => None,
                Some(d) => {
                    match parse_chars_x(s, i + 2) {
                        None => None,
                        Some(rest) => {
                            let mut t = String::new();
                            push_char(&mut t, d);
                            let t2 = t.concat(rest.0.as_str());
                            proof {
                                assert(t2@ =~= seq![d] + rest.0@);
                            }
                            Some((t2, rest.1))
                        },
                    }
                },
            }
        }
    } else if (c as u32) < 0x20 {
        None
    } else {
        match parse_chars_x(s, i + 1) {
            None => None,
            Some(rest) => {
                let mut t = String::new();
                push_char(&mut t, c);
                let t2 = t.concat(rest.0.as_str());
                proof {
                    assert(t2@ =~= seq![c] + rest.0@);
                }
                Some((t2, rest.1))
            },
        }
    }
}

fn parse_string_x(s: &str, i: usize) -> (r: Option<(String, usize)>)
    requires
        i <= s@.len(),
    ensures
        match r {
            Some(t) => parse_string(s@, i as int) == Some((t.0@, t.1 as int)) && i < t.1
                <= s@.len(),
            None => parse_string(s@, i as int) is None,
        },
{
    let n = s.unicode_len();
    if i < n && s.get_char(i) == '"' {
        parse_chars_x(s, i + 1)
    } else {
        None
    }
}

fn parse_inner_pairs_x(s: &str, i: usize, fuel: usize) -> (r: Option<
    (Vec<(String, String)>, usize),
>)
    requires
        i <= s@.len(),
    ensures
        match r {
            Some(t) => parse_inner_pairs(s@, i as int, fuel as nat) == Some(
                (t.0.deep_view(), t.1 as int),
            ) && t.1 <= s@.len(),
            None => parse_inner_pairs(s@, i as int, fuel as nat) is None,
        },
    decreases fuel,
{
    if fuel == 0 {
        return None;
    }
    let n = s.unicode_len();
    let (k, i1) = match parse_string_x(s, i) {
        None => {
            return None;
        },
        Some(t) => t,
    };
    let i2 = skip_ws_x(s, i1);
    if i2 >= n {
        return None;
    }
    if s.get_char(i2) != ':' {
        return None;
    }
    let i3 = skip_ws_x(s, i2 + 1);
    let (v, i4) = match parse_string_x(s, i3) {
        None => {
            return None;
        },
        Some(t) => t,
    };
    let i5 = skip_ws_x(s, i4);
    if i5 < n && s.get_char(i5) == ',' {
        let i6 = skip_ws_x(s, i5 + 1);
        match parse_inner_pairs_x(s, i6, fuel - 1) {
            None => None,
            Some(rest) => {
                let ghost restdv = rest.0.deep_view();
                let mut vec = rest.0;
                vec.insert(0, (k, v));
                proof {
                    assert(vec.deep_view() =~= seq![(k@, v@)] + restdv);
                }
                Some((vec, rest.1))
            },
        }
    } else if i5 < n && s.get_char(i5) == '}' {
        let mut vec: Vec<(String, String)> = Vec::new();
        vec.push((k, v));
        proof {
            assert(vec.deep_view() =~= seq![(k@, v@)]);
        }
        Some((vec, i5 + 1))
    } else {
        None
    }
}

fn parse_inner_obj_x(s: &str, i: usize, fuel: usize) -> (r: Option<(Vec<(String, String)>, usize)>)
    requires
        i <= s@.len(),
    ensures
        match r {
            Some(t) => parse_inner_obj(s@, i as int, fuel as nat) == Some(
                (t.0.deep_view(), t.1 as int),
            ) && t.1 <= s@.len(),
            None => parse_inner_obj(s@, i as int, fuel as nat) is None,
        },
{
    let n = s.unicode_len();
    if i < n && s.get_char(i) == '{' {
        let j = skip_ws_x(s, i + 1);
        if j < n && s.get_char(j) == '}' {
            let vec: Vec<(String, String)> = Vec::new();
            proof {
                assert(vec.deep_view() =~= Seq::<(Seq<char>, Seq<char>)>::empty());
            }
            Some((vec, j + 1))
        } else {
            parse_inner_pairs_x(s, j, fuel)
        }
    } else {
        None
    }
}

fn parse_outer_pairs_x(s: &str, i: usize, fuel: usize) -> (r: Option<
    (Vec<(String, Vec<(String, String)>)>, usize),
>)
    requires
        i <= s@.len(),
    ensures
        match r {
            Some(t) => parse_outer_pairs(s@, i as int, fuel as nat) == Some(
                (t.0.deep_view(), t.1 as int),
            ) && t.1 <= s@.len(),
            None => parse_outer_pairs(s@, i as int, fuel as nat) is None,
        },
    decreases fuel,
{
    if fuel == 0 {
        return None;
    }
    let n = s.unicode_len();
    let (k, i1) = match parse_string_x(s, i) {
        None => {
            return None;
        },
        Some(t) => t,
    };
    let i2 = skip_ws_x(s, i1);
    if i2 >= n {
        return None;
    }
    if s.get_char(i2) != ':' {
        return None;
    }
    let i3 = skip_ws_x(s, i2 + 1);
    let (v, i4) = match parse_inner_obj_x(s, i3, fuel) {
        None => {
            return None;
        },
        Some(t) => t,
    };
    let i5 = skip_ws_x(s, i4);
    if i5 < n && s.get_char(i5) == ',' {
        let i6 = skip_ws_x(s, i5 + 1);
        match parse_outer_pairs_x(s, i6, fuel - 1) {
            None => None,
            Some(rest) => {
                let ghost restdv = rest.0.deep_view();
                let mut vec = rest.0;
                vec.insert(0, (k, v));
                proof {
                    assert(vec.deep_view() =~= seq![(k@, v.deep_view())] + restdv);
                }
                Some((vec, rest.1))
            },
        }
    } else if i5 < n && s.get_char(i5) == '}' {
        let mut vec: Vec<(String, Vec<(String, String)>)> = Vec::new();
        vec.push((k, v));
        proof {
            assert(vec.deep_view() =~= seq![(k@, v.deep_view())]);
        }
        Some((vec, i5 + 1))
    } else {
        None
    }
}

fn parse_outer_obj_x(s: &str, i: usize, fuel: usize) -> (r: Option<
    (Vec<(String, Vec<(String, String)>)>, usize),
>)
    requires
        i <= s@.len(),
    ensures
        match r {
            Some(t) => parse_outer_obj(s@, i as int, fuel as nat) == Some(
                (t.0.deep_view(), t.1 as int),
            ) && t.1 <= s@.len(),
            None => parse_outer_obj(s@, i as int, fuel as nat) is None,
        },
{
    let n = s.unicode_len();
    if i < n && s.get_char(i) == '{' {
        let j = skip_ws_x(s, i + 1);
        if j < n && s.get_char(j) == '}' {
            let vec: Vec<(String, Vec<(String, String)>)> = Vec::new();
            proof {
                assert(vec.deep_view() =~= Seq::<
                    (Seq<char>, Seq<(Seq<char>, Seq<char>)>),
                >::empty());
            }
            Some((vec, j + 1))
        } else {
            parse_outer_pairs_x(s, j, fuel)
        }
    } else {
        None
    }
}

fn parse_store_file_x(s: &str) -> (r: Option<Vec<(String, Vec<(String, String)>)>>)
    ensures
        match r {
            Some(t) => parse_store_file(s@) == Some(t.deep_view()),
            None => parse_store_file(s@) is None,
        },
{
    let n = s.unicode_len();
    let i0 = skip_ws_x(s, 0);
    if i0 >= n {
        return None;
    }
    if s.get_char(i0) != '{' {
        return None;
    }
    let i1 = skip_ws_x(s, i0 + 1);
    if i1 < n && s.get_char(i1) == '}' {
        if skip_ws_x(s, i1 + 1) == n {
            let vec: Vec<(String, Vec<(String, String)>)> = Vec::new();
            proof {
                assert(vec.deep_view() =~= Seq::<
                    (Seq<char>, Seq<(Seq<char>, Seq<char>)>),
                >::empty());
            }
            return Some(vec);
        }
        return None;
    }
    let (key, i2) = match parse_string_x(s, i1) {
        None => {
            return None;
        },
        Some(t) => t,
    };
    if !crate::strutil::str_eq(key.as_str(), "projector") {
        return None;
    }
    let i3 = skip_ws_x(s, i2);
    if i3 >= n {
        return None;
    }
    if s.get_char(i3) != ':' {
        return None;
    }
    let i4 = skip_ws_x(s, i3 + 1);
    let (pairs, i5) = match parse_outer_obj_x(s, i4, n) {
        None => {
            return None;
        },
        Some(t) => t,
    };
    let i6 = skip_ws_x(s, i5);
    if i6 >= n {
        return None;
    }
    if s.get_char(i6) != '}' {
        return None;
    }
    if skip_ws_x(s, i6 + 1) == n {
        Some(pairs)
    } else {
        None
    }
}

/// Reads a persisted document; any text that does not parse to the
/// documented shape yields the empty store.
pub fn store_from_json(s: &str) -> (r: Store)
    ensures
        r.wf(),
        r@ == loaded_store(Some(s@)),
{
    let pairs = match parse_store_file_x(s) {
        None => {
            return Store::new();
        },
        Some(p) => p,
    };
    let ghost pdv = pairs.deep_view();
    let mut st = Store::new();
    let mut j: usize = 0;
    proof {
        assert(pdv.take(0) =~= Seq::<(Seq<char>, Seq<(Seq<char>, Seq<char>)>)>::empty());
    }
    while j < pairs.len()
        invariant
            j <= pairs@.len(),
            pdv == pairs.deep_view(),
            st.wf(),
            st@ == load_store(pdv.take(j as int)),
        decreases pairs@.len() - j,
    {
        proof {
            assert(pdv[j as int] == (pairs@[j as int].0@, pairs@[j as int].1.deep_view()));
        }
        let dir = DirPath::parse(pairs[j].0.as_str());
        let mut sc = Scope::new();
        let ghost edv = pairs@[j as int].1.deep_view();
        let m = pairs[j].1.len();
        let mut q: usize = 0;
        proof {
            assert(edv.take(0) =~= Seq::<(Seq<char>, Seq<char>)>::empty());
        }
        while q < m
            invariant
                q <= m,
                j < pairs@.len(),
                m == pairs@[j as int].1@.len(),
                edv == pairs@[j as int].1.deep_view(),
                sc.wf(),
                sc@ == load_scope(edv.take(q as int)),
            decreases m - q,
        {
            proof {
                assert(edv[q as int] == (
                    pairs@[j as int].1@[q as int].0@,
                    pairs@[j as int].1@[q as int].1@,
                ));
            }
            let kk = pairs[j].1[q].0.clone();
            let vv = pairs[j].1[q].1.clone();
            sc.insert(kk, vv);
            proof {
                assert(edv.take(q as int + 1).drop_last() =~= edv.take(q as int));
                assert(edv.take(q as int + 1).last() == edv[q as int]);
            }
            q += 1;
        }
        proof {
            assert(edv.take(m as int) =~= edv);
        }
        st.put_scope(dir, sc);
        proof {
            assert(pdv.take(j as int + 1).drop_last() =~= pdv.take(j as int));
            assert(pdv.take(j as int + 1).last() == pdv[j as int]);
        }
        j += 1;
    }
    proof {
        assert(pdv.take(pairs@.len() as int) =~= pdv);
    }
    st
}

} // verus!
