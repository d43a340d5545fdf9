//! The configuration document format: a single object `{"root": [...]}`
//! whose value is an array of strings.
//!
//! The writer produces the canonical compact form; the reader accepts the
//! document with any amount of whitespace between tokens and with the
//! string escapes the writer can produce (the named escapes, `\/`, and
//! `\u00XX` for control characters). Reading what was written gives back
//! exactly the written roots.

use vstd::prelude::*;

verus! {

/// Whitespace between tokens.
pub open spec fn is_ws_char(c: char) -> bool {
    c == ' ' || c == '\t' || c == '\n' || c == '\r'
}

/// The lower-case hexadecimal digit for `n < 16`.
pub open spec fn hex_digit(n: nat) -> char {
    if n < 10 {
        (('0' as u8) + n as u8) as char
    } else {
        (('a' as u8) + (n - 10) as u8) as char
    }
}

/// How one character is written inside a quoted string: itself, unless it
/// needs an escape.
pub open spec fn json_escape_char(c: char) -> Seq<char> {
    if c == '"' {
        seq!['\\', '"']
    } else if c == '\\' {
        seq!['\\', '\\']
    } else if c == '\u{8}' {
        seq!['\\', 'b']
    } else if c == '\u{c}' {
        seq!['\\', 'f']
    } else if c == '\n' {
        seq!['\\', 'n']
    } else if c == '\r' {
        seq!['\\', 'r']
    } else if c == '\t' {
        seq!['\\', 't']
    } else if (c as u32) < 0x20 {
        seq!['\\', 'u', '0', '0', hex_digit((c as u32 / 16) as nat), hex_digit(
            (c as u32 % 16) as nat,
        )]
    } else {
        seq![c]
    }
}

/// A string's characters, escaped for writing.
pub open spec fn json_escape(s: Seq<char>) -> Seq<char>
    decreases s.len(),
{
    if s.len() == 0 {
        Seq::empty()
    } else {
        json_escape(s.drop_last()) + json_escape_char(s.last())
    }
}

/// A quoted, escaped string.
pub open spec fn json_string(s: Seq<char>) -> Seq<char> {
    seq!['"'] + json_escape(s) + seq!['"']
}

/// Array items: the quoted strings separated by commas.
pub open spec fn json_items(items: Seq<Seq<char>>) -> Seq<char>
    decreases items.len(),
{
    if items.len() == 0 {
        Seq::empty()
    } else if items.len() == 1 {
        json_string(items[0])
    } else {
        json_items(items.drop_last()) + seq![','] + json_string(items.last())
    }
}

/// The canonical document for a sequence of roots:
/// `{"root":["...","..."]}` with no whitespace.
pub open spec fn config_json(roots: Seq<Seq<char>>) -> Seq<char> {
    seq!['{', '"', 'r', 'o', 'o', 't', '"', ':', '['] + json_items(roots) + seq![']', '}']
}

/// The character a control escape `\u00XX` with value `n` stands for.
pub open spec fn ctrl_char(n: nat) -> char {
    (n as u32) as char
}

/// The character a one-letter escape stands for, when the letter is one of
/// the accepted escapes.
pub open spec fn simple_unescape(c: char) -> Option<char> {
    if c == '"' {
        Option::Some('"')
    } else if c == '\\' {
        Option::Some('\\')
    } else if c == '/' {
        Option::Some('/')
    } else if c == 'b' {
        Option::Some('\u{8}')
    } else if c == 'f' {
        Option::Some('\u{c}')
    } else if c == 'n' {
        Option::Some('\n')
    } else if c == 'r' {
        Option::Some('\r')
    } else if c == 't' {
        Option::Some('\t')
    } else {
        Option::None
    }
}

/// The value of a hexadecimal digit character, upper or lower case.
pub open spec fn hex_val(c: char) -> Option<nat> {
    let v = c as u32;
    if ('0' as u32) <= v <= ('9' as u32) {
        Option::Some((v - ('0' as u32)) as nat)
    } else if ('a' as u32) <= v <= ('f' as u32) {
        Option::Some((v - ('a' as u32) + 10) as nat)
    } else if ('A' as u32) <= v <= ('F' as u32) {
        Option::Some((v - ('A' as u32) + 10) as nat)
    } else {
        Option::None
    }
}

/// The first position at or after `i` that does not hold whitespace.
pub open spec fn sp_ws(s: Seq<char>, i: int) -> int
    decreases s.len() - i,
    when 0 <= i <= s.len()
{
    if i < s.len() && is_ws_char(s[i]) {
        sp_ws(s, i + 1)
    } else {
        i
    }
}

/// `sp_ws` stays within the text.
pub proof fn lemma_sp_ws_bounds(s: Seq<char>, i: int)
    requires
        0 <= i <= s.len(),
    ensures
        i <= sp_ws(s, i) <= s.len(),
    decreases s.len() - i,
{
    if i < s.len() && is_ws_char(s[i]) {
        lemma_sp_ws_bounds(s, i + 1);
    }
}

/// Reading a quoted string's body from position `i` (just after the opening
/// quote): the decoded characters and the position just after the closing
/// quote, or nothing when the text up to the closing quote is not a valid
/// string body.
pub open spec fn sp_string_body(s: Seq<char>, i: int) -> Option<(Seq<char>, int)>
    decreases s.len() - i,
    when 0 <= i <= s.len()
{
    if i >= s.len() {
        Option::None
    } else if s[i] == '"' {
        Option::Some((Seq::empty(), i + 1))
    } else if s[i] == '\\' {
        if i + 1 < s.len() && simple_unescape(s[i + 1]) is Some {
            match sp_string_body(s, i + 2) {
                Option::None => Option::None,
                Option::Some((t, j)) => Option::Some((seq![simple_unescape(s[i + 1])->0] + t, j)),
            }
        } else if i + 5 < s.len() && s[i + 1] == 'u' && s[i + 2] == '0' && s[i + 3] == '0' && hex_val(
            s[i + 4],
        ) is Some && hex_val(s[i + 5]) is Some && hex_val(s[i + 4])->0 * 16 + hex_val(s[i + 5])->0
            < 0x20 {
            match sp_string_body(s, i + 6) {
                Option::None => Option::None,
                Option::Some((t, j)) => Option::Some(
                    (seq![ctrl_char(hex_val(s[i + 4])->0 * 16 + hex_val(s[i + 5])->0)] + t, j),
                ),
            }
        } else {
            Option::None
        }
    } else if (s[i] as u32) < 0x20 {
        Option::None
    } else {
        match sp_string_body(s, i + 1) {
            Option::None => Option::None,
            Option::Some((t, j)) => Option::Some((seq![s[i]] + t, j)),
        }
    }
}

/// A successfully read string body ends within the text, past where it
/// began.
pub proof fn lemma_sp_string_body_bounds(s: Seq<char>, i: int)
    requires
        0 <= i <= s.len(),
    ensures
        sp_string_body(s, i) matches Some(p) ==> i < p.1 <= s.len(),
    decreases s.len() - i,
{
    if i < s.len() {
        if s[i] == '\\' {
            if i + 1 < s.len() && simple_unescape(s[i + 1]) is Some {
                lemma_sp_string_body_bounds(s, i + 2);
            } else if i + 5 < s.len() && s[i + 1] == 'u' && s[i + 2] == '0' && s[i + 3] == '0'
                && hex_val(s[i + 4]) is Some && hex_val(s[i + 5]) is Some && hex_val(s[i + 4])->0
                * 16 + hex_val(s[i + 5])->0 < 0x20 {
                lemma_sp_string_body_bounds(s, i + 6);
            }
        } else if s[i] != '"' && (s[i] as u32) >= 0x20 {
            lemma_sp_string_body_bounds(s, i + 1);
        }
    }
}

/// Reading the items of a non-empty array from position `i` (at the opening
/// quote of the first item): the decoded strings and the position just
/// after the closing bracket.
pub open spec fn sp_items(s: Seq<char>, i: int) -> Option<(Seq<Seq<char>>, int)>
    decreases s.len() - i,
    when 0 <= i <= s.len()
{
    if i >= s.len() || s[i] != '"' {
        Option::None
    } else {
        match sp_string_body(s, i + 1) {
            Option::None => Option::None,
            Option::Some((t, j)) => {
                proof {
                    lemma_sp_string_body_bounds(s, i + 1);
                    lemma_sp_ws_bounds(s, j);
                }
                {
                    let k = sp_ws(s, j);
                    if k < s.len() && s[k] == ']' {
                        Option::Some((seq![t], k + 1))
                    } else if k < s.len() && s[k] == ',' {
                        proof {
                            lemma_sp_ws_bounds(s, k + 1);
                        }
                        {
                            let m = sp_ws(s, k + 1);
                            match sp_items(s, m) {
                                Option::None => Option::None,
                                Option::Some((rest, e)) => Option::Some((seq![t] + rest, e)),
                            }
                        }
                    } else {
                        Option::None
                    }
                }
            },
        }
    }
}

/// Reading an array from position `i` (at the opening bracket): the decoded
/// strings and the position just after the closing bracket.
pub open spec fn sp_array(s: Seq<char>, i: int) -> Option<(Seq<Seq<char>>, int)> {
    if 0 <= i && i < s.len() && s[i] == '[' {
        let j = sp_ws(s, i + 1);
        if j < s.len() && s[j] == ']' {
            Option::Some((Seq::empty(), j + 1))
        } else {
            sp_items(s, j)
        }
    } else {
        Option::None
    }
}

/// Reading a whole configuration document: whitespace, `{`, the key
/// `"root"`, `:`, an array of strings, `}`, whitespace, end of text.
pub open spec fn parse_config_spec(s: Seq<char>) -> Option<Seq<Seq<char>>> {
    let i = sp_ws(s, 0);
    if i < s.len() && s[i] == '{' {
        let j = sp_ws(s, i + 1);
        if j < s.len() && s[j] == '"' {
            match sp_string_body(s, j + 1) {
                Option::None => Option::None,
                Option::Some((key, k)) => {
                    if key == seq!['r', 'o', 'o', 't'] {
                        let m = sp_ws(s, k);
                        if m < s.len() && s[m] == ':' {
                            let a = sp_ws(s, m + 1);
                            match sp_array(s, a) {
                                Option::None => Option::None,
                                Option::Some((items, e)) => {
                                    let f = sp_ws(s, e);
                                    if f < s.len() && s[f] == '}' {
                                        if sp_ws(s, f + 1) == s.len() {
                                            Option::Some(items)
                                        } else {
                                            Option::None
                                        }
                                    } else {
                                        Option::None
                                    }
                                },
                            }
                        } else {
                            Option::None
                        }
                    } else {
                        Option::None
                    }
                },
            }
        } else {
            Option::None
        }
    } else {
        Option::None
    }
}

/// The lower-case hexadecimal digit string for `d < 16`.
fn hex_digit_str(d: u32) -> (r: &'static str)
    requires
        d < 16,
    ensures
        r@ == seq![hex_digit(d as nat)],
{
    proof {
        reveal_strlit("0");
        reveal_strlit("1");
        reveal_strlit("2");
        reveal_strlit("3");
        reveal_strlit("4");
        reveal_strlit("5");
        reveal_strlit("6");
        reveal_strlit("7");
        reveal_strlit("8");
        reveal_strlit("9");
        reveal_strlit("a");
        reveal_strlit("b");
        reveal_strlit("c");
        reveal_strlit("d");
        reveal_strlit("e");
        reveal_strlit("f");
    }
    let r = if d == 0 {
        "0"
    } else if d == 1 {
        "1"
    } else if d == 2 {
        "2"
    } else if d == 3 {
        "3"
    } else if d == 4 {
        "4"
    } else if d == 5 {
        "5"
    } else if d == 6 {
        "6"
    } else if d == 7 {
        "7"
    } else if d == 8 {
        "8"
    } else if d == 9 {
        "9"
    } else if d == 10 {
        "a"
    } else if d == 11 {
        "b"
    } else if d == 12 {
        "c"
    } else if d == 13 {
        "d"
    } else if d == 14 {
        "e"
    } else {
        "f"
    };
    proof {
        assert(r@ =~= seq![hex_digit(d as nat)]);
    }
    r
}

/// A character of a piece of text embedded in `s` at offset `i`.
proof fn lemma_embed_index(s: Seq<char>, i: int, x: Seq<char>, p: int)
    requires
        0 <= i,
        i + x.len() <= s.len(),
        s.subrange(i, i + x.len() as int) == x,
        0 <= p < x.len(),
    ensures
        s[i + p] == x[p],
{
    assert(x[p] == s.subrange(i, i + x.len() as int)[p]);
}

/// A sub-piece of a piece of text embedded in `s` at offset `i`.
proof fn lemma_embed_sub(s: Seq<char>, i: int, x: Seq<char>, a: int, b: int)
    requires
        0 <= i,
        i + x.len() <= s.len(),
        s.subrange(i, i + x.len() as int) == x,
        0 <= a <= b <= x.len(),
    ensures
        s.subrange(i + a, i + b) == x.subrange(a, b),
{
    assert forall|p: int| 0 <= p < b - a implies s.subrange(i + a, i + b)[p] == x.subrange(a, b)[p] by {
        assert(s.subrange(i + a, i + b)[p] == s[i + a + p]);
        lemma_embed_index(s, i, x, a + p);
        assert(x.subrange(a, b)[p] == x[a + p]);
    }
    assert(s.subrange(i + a, i + b) =~= x.subrange(a, b));
}

/// `json_escape` can also be decomposed from the front.
proof fn lemma_escape_first(s: Seq<char>)
    requires
        s.len() > 0,
    ensures
        json_escape(s) == json_escape_char(s[0]) + json_escape(s.drop_first()),
    decreases s.len(),
{
    if s.len() == 1 {
        assert(s.drop_last() =~= Seq::<char>::empty());
        assert(s.drop_first() =~= Seq::<char>::empty());
        assert(json_escape(s) =~= json_escape_char(s[0]) + json_escape(s.drop_first()));
    } else {
        let dl = s.drop_last();
        lemma_escape_first(dl);
        assert(s.drop_first().drop_last() =~= dl.drop_first());
        assert(s.drop_first().last() == s.last());
        assert(json_escape(s) =~= json_escape_char(s[0]) + json_escape(s.drop_first()));
    }
}

/// Escaping a text of characters that need no escape leaves it unchanged.
proof fn lemma_escape_plain(t: Seq<char>)
    requires
        forall|p: int| 0 <= p < t.len() ==> json_escape_char(#[trigger] t[p]) == seq![t[p]],
    ensures
        json_escape(t) == t,
    decreases t.len(),
{
    if t.len() > 0 {
        lemma_escape_plain(t.drop_last());
        assert(json_escape_char(t.last()) == seq![t.last()]);
        assert(json_escape(t) =~= t);
    } else {
        assert(json_escape(t) =~= t);
    }
}

/// `json_items` can also be decomposed from the front.
proof fn lemma_items_first(items: Seq<Seq<char>>)
    requires
        items.len() >= 2,
    ensures
        json_items(items) == json_string(items[0]) + seq![','] + json_items(items.drop_first()),
    decreases items.len(),
{
    if items.len() == 2 {
        assert(items.drop_first() =~= seq![items[1]]);
        assert(items.drop_last() =~= seq![items[0]]);
        assert(json_items(seq![items[0]]) == json_string(items[0]));
        assert(json_items(seq![items[1]]) == json_string(items[1]));
        assert(json_items(items) =~= json_string(items[0]) + seq![','] + json_items(
            items.drop_first(),
        ));
    } else {
        let dl = items.drop_last();
        lemma_items_first(dl);
        assert(items.drop_first().drop_last() =~= dl.drop_first());
        assert(items.drop_first().last() == items.last());
        assert(items.drop_first().len() >= 2);
        assert(json_items(items) =~= json_string(items[0]) + seq![','] + json_items(
            items.drop_first(),
        ));
    }
}

/// Written items start with the first item's opening quote.
proof fn lemma_items_starts_quote(items: Seq<Seq<char>>)
    requires
        items.len() >= 1,
    ensures
        json_items(items).len() >= 1,
        json_items(items)[0] == '"',
{
    let first = json_string(items[0]);
    assert(first[0] == '"');
    if items.len() == 1 {
        assert(json_items(items) == first);
    } else {
        lemma_items_first(items);
        assert(json_items(items)[0] == first[0]);
    }
}

/// Reading a written string body back: at a position where the text holds
/// the escaped form of `t` followed by the closing quote, the reader
/// decodes exactly `t` and stops just past the quote.
#[verifier::rlimit(60)]
proof fn lemma_string_body_rt(s: Seq<char>, t: Seq<char>, i: int)
    requires
        0 <= i,
        i + json_escape(t).len() + 1 <= s.len(),
        s.subrange(i, i + json_escape(t).len() as int) == json_escape(t),
        s[i + json_escape(t).len()] == '"',
    ensures
        sp_string_body(s, i) == Some((t, i + json_escape(t).len() + 1)),
    decreases t.len(),
{
    let esc = json_escape(t);
    if t.len() == 0 {
        assert(esc =~= Seq::<char>::empty());
        assert(s[i] == '"');
    } else {
        let c = t[0];
        let e0 = json_escape_char(c);
        lemma_escape_first(t);
        let rest = json_escape(t.drop_first());
        assert(esc == e0 + rest);
        assert(esc.len() == e0.len() + rest.len());
        assert forall|p: int| 0 <= p < e0.len() implies s[i + p] == e0[p] by {
            lemma_embed_index(s, i, esc, p);
            assert(esc[p] == e0[p]);
        }
        let e0l = e0.len() as int;
        let i2 = i + e0l;
        lemma_embed_sub(s, i, esc, e0l, esc.len() as int);
        assert(esc.subrange(e0l, esc.len() as int) =~= rest);
        assert(s.subrange(i2, i2 + rest.len() as int) == rest);
        assert(s[i2 + rest.len()] == '"');
        lemma_string_body_rt(s, t.drop_first(), i2);
        assert(seq![c] + t.drop_first() =~= t);
        if c == '"' || c == '\\' || c == '\u{8}' || c == '\u{c}' || c == '\n' || c == '\r' || c
            == '\t' {
            assert(e0.len() == 2);
            assert(s[i] == '\\');
            assert(s[i + 1] == e0[1]);
            assert(simple_unescape(s[i + 1]) == Some(c));
        } else if (c as u32) < 0x20 {
            assert(e0.len() == 6);
            assert(s[i] == '\\' && s[i + 1] == 'u' && s[i + 2] == '0' && s[i + 3] == '0');
            let v = c as u32;
            assert(s[i + 4] == hex_digit((v / 16) as nat));
            assert(s[i + 5] == hex_digit((v % 16) as nat));
            assert(hex_val(s[i + 4]) == Some((v / 16) as nat));
            assert(hex_val(s[i + 5]) == Some((v % 16) as nat));
            assert(hex_val(s[i + 4])->0 * 16 + hex_val(s[i + 5])->0 == v);
            vstd::utf8::char_u32_cast(c, v);
            assert(ctrl_char(v as nat) == c);
            assert(simple_unescape('u') is None);
        } else {
            assert(e0 =~= seq![c]);
            assert(s[i] == c);
            assert(s[i] != '"' && s[i] != '\\' && (s[i] as u32) >= 0x20);
        }
    }
}

/// Reading written array items back: at a position where the text holds
/// the written items of `items` followed by the closing bracket, the reader
/// decodes exactly `items` and stops just past the bracket.
#[verifier::rlimit(60)]
proof fn lemma_items_rt(s: Seq<char>, items: Seq<Seq<char>>, i: int)
    requires
        items.len() >= 1,
        0 <= i,
        i + json_items(items).len() + 1 <= s.len(),
        s.subrange(i, i + json_items(items).len() as int) == json_items(items),
        s[i + json_items(items).len()] == ']',
    ensures
        sp_items(s, i) == Some((items, i + json_items(items).len() + 1)),
    decreases items.len(),
{
    let body = json_items(items);
    let bl = body.len() as int;
    let first = json_string(items[0]);
    let esc = json_escape(items[0]);
    let escl = esc.len() as int;
    assert(first =~= seq!['"'] + esc + seq!['"']);
    assert(first.len() == escl + 2);
    assert(first[0] == '"');
    assert(first[escl + 1] == '"');
    assert(forall|p: int| 0 <= p < escl ==> #[trigger] first[1 + p] == esc[p]);
    if items.len() == 1 {
        assert(body == first);
        lemma_embed_index(s, i, body, 0);
        assert(s[i] == '"');
        lemma_embed_sub(s, i, body, 1, 1 + escl);
        assert(body.subrange(1, 1 + escl) =~= esc);
        lemma_embed_index(s, i, body, 1 + escl);
        assert(s[i + 1 + escl] == '"');
        lemma_string_body_rt(s, items[0], i + 1);
        let j = i + 1 + escl + 1;
        assert(j == i + bl);
        assert(!is_ws_char(s[j]));
        assert(sp_ws(s, j) == j);
        assert(s[j] == ']');
        assert(seq![items[0]] =~= items);
        assert(sp_items(s, i) == Some((items, i + bl + 1)));
    } else {
        lemma_items_first(items);
        let rest_items = items.drop_first();
        let rest = json_items(rest_items);
        let fl = first.len() as int;
        assert(body == first + seq![','] + rest);
        assert(bl == fl + 1 + rest.len());
        assert(forall|p: int| 0 <= p < fl ==> #[trigger] body[p] == first[p]);
        assert(body[fl] == ',');
        assert(forall|p: int| 0 <= p < rest.len() ==> #[trigger] body[fl + 1 + p] == rest[p]);
        lemma_embed_index(s, i, body, 0);
        assert(s[i] == '"');
        lemma_embed_sub(s, i, body, 1, 1 + escl);
        assert(body.subrange(1, 1 + escl) =~= esc);
        lemma_embed_index(s, i, body, 1 + escl);
        assert(s[i + 1 + escl] == '"');
        lemma_string_body_rt(s, items[0], i + 1);
        let j = i + fl;
        lemma_embed_index(s, i, body, fl);
        assert(s[j] == ',');
        assert(!is_ws_char(s[j]));
        assert(sp_ws(s, j) == j);
        let m = j + 1;
        lemma_items_starts_quote(rest_items);
        lemma_embed_index(s, i, body, fl + 1);
        assert(s[m] == rest[0]);
        assert(s[m] == '"');
        assert(!is_ws_char(s[m]));
        assert(sp_ws(s, m) == m);
        lemma_embed_sub(s, i, body, fl + 1, bl);
        assert(body.subrange(fl + 1, bl) =~= rest);
        assert(s.subrange(m, m + rest.len() as int) == rest);
        assert(m + rest.len() == i + bl);
        assert(s[m + rest.len()] == ']');
        lemma_items_rt(s, rest_items, m);
        assert(seq![items[0]] + rest_items =~= items);
        assert(sp_items(s, i) == Some((items, i + bl + 1)));
    }
}

/// Reading a written document back gives exactly the written roots.
pub proof fn lemma_config_round_trip(roots: Seq<Seq<char>>)
    ensures
        parse_config_spec(config_json(roots)) == Some(roots),
{
    let s = config_json(roots);
    let body = json_items(roots);
    let bl = body.len() as int;
    let head = seq!['{', '"', 'r', 'o', 'o', 't', '"', ':', '['];
    assert(s == head + body + seq![']', '}']);
    assert(s.len() == 11 + bl);
    assert(forall|p: int| 0 <= p < 9 ==> #[trigger] s[p] == head[p]);
    assert(forall|p: int| 0 <= p < bl ==> #[trigger] s[9 + p] == body[p]);
    assert(s[9 + bl] == ']' && s[10 + bl] == '}');
    assert(s[0] == '{');
    assert(sp_ws(s, 0) == 0);
    assert(s[1] == '"');
    assert(sp_ws(s, 1) == 1);
    // the key "root" is four raw characters followed by its closing quote
    let key = seq!['r', 'o', 'o', 't'];
    assert(json_escape_char('r') =~= seq!['r']);
    assert(json_escape_char('o') =~= seq!['o']);
    assert(json_escape_char('t') =~= seq!['t']);
    lemma_escape_plain(key);
    assert(s.subrange(2, 6) =~= key);
    assert(s[6] == '"');
    lemma_string_body_rt(s, key, 2);
    assert(sp_string_body(s, 2) == Some((key, 7int)));
    assert(s[7] == ':');
    assert(sp_ws(s, 7) == 7);
    assert(s[8] == '[');
    assert(sp_ws(s, 8) == 8);
    if roots.len() == 0 {
        assert(body =~= Seq::<char>::empty());
        assert(s[9] == ']');
        assert(sp_ws(s, 9) == 9);
        assert(sp_array(s, 8) == Some((Seq::<Seq<char>>::empty(), 10int)));
        assert(s[10] == '}');
        assert(sp_ws(s, 10) == 10);
        assert(sp_ws(s, 11) == 11);
        assert(s.len() == 11);
        assert(parse_config_spec(s) == Some(roots));
    } else {
        lemma_items_starts_quote(roots);
        assert(s[9] == '"');
        assert(sp_ws(s, 9) == 9);
        assert(s.subrange(9, 9 + bl) =~= body);
        assert(s[9 + bl] == ']');
        lemma_items_rt(s, roots, 9);
        assert(sp_array(s, 8) == Some((roots, 9 + bl + 1)));
        let f: int = 10 + bl;
        assert(s[f] == '}');
        assert(sp_ws(s, f) == f);
        assert(sp_ws(s, f + 1) == f + 1);
        assert(s.len() == f + 1);
        assert(parse_config_spec(s) == Some(roots));
    }
}

/// The one-character string a one-letter escape stands for, when the letter
/// is one of the accepted escapes.
fn simple_unescape_str(c: char) -> (r: Option<&'static str>)
    ensures
        match r {
            Option::Some(u) => simple_unescape(c) matches Some(d) && u@ == seq![d],
            Option::None => simple_unescape(c) is None,
        },
{
    proof {
        reveal_strlit("\"");
        reveal_strlit("\\");
        reveal_strlit("/");
        reveal_strlit("\u{8}");
        reveal_strlit("\u{c}");
        reveal_strlit("\n");
        reveal_strlit("\r");
        reveal_strlit("\t");
    }
    if c == '"' {
        Some("\"")
    } else if c == '\\' {
        Some("\\")
    } else if c == '/' {
        Some("/")
    } else if c == 'b' {
        Some("\u{8}")
    } else if c == 'f' {
        Some("\u{c}")
    } else if c == 'n' {
        Some("\n")
    } else if c == 'r' {
        Some("\r")
    } else if c == 't' {
        Some("\t")
    } else {
        None
    }
}

/// The value of a hexadecimal digit character, upper or lower case.
fn hex_val_of(c: char) -> (r: Option<u32>)
    ensures
        match r {
            Option::Some(v) => hex_val(c) == Some(v as nat) && v < 16,
            Option::None => hex_val(c) is None,
        },
{
    let v = c as u32;
    if '0' as u32 <= v && v <= '9' as u32 {
        Some(v - '0' as u32)
    } else if 'a' as u32 <= v && v <= 'f' as u32 {
        Some(v - 'a' as u32 + 10)
    } else if 'A' as u32 <= v && v <= 'F' as u32 {
        Some(v - 'A' as u32 + 10)
    } else {
        None
    }
}

/// The one-character string holding the control character with value `n`.
fn ctrl_char_str(n: u32) -> (r: &'static str)
    requires
        n < 0x20,
    ensures
        r@ == seq![ctrl_char(n as nat)],
{
    let r = if n == 0 {
        "\u{0}"
    } else if n == 1 {
        "\u{1}"
    } else if n == 2 {
        "\u{2}"
    } else if n == 3 {
        "\u{3}"
    } else if n == 4 {
        "\u{4}"
    } else if n == 5 {
        "\u{5}"
    } else if n == 6 {
        "\u{6}"
    } else if n == 7 {
        "\u{7}"
    } else if n == 8 {
        "\u{8}"
    } else if n == 9 {
        "\u{9}"
    } else if n == 10 {
        "\u{a}"
    } else if n == 11 {
        "\u{b}"
    } else if n == 12 {
        "\u{c}"
    } else if n == 13 {
        "\u{d}"
    } else if n == 14 {
        "\u{e}"
    } else if n == 15 {
        "\u{f}"
    } else if n == 16 {
        "\u{10}"
    } else if n == 17 {
        "\u{11}"
    } else if n == 18 {
        "\u{12}"
    } else if n == 19 {
        "\u{13}"
    } else if n == 20 {
        "\u{14}"
    } else if n == 21 {
        "\u{15}"
    } else if n == 22 {
        "\u{16}"
    } else if n == 23 {
        "\u{17}"
    } else if n == 24 {
        "\u{18}"
    } else if n == 25 {
        "\u{19}"
    } else if n == 26 {
        "\u{1a}"
    } else if n == 27 {
        "\u{1b}"
    } else if n == 28 {
        "\u{1c}"
    } else if n == 29 {
        "\u{1d}"
    } else if n == 30 {
        "\u{1e}"
    } else {
        "\u{1f}"
    };
    proof {
        reveal_strlit("\u{0}");
        reveal_strlit("\u{1}");
        reveal_strlit("\u{2}");
        reveal_strlit("\u{3}");
        reveal_strlit("\u{4}");
        reveal_strlit("\u{5}");
        reveal_strlit("\u{6}");
        reveal_strlit("\u{7}");
        reveal_strlit("\u{8}");
        reveal_strlit("\u{9}");
        reveal_strlit("\u{a}");
        reveal_strlit("\u{b}");
        reveal_strlit("\u{c}");
        reveal_strlit("\u{d}");
        reveal_strlit("\u{e}");
        reveal_strlit("\u{f}");
        reveal_strlit("\u{10}");
        reveal_strlit("\u{11}");
        reveal_strlit("\u{12}");
        reveal_strlit("\u{13}");
        reveal_strlit("\u{14}");
        reveal_strlit("\u{15}");
        reveal_strlit("\u{16}");
        reveal_strlit("\u{17}");
        reveal_strlit("\u{18}");
        reveal_strlit("\u{19}");
        reveal_strlit("\u{1a}");
        reveal_strlit("\u{1b}");
        reveal_strlit("\u{1c}");
        reveal_strlit("\u{1d}");
        reveal_strlit("\u{1e}");
        reveal_strlit("\u{1f}");
        assert(r@ =~= seq![ctrl_char(n as nat)]);
    }
    r
}

/// Move past whitespace: the first position at or after `i` holding
/// something else.
fn skip_ws(s: &str, n: usize, i: usize) -> (r: usize)
    requires
        n as int == s@.len(),
        i <= n,
    ensures
        r as int == sp_ws(s@, i as int),
        i <= r <= n,
    decreases n - i,
{
    if i < n {
        let c = s.get_char(i);
        if c == ' ' || c == '\t' || c == '\n' || c == '\r' {
            return skip_ws(s, n, i + 1);
        }
    }
    i
}

/// Read a quoted string's body starting just after the opening quote, as
/// `sp_string_body` says.
fn parse_string_body(s: &str, n: usize, i: usize) -> (r: Option<(String, usize)>)
    requires
        n as int == s@.len(),
        i <= n,
    ensures
        match r {
            Option::Some((t, j)) => sp_string_body(s@, i as int) == Some((t@, j as int)) && i < j
                <= n,
            Option::None => sp_string_body(s@, i as int) is None,
        },
    decreases n - i,
{
    if i >= n {
        return None;
    }
    let c = s.get_char(i);
    if c == '"' {
        return Some((String::new(), i + 1));
    }
    if c == '\\' {
        if i + 1 < n {
            let e = s.get_char(i + 1);
            match simple_unescape_str(e) {
                Some(u) => {
                    match parse_string_body(s, n, i + 2) {
                        Some((t, j)) => {
                            let out = u.to_owned().concat(t.as_str());
                            proof {
                                assert(out@ =~= seq![simple_unescape(s@[i as int + 1])->0] + t@);
                            }
                            return Some((out, j));
                        },
                        None => {
                            return None;
                        },
                    }
                },
                None => {
                    if e == 'u' && n - i > 5 && s.get_char(i + 2) == '0' && s.get_char(i + 3)
                        == '0' {
                        let h1 = hex_val_of(s.get_char(i + 4));
                        let h2 = hex_val_of(s.get_char(i + 5));
                        match (h1, h2) {
                            (Some(a), Some(b)) => {
                                let v = a * 16 + b;
                                if v < 0x20 {
                                    match parse_string_body(s, n, i + 6) {
                                        Some((t, j)) => {
                                            let out = ctrl_char_str(v).to_owned().concat(
                                                t.as_str(),
                                            );
                                            proof {
                                                assert(out@ =~= seq![ctrl_char(v as nat)] + t@);
                                            }
                                            return Some((out, j));
                                        },
                                        None => {
                                            return None;
                                        },
                                    }
                                } else {
                                    return None;
                                }
                            },
                            _ => {
                                return None;
                            },
                        }
                    } else {
                        return None;
                    }
                },
            }
        } else {
            return None;
        }
    }
    if (c as u32) < 0x20 {
        return None;
    }
    match parse_string_body(s, n, i + 1) {
        Some((t, j)) => {
            let out = s.substring_char(i, i + 1).to_owned().concat(t.as_str());
            proof {
                assert(s@.subrange(i as int, i as int + 1) =~= seq![s@[i as int]]);
                assert(out@ =~= seq![s@[i as int]] + t@);
            }
            Some((out, j))
        },
        None => None,
    }
}

/// Read the items of a non-empty array starting at the first item's opening
/// quote, as `sp_items` says.
fn parse_items(s: &str, n: usize, i: usize) -> (r: Option<(Vec<String>, usize)>)
    requires
        n as int == s@.len(),
        i <= n,
    ensures
        match r {
            Option::Some((v, e)) => sp_items(s@, i as int) == Some(
                (crate::paths::strs_view(v@), e as int),
            ) && i < e <= n,
            Option::None => sp_items(s@, i as int) is None,
        },
    decreases n - i,
{
    if i >= n || s.get_char(i) != '"' {
        return None;
    }
    let (t, j) = match parse_string_body(s, n, i + 1) {
        Some(p) => p,
        None => {
            return None;
        },
    };
    let k = skip_ws(s, n, j);
    if k < n && s.get_char(k) == ']' {
        let mut v: Vec<String> = Vec::new();
        v.push(t);
        proof {
            assert(v@.drop_last() =~= Seq::<String>::empty());
            assert(crate::paths::strs_view(Seq::<String>::empty()) =~= Seq::<Seq<char>>::empty());
            assert(crate::paths::strs_view(v@) =~= seq![v@.last()@]);
        }
        return Some((v, k + 1));
    }
    if k < n && s.get_char(k) == ',' {
        let m = skip_ws(s, n, k + 1);
        match parse_items(s, n, m) {
            Some((rest, e)) => {
                let mut v = rest;
                let ghost old_v = v@;
                v.insert(0, t);
                proof {
                    crate::paths::lemma_strs_view(v@);
                    crate::paths::lemma_strs_view(old_v);
                    assert(crate::paths::strs_view(v@) =~= seq![t@] + crate::paths::strs_view(
                        old_v,
                    ));
                }
                return Some((v, e));
            },
            None => {
                return None;
            },
        }
    }
    None
}

/// Read a configuration document.
///
/// Succeeds exactly when the text is, up to whitespace between tokens, an
/// object `{"root": [...]}` whose value is an array of strings written with
/// the escapes this module accepts; the result lists the decoded strings in
/// order.
pub fn parse_config(s: &str) -> (r: Option<Vec<String>>)
    ensures
        match r {
            Option::Some(v) => parse_config_spec(s@) == Some(crate::paths::strs_view(v@)),
            Option::None => parse_config_spec(s@) is None,
        },
{
    let n = s.unicode_len();
    let i = skip_ws(s, n, 0);
    if !(i < n && s.get_char(i) == '{') {
        return None;
    }
    let j = skip_ws(s, n, i + 1);
    if !(j < n && s.get_char(j) == '"') {
        return None;
    }
    let (key, k) = match parse_string_body(s, n, j + 1) {
        Some(p) => p,
        None => {
            return None;
        },
    };
    proof {
        reveal_strlit("root");
        assert("root"@ =~= seq!['r', 'o', 'o', 't']);
    }
    if !crate::paths::str_eq(key.as_str(), "root") {
        return None;
    }
    let m = skip_ws(s, n, k);
    if !(m < n && s.get_char(m) == ':') {
        return None;
    }
    let a = skip_ws(s, n, m + 1);
    // the array: `[`, then either an immediate `]` or the items
    if !(a < n && s.get_char(a) == '[') {
        return None;
    }
    let b = skip_ws(s, n, a + 1);
    let (items, e) = if b < n && s.get_char(b) == ']' {
        (Vec::new(), b + 1)
    } else {
        match parse_items(s, n, b) {
            Some(p) => p,
            None => {
                return None;
            },
        }
    };
    proof {
        assert(crate::paths::strs_view(Seq::<String>::empty()) =~= Seq::<Seq<char>>::empty());
    }
    let f = skip_ws(s, n, e);
    if !(f < n && s.get_char(f) == '}') {
        return None;
    }
    if skip_ws(s, n, f + 1) != n {
        return None;
    }
    Some(items)
}

/// Append the written form of character `i` of `s`.
fn append_escaped_char(out: &mut String, s: &str, i: usize)
    requires
        i < s@.len(),
        s@.len() <= usize::MAX as int,
    ensures
        final (out)@ == old(out)@ + json_escape_char(s@[i as int]),
{
    let c = s.get_char(i);
    if c == '"' {
        out.append("\\\"");
        proof {
            reveal_strlit("\\\"");
            assert(final (out)@ =~= old(out)@ + json_escape_char(s@[i as int]));
        }
    } else if c == '\\' {
        out.append("\\\\");
        proof {
            reveal_strlit("\\\\");
            assert(final (out)@ =~= old(out)@ + json_escape_char(s@[i as int]));
        }
    } else if c == '\u{8}' {
        out.append("\\b");
        proof {
            reveal_strlit("\\b");
            assert(final (out)@ =~= old(out)@ + json_escape_char(s@[i as int]));
        }
    } else if c == '\u{c}' {
        out.append("\\f");
        proof {
            reveal_strlit("\\f");
            assert(final (out)@ =~= old(out)@ + json_escape_char(s@[i as int]));
        }
    } else if c == '\n' {
        out.append("\\n");
        proof {
            reveal_strlit("\\n");
            assert(final (out)@ =~= old(out)@ + json_escape_char(s@[i as int]));
        }
    } else if c == '\r' {
        out.append("\\r");
        proof {
            reveal_strlit("\\r");
            assert(final (out)@ =~= old(out)@ + json_escape_char(s@[i as int]));
        }
    } else if c == '\t' {
        out.append("\\t");
        proof {
            reveal_strlit("\\t");
            assert(final (out)@ =~= old(out)@ + json_escape_char(s@[i as int]));
        }
    } else {
        let v = c as u32;
        if v < 0x20 {
            out.append("\\u00");
            out.append(hex_digit_str(v / 16));
            out.append(hex_digit_str(v % 16));
            proof {
                reveal_strlit("\\u00");
                assert(final (out)@ =~= old(out)@ + json_escape_char(s@[i as int]));
            }
        } else {
            out.append(s.substring_char(i, i + 1));
            proof {
                assert(s@.subrange(i as int, i + 1) =~= seq![s@[i as int]]);
                assert(final (out)@ =~= old(out)@ + json_escape_char(s@[i as int]));
            }
        }
    }
}

/// Append the quoted, escaped form of `s`.
fn append_json_string(out: &mut String, s: &str)
    ensures
        final (out)@ == old(out)@ + json_string(s@),
{
    let n = s.unicode_len();
    let ghost base = out@;
    out.append("\"");
    proof {
        reveal_strlit("\"");
        assert(json_escape(s@.take(0)) =~= Seq::<char>::empty());
        assert(out@ =~= base + seq!['"'] + json_escape(s@.take(0)));
    }
    let mut i: usize = 0;
    while i < n
        invariant
            n == s@.len(),
            n <= usize::MAX,
            0 <= i <= n,
            out@ == base + seq!['"'] + json_escape(s@.take(i as int)),
        decreases n - i,
    {
        append_escaped_char(out, s, i);
        proof {
            assert(s@.take(i + 1).drop_last() =~= s@.take(i as int));
            assert(s@.take(i + 1).last() == s@[i as int]);
            assert(out@ =~= base + seq!['"'] + json_escape(s@.take(i + 1)));
        }
        i = i + 1;
    }
    out.append("\"");
    proof {
        reveal_strlit("\"");
        assert(s@.take(n as int) =~= s@);
        assert(out@ =~= base + json_string(s@));
    }
}

/// Write the configuration document for `roots` in canonical form.
pub fn roots_to_json(roots: &Vec<String>) -> (r: String)
    ensures
        r@ == config_json(crate::paths::strs_view(roots@)),
{
    let ghost vs = crate::paths::strs_view(roots@);
    proof {
        crate::paths::lemma_strs_view(roots@);
    }
    let mut out = String::from_str("{\"root\":[");
    proof {
        reveal_strlit("{\"root\":[");
        assert(out@ =~= seq!['{', '"', 'r', 'o', 'o', 't', '"', ':', '[']);
        assert(json_items(vs.take(0)) =~= Seq::<char>::empty());
        assert(out@ =~= seq!['{', '"', 'r', 'o', 'o', 't', '"', ':', '['] + json_items(vs.take(0)));
    }
    let mut i: usize = 0;
    while i < roots.len()
        invariant
            vs == crate::paths::strs_view(roots@),
            vs.len() == roots@.len(),
            forall|p: int| 0 <= p < roots@.len() ==> #[trigger] vs[p] == roots@[p]@,
            0 <= i <= roots@.len(),
            out@ == seq!['{', '"', 'r', 'o', 'o', 't', '"', ':', '['] + json_items(
                vs.take(i as int),
            ),
        decreases roots@.len() - i,
    {
        if i > 0 {
            out.append(",");
            proof {
                reveal_strlit(",");
            }
        }
        append_json_string(&mut out, roots[i].as_str());
        proof {
            assert(vs.take(i + 1).drop_last() =~= vs.take(i as int));
            assert(vs.take(i + 1).last() == vs[i as int]);
            if i == 0 {
                assert(json_items(vs.take(1)) =~= json_string(vs[0]));
            }
            assert(out@ =~= seq!['{', '"', 'r', 'o', 'o', 't', '"', ':', '['] + json_items(
                vs.take(i + 1),
            ));
        }
        i = i + 1;
    }
    out.append("]}");
    proof {
        reveal_strlit("]}");
        assert(vs.take(roots@.len() as int) =~= vs);
        assert(out@ =~= config_json(vs));
    }
    out
}

} // verus!
