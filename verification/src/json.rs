//! A small JSON reader for token claims.
//!
//! The grammar is the usual one: `null`, `true`, `false`, numbers,
//! strings with the standard escapes (including `\uXXXX` for scalars
//! outside the surrogate range), arrays and objects, with whitespace
//! between tokens. Object fields keep their textual order, duplicate
//! keys included; a number keeps its exact lexeme, so nothing is lost
//! to rounding. The mathematical parse is the spec function
//! [`spec_parse_json`]; the executable [`parse_json`] returns exactly
//! what it says.

use vstd::prelude::*;

verus! {

/// The mathematical JSON value: what a parsed text means.
pub enum JsonVal {
    Null,
    Bool(bool),
    /// A number, kept as its lexeme.
    Num(Seq<char>),
    Str(Seq<char>),
    Arr(Seq<JsonVal>),
    Obj(Seq<(Seq<char>, JsonVal)>),
}

/// The executable JSON value. Its [`JsonValue::model`] is the
/// [`JsonVal`] it stands for.
pub enum JsonValue {
    Null,
    Bool(bool),
    /// A number, kept as its lexeme.
    Num(String),
    Str(String),
    Arr(Vec<JsonValue>),
    Obj(Vec<(String, JsonValue)>),
}

impl JsonValue {
    /// The mathematical value this tree stands for.
    pub open spec fn model(self) -> JsonVal
        decreases self,
    {
        match self {
            JsonValue::Null => JsonVal::Null,
            JsonValue::Bool(b) => JsonVal::Bool(b),
            JsonValue::Num(s) => JsonVal::Num(s@),
            JsonValue::Str(s) => JsonVal::Str(s@),
            JsonValue::Arr(items) => JsonVal::Arr(
                Seq::new(
                    items@.len(),
                    |i: int|
                        if 0 <= i < items@.len() {
                            items@[i].model()
                        } else {
                            JsonVal::Null
                        },
                ),
            ),
            JsonValue::Obj(fields) => JsonVal::Obj(
                Seq::new(
                    fields@.len(),
                    |i: int|
                        if 0 <= i < fields@.len() {
                            (fields@[i].0@, fields@[i].1.model())
                        } else {
                            (Seq::empty(), JsonVal::Null)
                        },
                ),
            ),
        }
    }
}

/// JSON insignificant whitespace.
pub open spec fn is_ws(c: char) -> bool {
    c == ' ' || c == '\t' || c == '\n' || c == '\r'
}

/// A decimal digit.
pub open spec fn is_digit(c: char) -> bool {
    48 <= c as u32 <= 57
}

/// A hexadecimal digit, either case.
pub open spec fn is_hex(c: char) -> bool {
    48 <= c as u32 <= 57 || 97 <= c as u32 <= 102 || 65 <= c as u32 <= 70
}

/// The value of a hexadecimal digit.
pub open spec fn hex_val(c: char) -> int {
    if 48 <= c as u32 <= 57 {
        c as u32 - 48
    } else if 97 <= c as u32 <= 102 {
        c as u32 - 97 + 10
    } else {
        c as u32 - 65 + 10
    }
}

/// The text with its leading whitespace removed.
pub open spec fn skip_ws(s: Seq<char>) -> Seq<char>
    decreases s.len(),
{
    if s.len() > 0 && is_ws(s[0]) {
        skip_ws(s.drop_first())
    } else {
        s
    }
}

/// Whether `p` is a prefix of `s`.
pub open spec fn has_prefix(s: Seq<char>, p: Seq<char>) -> bool {
    p.len() <= s.len() && s.take(p.len() as int) == p
}

/// What a single-character escape stands for, or `None` where the
/// character may not follow a backslash.
pub open spec fn escape_char(e: char) -> Option<char> {
    if e == '"' {
        Some('"')
    } else if e == '\\' {
        Some('\\')
    } else if e == '/' {
        Some('/')
    } else if e == 'b' {
        Some('\u{0008}')
    } else if e == 'f' {
        Some('\u{000c}')
    } else if e == 'n' {
        Some('\n')
    } else if e == 'r' {
        Some('\r')
    } else if e == 't' {
        Some('\t')
    } else {
        None
    }
}

/// The body of a string literal, entered just after the opening quote.
/// Yields the unescaped content and the text after the closing quote.
/// A raw control character, a bad escape, a `\u` escape naming a
/// surrogate, or a missing closing quote fails the parse.
pub open spec fn parse_string_body(s: Seq<char>) -> Option<(Seq<char>, Seq<char>)>
    decreases s.len(),
{
    if s.len() == 0 {
        None
    } else if s[0] == '"' {
        Some((Seq::empty(), s.drop_first()))
    } else if s[0] == '\\' {
        if s.len() < 2 {
            None
        } else if s[1] == 'u' {
            if s.len() < 6 || !(is_hex(s[2]) && is_hex(s[3]) && is_hex(s[4]) && is_hex(s[5])) {
                None
            } else {
                let v = hex_val(s[2]) * 4096 + hex_val(s[3]) * 256 + hex_val(s[4]) * 16 + hex_val(
                    s[5],
                );
                if 0xD800 <= v < 0xE000 {
                    None
                } else {
                    match parse_string_body(s.skip(6)) {
                        Some((t, r)) => Some((seq![(v as u32) as char] + t, r)),
                        None => None,
                    }
                }
            }
        } else {
            match escape_char(s[1]) {
                Some(c) => match parse_string_body(s.skip(2)) {
                    Some((t, r)) => Some((seq![c] + t, r)),
                    None => None,
                },
                None => None,
            }
        }
    } else if (s[0] as u32) < 32 {
        None
    } else {
        match parse_string_body(s.drop_first()) {
            Some((t, r)) => Some((seq![s[0]] + t, r)),
            None => None,
        }
    }
}

/// How many decimal digits stand at the head of the text.
pub open spec fn digits_count(s: Seq<char>) -> int
    decreases s.len(),
{
    if s.len() > 0 && is_digit(s[0]) {
        1 + digits_count(s.drop_first())
    } else {
        0
    }
}

/// A digit count is never negative and never longer than the text.
proof fn lemma_digits_count_bounds(s: Seq<char>)
    ensures
        0 <= digits_count(s) <= s.len(),
    decreases s.len(),
{
    if s.len() > 0 && is_digit(s[0]) {
        lemma_digits_count_bounds(s.drop_first());
    }
}

/// The length of the fraction part at the head of the text: 0 where
/// none starts there, -1 where a lone `.` without digits does.
pub open spec fn frac_len(s: Seq<char>) -> int {
    if s.len() > 0 && s[0] == '.' {
        if digits_count(s.drop_first()) == 0 {
            -1
        } else {
            1 + digits_count(s.drop_first())
        }
    } else {
        0
    }
}

/// The length of the exponent part at the head of the text: 0 where
/// none starts there, -1 where `e`/`E` stands without digits.
pub open spec fn exp_len(s: Seq<char>) -> int {
    if s.len() > 0 && (s[0] == 'e' || s[0] == 'E') {
        let esign: int = if s.len() > 1 && (s[1] == '+' || s[1] == '-') {
            1
        } else {
            0
        };
        if digits_count(s.skip(1 + esign)) == 0 {
            -1
        } else {
            1 + esign + digits_count(s.skip(1 + esign))
        }
    } else {
        0
    }
}

/// The length of the number lexeme at the head of the text, or `None`
/// where no well-formed number starts there. The lexeme is an optional
/// minus sign, an integer part without leading zeros, an optional
/// fraction, and an optional exponent.
pub open spec fn parse_number_len(s: Seq<char>) -> Option<int> {
    let sign: int = if s.len() > 0 && s[0] == '-' {
        1
    } else {
        0
    };
    let s1 = s.skip(sign);
    if s1.len() == 0 || !is_digit(s1[0]) {
        None
    } else {
        let ilen: int = if s1[0] == '0' {
            1
        } else {
            digits_count(s1)
        };
        let s2 = s1.skip(ilen);
        if frac_len(s2) < 0 {
            None
        } else {
            let s3 = s2.skip(frac_len(s2));
            if exp_len(s3) < 0 {
                None
            } else {
                Some(sign + ilen + frac_len(s2) + exp_len(s3))
            }
        }
    }
}

/// One JSON value at the head of the text, which must already start
/// with its first significant character. Yields the value and the
/// remaining text just after it.
pub open spec fn parse_value(s: Seq<char>) -> Option<(JsonVal, Seq<char>)>
    decreases s.len(), 0int,
{
    if s.len() == 0 {
        None
    } else if s[0] == 'n' {
        if has_prefix(s, seq!['n', 'u', 'l', 'l']) {
            Some((JsonVal::Null, s.skip(4)))
        } else {
            None
        }
    } else if s[0] == 't' {
        if has_prefix(s, seq!['t', 'r', 'u', 'e']) {
            Some((JsonVal::Bool(true), s.skip(4)))
        } else {
            None
        }
    } else if s[0] == 'f' {
        if has_prefix(s, seq!['f', 'a', 'l', 's', 'e']) {
            Some((JsonVal::Bool(false), s.skip(5)))
        } else {
            None
        }
    } else if s[0] == '"' {
        match parse_string_body(s.drop_first()) {
            Some((t, r)) => Some((JsonVal::Str(t), r)),
            None => None,
        }
    } else if s[0] == '-' || is_digit(s[0]) {
        match parse_number_len(s) {
            Some(l) => Some((JsonVal::Num(s.take(l)), s.skip(l))),
            None => None,
        }
    } else if s[0] == '[' {
        let u = s.drop_first();
        let w = skip_ws(u);
        if w.len() > 0 && w[0] == ']' {
            Some((JsonVal::Arr(Seq::empty()), w.drop_first()))
        } else {
            match parse_arr_items(u) {
                Some((vs, r)) => Some((JsonVal::Arr(vs), r)),
                None => None,
            }
        }
    } else if s[0] == '{' {
        let u = s.drop_first();
        let w = skip_ws(u);
        if w.len() > 0 && w[0] == '}' {
            Some((JsonVal::Obj(Seq::empty()), w.drop_first()))
        } else {
            match parse_obj_items(u) {
                Some((kvs, r)) => Some((JsonVal::Obj(kvs), r)),
                None => None,
            }
        }
    } else {
        None
    }
}

/// One or more comma-separated array items followed by `]`.
///
/// The length comparisons only bound the recursion: parsing a value
/// always consumes text, so they hold whenever they are reached.
pub open spec fn parse_arr_items(s: Seq<char>) -> Option<(Seq<JsonVal>, Seq<char>)>
    decreases s.len(), 1int,
{
    let t = skip_ws(s);
    if t.len() <= s.len() {
        match parse_value(t) {
            Some((v, r)) => {
                let r1 = skip_ws(r);
                if r1.len() > 0 && r1[0] == ',' {
                    let r2 = r1.drop_first();
                    if r2.len() < s.len() {
                        match parse_arr_items(r2) {
                            Some((vs, r3)) => Some((seq![v] + vs, r3)),
                            None => None,
                        }
                    } else {
                        None
                    }
                } else if r1.len() > 0 && r1[0] == ']' {
                    Some((seq![v], r1.drop_first()))
                } else {
                    None
                }
            },
            None => None,
        }
    } else {
        None
    }
}

/// One or more comma-separated `"key": value` fields followed by `}`.
///
/// The length comparisons only bound the recursion: parsing a key and
/// a value always consumes text, so they hold whenever they are
/// reached.
pub open spec fn parse_obj_items(s: Seq<char>) -> Option<
    (Seq<(Seq<char>, JsonVal)>, Seq<char>),
>
    decreases s.len(), 1int,
{
    let t = skip_ws(s);
    if t.len() > 0 && t[0] == '"' {
        match parse_string_body(t.drop_first()) {
            Some((key, r)) => {
                let r1 = skip_ws(r);
                if r1.len() > 0 && r1[0] == ':' {
                    let r2 = skip_ws(r1.drop_first());
                    if r2.len() < s.len() {
                        match parse_value(r2) {
                            Some((v, r3)) => {
                                let r4 = skip_ws(r3);
                                if r4.len() > 0 && r4[0] == ',' {
                                    let r5 = r4.drop_first();
                                    if r5.len() < s.len() {
                                        match parse_obj_items(r5) {
                                            Some((kvs, r6)) => Some((seq![(key, v)] + kvs, r6)),
                                            None => None,
                                        }
                                    } else {
                                        None
                                    }
                                } else if r4.len() > 0 && r4[0] == '}' {
                                    Some((seq![(key, v)], r4.drop_first()))
                                } else {
                                    None
                                }
                            },
                            None => None,
                        }
                    } else {
                        None
                    }
                } else {
                    None
                }
            },
            None => None,
        }
    } else {
        None
    }
}

/// The models of a sequence of executable values.
pub open spec fn models_of(items: Seq<JsonValue>) -> Seq<JsonVal> {
    Seq::new(
        items.len(),
        |i: int|
            if 0 <= i < items.len() {
                items[i].model()
            } else {
                JsonVal::Null
            },
    )
}

/// The models of a sequence of executable fields.
pub open spec fn field_models_of(fields: Seq<(String, JsonValue)>) -> Seq<(Seq<char>, JsonVal)> {
    Seq::new(
        fields.len(),
        |i: int|
            if 0 <= i < fields.len() {
                (fields[i].0@, fields[i].1.model())
            } else {
                (Seq::empty(), JsonVal::Null)
            },
    )
}

/// Skipping whitespace only shortens the text, and skips nothing when
/// the head is not whitespace.
proof fn lemma_skip_ws_len(s: Seq<char>)
    ensures
        skip_ws(s).len() <= s.len(),
    decreases s.len(),
{
    if s.len() > 0 && is_ws(s[0]) {
        lemma_skip_ws_len(s.drop_first());
    }
}

/// The parse of a whole text: one value, surrounded by nothing but
/// whitespace.
pub open spec fn spec_parse_json(s: Seq<char>) -> Option<JsonVal> {
    match parse_value(skip_ws(s)) {
        Some((v, r)) => if skip_ws(r).len() == 0 {
            Some(v)
        } else {
            None
        },
        None => None,
    }
}

/// The lowercase hexadecimal digit for a value below 16.
pub open spec fn hex_char(d: u32) -> char {
    if d < 10 {
        ((48 + d) as u32) as char
    } else {
        ((97 + d - 10) as u32) as char
    }
}

/// How one character stands inside a serialized string literal: the
/// quote and the backslash escaped, control characters as `\u00XX`,
/// everything else as itself.
pub open spec fn esc_seq(c: char) -> Seq<char> {
    if c == '"' {
        seq!['\\', '"']
    } else if c == '\\' {
        seq!['\\', '\\']
    } else if (c as u32) < 32 {
        seq!['\\', 'u', '0', '0', hex_char((c as u32) / 16), hex_char((c as u32) % 16)]
    } else {
        seq![c]
    }
}

/// The body of a serialized string literal, without its quotes.
pub open spec fn ser_string_body(s: Seq<char>) -> Seq<char>
    decreases s.len(),
{
    if s.len() == 0 {
        Seq::empty()
    } else {
        esc_seq(s[0]) + ser_string_body(s.drop_first())
    }
}

/// A number lexeme that a parse reads back whole: parsing it consumes
/// exactly the lexeme.
pub open spec fn wf_number_lexeme(lex: Seq<char>) -> bool {
    parse_number_len(lex) == Some(lex.len() as int)
}

/// A value every part of which can be serialized and read back: its
/// number lexemes are well formed.
pub open spec fn wf_json(v: JsonVal) -> bool
    decreases v,
{
    match v {
        JsonVal::Null => true,
        JsonVal::Bool(_) => true,
        JsonVal::Num(lex) => wf_number_lexeme(lex),
        JsonVal::Str(_) => true,
        JsonVal::Arr(vs) => forall|i: int| 0 <= i < vs.len() ==> wf_json(#[trigger] vs[i]),
        JsonVal::Obj(kvs) => forall|i: int|
            0 <= i < kvs.len() ==> wf_json(#[trigger] kvs[i].1),
    }
}

/// The canonical serialization of a value: no whitespace, object
/// fields in order, numbers as their lexemes.
pub open spec fn ser_json(v: JsonVal) -> Seq<char>
    decreases v, 0int,
{
    match v {
        JsonVal::Null => seq!['n', 'u', 'l', 'l'],
        JsonVal::Bool(b) => if b {
            seq!['t', 'r', 'u', 'e']
        } else {
            seq!['f', 'a', 'l', 's', 'e']
        },
        JsonVal::Num(lex) => lex,
        JsonVal::Str(s) => seq!['"'] + ser_string_body(s) + seq!['"'],
        JsonVal::Arr(vs) => if vs.len() == 0 {
            seq!['[', ']']
        } else {
            seq!['['] + ser_arr_items(vs)
        },
        JsonVal::Obj(kvs) => if kvs.len() == 0 {
            seq!['{', '}']
        } else {
            seq!['{'] + ser_obj_fields(kvs)
        },
    }
}

/// One or more serialized array items, closed by `]`.
pub open spec fn ser_arr_items(vs: Seq<JsonVal>) -> Seq<char>
    decreases vs, 1int,
{
    if vs.len() == 0 {
        seq![']']
    } else {
        ser_json(vs[0]) + (if vs.len() == 1 {
            seq![']']
        } else {
            seq![','] + ser_arr_items(vs.drop_first())
        })
    }
}

/// One or more serialized object fields, closed by `}`.
pub open spec fn ser_obj_fields(kvs: Seq<(Seq<char>, JsonVal)>) -> Seq<char>
    decreases kvs, 1int,
{
    if kvs.len() == 0 {
        seq!['}']
    } else {
        seq!['"'] + ser_string_body(kvs[0].0) + seq!['"', ':'] + ser_json(kvs[0].1) + (if kvs.len()
            == 1 {
            seq!['}']
        } else {
            seq![','] + ser_obj_fields(kvs.drop_first())
        })
    }
}

/// A character that cannot continue a number lexeme.
pub open spec fn num_break(c: char) -> bool {
    !is_digit(c) && c != '.' && c != 'e' && c != 'E' && c != '+' && c != '-'
}

proof fn lemma_digits_count_delim(a: Seq<char>, tail: Seq<char>)
    requires
        tail.len() > 0 ==> !is_digit(tail[0]),
    ensures
        digits_count(a + tail) == digits_count(a),
    decreases a.len(),
{
    if a.len() == 0 {
        assert(a + tail =~= tail);
    } else {
        assert((a + tail)[0] == a[0]);
        if is_digit(a[0]) {
            assert((a + tail).drop_first() =~= a.drop_first() + tail);
            lemma_digits_count_delim(a.drop_first(), tail);
        }
    }
}

proof fn lemma_frac_len_delim(a: Seq<char>, tail: Seq<char>)
    requires
        tail.len() > 0 ==> num_break(tail[0]),
    ensures
        frac_len(a + tail) == frac_len(a),
{
    if a.len() == 0 {
        assert(a + tail =~= tail);
    } else {
        assert((a + tail)[0] == a[0]);
        if a[0] == '.' {
            assert((a + tail).drop_first() =~= a.drop_first() + tail);
            lemma_digits_count_delim(a.drop_first(), tail);
        }
    }
}

proof fn lemma_exp_len_delim(a: Seq<char>, tail: Seq<char>)
    requires
        tail.len() > 0 ==> num_break(tail[0]),
    ensures
        exp_len(a + tail) == exp_len(a),
{
    if a.len() == 0 {
        assert(a + tail =~= tail);
    } else {
        let s = a + tail;
        assert(s[0] == a[0]);
        if a[0] == 'e' || a[0] == 'E' {
            if a.len() > 1 {
                assert(s[1] == a[1]);
                let esign: int = if a[1] == '+' || a[1] == '-' {
                    1
                } else {
                    0
                };
                assert(s.skip(1 + esign) =~= a.skip(1 + esign) + tail);
                lemma_digits_count_delim(a.skip(1 + esign), tail);
            } else {
                if tail.len() > 0 {
                    assert(s[1] == tail[0]);
                }
                assert(s.skip(1) =~= a.skip(1) + tail);
                lemma_digits_count_delim(a.skip(1), tail);
            }
        }
    }
}

/// A well-formed number lexeme followed by a breaking character parses
/// to exactly the lexeme.
proof fn lemma_number_extend(lex: Seq<char>, tail: Seq<char>)
    requires
        wf_number_lexeme(lex),
        tail.len() > 0 ==> num_break(tail[0]),
    ensures
        parse_number_len(lex + tail) == Some(lex.len() as int),
        lex.len() > 0,
        lex[0] == '-' || is_digit(lex[0]),
    decreases lex.len(),
{
    let s = lex + tail;
    let sign: int = if lex.len() > 0 && lex[0] == '-' {
        1
    } else {
        0
    };
    assert(lex.len() > 0);
    assert(s[0] == lex[0]);
    let s1l = lex.skip(sign);
    let s1s = s.skip(sign);
    assert(s1s =~= s1l + tail);
    assert(s1l.len() > 0 && is_digit(s1l[0]));
    assert(s1s[0] == s1l[0]);
    lemma_digits_count_delim(s1l, tail);
    lemma_digits_count_bounds(s1l);
    let ilen: int = if s1l[0] == '0' {
        1
    } else {
        digits_count(s1l)
    };
    assert(ilen <= s1l.len());
    let s2l = s1l.skip(ilen);
    let s2s = s1s.skip(ilen);
    assert(s2s =~= s2l + tail);
    lemma_frac_len_delim(s2l, tail);
    assert(frac_len(s2l) >= 0);
    assert(frac_len(s2l) <= s2l.len()) by {
        if s2l.len() > 0 && s2l[0] == '.' {
            lemma_digits_count_bounds(s2l.drop_first());
        }
    }
    let s3l = s2l.skip(frac_len(s2l));
    let s3s = s2s.skip(frac_len(s2s));
    assert(s3s =~= s3l + tail);
    lemma_exp_len_delim(s3l, tail);
}

proof fn lemma_hex_char(d: u32)
    requires
        d < 16,
    ensures
        is_hex(hex_char(d)),
        hex_val(hex_char(d)) == d,
        hex_char(d) != '"' && hex_char(d) != '\\',
{
    if d < 10 {
        assert((((48 + d) as u32) as char) as u32 == 48 + d);
    } else {
        assert((((97 + d - 10) as u32) as char) as u32 == 97 + d - 10);
    }
}

/// A serialized string body, closed by its quote, parses back to
/// exactly the string.
proof fn lemma_parse_ser_string(s: Seq<char>, tail: Seq<char>)
    ensures
        parse_string_body(ser_string_body(s) + seq!['"'] + tail) == Some((s, tail)),
    decreases s.len(),
{
    if s.len() == 0 {
        assert(ser_string_body(s) + seq!['"'] + tail =~= seq!['"'] + tail);
        assert((seq!['"'] + tail)[0] == '"');
        assert((seq!['"'] + tail).drop_first() =~= tail);
        assert(s =~= Seq::<char>::empty());
    } else {
        let c = s[0];
        let rest = ser_string_body(s.drop_first()) + seq!['"'] + tail;
        lemma_parse_ser_string(s.drop_first(), tail);
        let whole = ser_string_body(s) + seq!['"'] + tail;
        assert(whole =~= esc_seq(c) + rest);
        if c == '"' {
            assert(whole[0] == '\\' && whole[1] == '"');
            assert(whole.skip(2) =~= rest);
            assert(seq![c] + s.drop_first() =~= s);
        } else if c == '\\' {
            assert(whole[0] == '\\' && whole[1] == '\\');
            assert(whole.skip(2) =~= rest);
            assert(seq![c] + s.drop_first() =~= s);
        } else if (c as u32) < 32 {
            let hi = (c as u32) / 16;
            let lo = (c as u32) % 16;
            lemma_hex_char(hi);
            lemma_hex_char(lo);
            assert(whole[0] == '\\' && whole[1] == 'u' && whole[2] == '0' && whole[3] == '0');
            assert(whole[4] == hex_char(hi) && whole[5] == hex_char(lo));
            assert(whole.len() >= 6);
            assert(is_hex('0')) by {
                assert(('0' as u32) == 48);
            }
            assert(hex_val('0') == 0) by {
                assert(('0' as u32) == 48);
            }
            let v = hex_val(whole[2]) * 4096 + hex_val(whole[3]) * 256 + hex_val(whole[4]) * 16
                + hex_val(whole[5]);
            assert(v == hi * 16 + lo);
            assert(v == c as u32) by {
                assert(hi * 16 + lo == c as u32) by (nonlinear_arith)
                    requires
                        hi == (c as u32) / 16,
                        lo == (c as u32) % 16,
                        (c as u32) < 32;
            }
            assert(!(0xD800 <= v < 0xE000));
            assert(whole.skip(6) =~= rest);
            vstd::utf8::char_u32_cast(c, c as u32);
            assert((v as u32) as char == c);
            assert(seq![c] + s.drop_first() =~= s);
        } else {
            assert(whole[0] == c);
            assert(whole.drop_first() =~= rest);
            assert(seq![c] + s.drop_first() =~= s);
        }
    }
}

/// A serialization's first character: present, never whitespace, and
/// never a closing token.
proof fn lemma_ser_head(v: JsonVal)
    requires
        wf_json(v),
    ensures
        ser_json(v).len() > 0,
        !is_ws(ser_json(v)[0]),
        ser_json(v)[0] != ']' && ser_json(v)[0] != '}' && ser_json(v)[0] != ',' && ser_json(v)[0]
            != ':',
{
    match v {
        JsonVal::Num(lex) => {
            lemma_number_extend(lex, Seq::empty());
        },
        JsonVal::Arr(vs) => {
        },
        JsonVal::Obj(kvs) => {
        },
        _ => {},
    }
}

/// A delimiter that may follow a serialized value.
pub open spec fn value_break(tail: Seq<char>) -> bool {
    tail.len() > 0 ==> (tail[0] == ',' || tail[0] == ']' || tail[0] == '}')
}

/// A serialized value followed by a delimiter parses back to exactly
/// the value.
#[verifier::rlimit(100)]
proof fn lemma_parse_ser(v: JsonVal, tail: Seq<char>)
    requires
        wf_json(v),
        value_break(tail),
    ensures
        parse_value(ser_json(v) + tail) == Some((v, tail)),
    decreases v, 0int,
{
    let s = ser_json(v) + tail;
    match v {
        JsonVal::Null => {
            assert(s[0] == 'n' && s[1] == 'u' && s[2] == 'l' && s[3] == 'l');
            assert(s.take(4) =~= seq!['n', 'u', 'l', 'l']);
            assert(s.skip(4) =~= tail);
        },
        JsonVal::Bool(b) => {
            if b {
                assert(s[0] == 't' && s[1] == 'r' && s[2] == 'u' && s[3] == 'e');
                assert(s.take(4) =~= seq!['t', 'r', 'u', 'e']);
                assert(s.skip(4) =~= tail);
            } else {
                assert(s[0] == 'f' && s[1] == 'a' && s[2] == 'l' && s[3] == 's' && s[4] == 'e');
                assert(s.take(5) =~= seq!['f', 'a', 'l', 's', 'e']);
                assert(s.skip(5) =~= tail);
            }
        },
        JsonVal::Num(lex) => {
            lemma_number_extend(lex, tail);
            assert(s[0] == lex[0]);
            assert(s.take(lex.len() as int) =~= lex);
            assert(s.skip(lex.len() as int) =~= tail);
        },
        JsonVal::Str(str0) => {
            assert(s[0] == '"');
            assert(s.drop_first() =~= ser_string_body(str0) + seq!['"'] + tail);
            lemma_parse_ser_string(str0, tail);
        },
        JsonVal::Arr(vs) => {
            assert(s[0] == '[');
            if vs.len() == 0 {
                let u = s.drop_first();
                assert(u =~= seq![']'] + tail);
                assert(u[0] == ']');
                assert(skip_ws(u) == u);
                assert(u.drop_first() =~= tail);
                assert(vs =~= Seq::<JsonVal>::empty());
            } else {
                let u = s.drop_first();
                assert(u =~= ser_arr_items(vs) + tail);
                assert(wf_json(vs[0]));
                lemma_ser_head(vs[0]);
                assert(ser_arr_items(vs)[0] == ser_json(vs[0])[0]);
                assert(u[0] == ser_json(vs[0])[0]);
                assert(skip_ws(u) == u);
                lemma_parse_ser_arr(vs, tail);
            }
        },
        JsonVal::Obj(kvs) => {
            assert(s[0] == '{');
            if kvs.len() == 0 {
                let u = s.drop_first();
                assert(u =~= seq!['}'] + tail);
                assert(u[0] == '}');
                assert(skip_ws(u) == u);
                assert(u.drop_first() =~= tail);
                assert(kvs =~= Seq::<(Seq<char>, JsonVal)>::empty());
            } else {
                let u = s.drop_first();
                assert(u =~= ser_obj_fields(kvs) + tail);
                assert(ser_obj_fields(kvs)[0] == '"');
                assert(u[0] == '"');
                assert(skip_ws(u) == u);
                lemma_parse_ser_obj(kvs, tail);
            }
        },
    }
}

/// Serialized array items, closed by `]` and followed by a delimiter,
/// parse back to exactly the items.
#[verifier::rlimit(100)]
proof fn lemma_parse_ser_arr(vs: Seq<JsonVal>, tail: Seq<char>)
    requires
        vs.len() > 0,
        forall|i: int| 0 <= i < vs.len() ==> wf_json(#[trigger] vs[i]),
        value_break(tail),
    ensures
        parse_arr_items(ser_arr_items(vs) + tail) == Some((vs, tail)),
    decreases vs, 1int,
{
    let s = ser_arr_items(vs) + tail;
    let ct: Seq<char> = if vs.len() == 1 {
        seq![']'] + tail
    } else {
        seq![','] + ser_arr_items(vs.drop_first()) + tail
    };
    assert(s =~= ser_json(vs[0]) + ct);
    assert(wf_json(vs[0]));
    lemma_ser_head(vs[0]);
    assert(s[0] == ser_json(vs[0])[0]);
    assert(skip_ws(s) == s);
    lemma_parse_ser(vs[0], ct);
    assert(skip_ws(ct) == ct);
    if vs.len() == 1 {
        assert(ct[0] == ']');
        assert(ct.drop_first() =~= tail);
        assert(seq![vs[0]] =~= vs);
    } else {
        assert(ct[0] == ',');
        let r2 = ct.drop_first();
        assert(r2 =~= ser_arr_items(vs.drop_first()) + tail);
        assert(ser_json(vs[0]).len() > 0);
        assert(r2.len() < s.len());
        assert(forall|i: int|
            0 <= i < vs.drop_first().len() ==> wf_json(#[trigger] vs.drop_first()[i])) by {
            assert(forall|i: int|
                0 <= i < vs.drop_first().len() ==> vs.drop_first()[i] == #[trigger] vs[i + 1]);
        }
        lemma_parse_ser_arr(vs.drop_first(), tail);
        assert(seq![vs[0]] + vs.drop_first() =~= vs);
    }
}

/// Serialized object fields, closed by `}` and followed by a
/// delimiter, parse back to exactly the fields.
#[verifier::rlimit(100)]
proof fn lemma_parse_ser_obj(kvs: Seq<(Seq<char>, JsonVal)>, tail: Seq<char>)
    requires
        kvs.len() > 0,
        forall|i: int| 0 <= i < kvs.len() ==> wf_json(#[trigger] kvs[i].1),
        value_break(tail),
    ensures
        parse_obj_items(ser_obj_fields(kvs) + tail) == Some((kvs, tail)),
    decreases kvs, 1int,
{
    let s = ser_obj_fields(kvs) + tail;
    let k0 = kvs[0].0;
    let v0 = kvs[0].1;
    let ct: Seq<char> = if kvs.len() == 1 {
        seq!['}'] + tail
    } else {
        seq![','] + ser_obj_fields(kvs.drop_first()) + tail
    };
    assert(s =~= seq!['"'] + ser_string_body(k0) + seq!['"'] + (seq![':'] + (ser_json(v0) + ct)));
    assert(s[0] == '"');
    assert(skip_ws(s) == s);
    assert(s.drop_first() =~= ser_string_body(k0) + seq!['"'] + (seq![':'] + (ser_json(v0)
        + ct)));
    lemma_parse_ser_string(k0, seq![':'] + (ser_json(v0) + ct));
    let r0 = seq![':'] + (ser_json(v0) + ct);
    assert(r0[0] == ':');
    assert(skip_ws(r0) == r0);
    let r1 = r0.drop_first();
    assert(r1 =~= ser_json(v0) + ct);
    assert(wf_json(v0));
    lemma_ser_head(v0);
    assert(r1[0] == ser_json(v0)[0]);
    assert(skip_ws(r1) == r1);
    assert(r1.len() < s.len());
    lemma_parse_ser(v0, ct);
    assert(skip_ws(ct) == ct);
    assert((k0, v0) == kvs[0]);
    if kvs.len() == 1 {
        assert(ct[0] == '}');
        assert(ct.drop_first() =~= tail);
        assert(seq![kvs[0]] =~= kvs);
    } else {
        assert(ct[0] == ',');
        let r5 = ct.drop_first();
        assert(r5 =~= ser_obj_fields(kvs.drop_first()) + tail);
        assert(ser_json(v0).len() > 0);
        assert(r5.len() < s.len());
        assert(forall|i: int|
            0 <= i < kvs.drop_first().len() ==> wf_json(#[trigger] kvs.drop_first()[i].1)) by {
            assert(forall|i: int|
                0 <= i < kvs.drop_first().len() ==> kvs.drop_first()[i] == #[trigger] kvs[i + 1]);
        }
        lemma_parse_ser_obj(kvs.drop_first(), tail);
        assert(seq![kvs[0]] + kvs.drop_first() =~= kvs);
    }
}

/// The round trip: a well-formed value, serialized, parses back to
/// exactly itself.
pub proof fn lemma_parse_json_ser(v: JsonVal)
    requires
        wf_json(v),
    ensures
        spec_parse_json(ser_json(v)) == Some(v),
{
    lemma_ser_head(v);
    assert(skip_ws(ser_json(v)) == ser_json(v));
    lemma_parse_ser(v, Seq::empty());
    assert(ser_json(v) + Seq::<char>::empty() =~= ser_json(v));
}

fn ws_char(c: char) -> (r: bool)
    ensures
        r == is_ws(c),
{
    c == ' ' || c == '\t' || c == '\n' || c == '\r'
}

fn e_skip_ws(v: &Vec<char>, i: usize) -> (j: usize)
    requires
        i <= v.len(),
    ensures
        i <= j <= v@.len(),
        v@.skip(j as int) == skip_ws(v@.skip(i as int)),
{
    let mut j: usize = i;
    while j < v.len() && ws_char(v[j])
        invariant
            i <= j <= v@.len(),
            skip_ws(v@.skip(i as int)) == skip_ws(v@.skip(j as int)),
        decreases v@.len() - j,
    {
        proof {
            assert(v@.skip(j as int).drop_first() =~= v@.skip(j as int + 1));
        }
        j = j + 1;
    }
    proof {
        assert(skip_ws(v@.skip(j as int)) == v@.skip(j as int));
    }
    j
}

fn e_digits_count(v: &Vec<char>, i: usize) -> (n: usize)
    requires
        i <= v.len(),
    ensures
        n == digits_count(v@.skip(i as int)),
        i + n <= v.len(),
{
    let mut j: usize = i;
    while j < v.len() && 48 <= v[j] as u32 && v[j] as u32 <= 57
        invariant
            i <= j <= v@.len(),
            digits_count(v@.skip(i as int)) == j - i + digits_count(v@.skip(j as int)),
        decreases v@.len() - j,
    {
        proof {
            assert(v@.skip(j as int).drop_first() =~= v@.skip(j as int + 1));
        }
        j = j + 1;
    }
    proof {
        assert(digits_count(v@.skip(j as int)) == 0);
    }
    j - i
}

/// Copy the characters of `v[from..to]` into a fresh string.
fn chars_to_string(v: &Vec<char>, from: usize, to: usize) -> (s: String)
    requires
        from <= to <= v.len(),
    ensures
        s@ == v@.subrange(from as int, to as int),
{
    let mut s = String::new();
    let mut k: usize = from;
    while k < to
        invariant
            from <= k <= to <= v.len(),
            s@ == v@.subrange(from as int, k as int),
        decreases to - k,
    {
        crate::text::push_char(&mut s, v[k]);
        proof {
            assert(v@.subrange(from as int, k as int).push(v@[k as int]) =~= v@.subrange(
                from as int,
                k as int + 1,
            ));
        }
        k = k + 1;
    }
    s
}

fn e_frac_len(v: &Vec<char>, p: usize) -> (r: Option<usize>)
    requires
        p <= v.len(),
    ensures
        r matches Some(f) ==> frac_len(v@.skip(p as int)) == f as int && p + f <= v.len(),
        r is None ==> frac_len(v@.skip(p as int)) < 0,
{
    let ghost s2 = v@.skip(p as int);
    if p < v.len() && v[p] == '.' {
        let fd = e_digits_count(v, p + 1);
        proof {
            assert(v@.skip((p + 1) as int) =~= s2.drop_first());
        }
        if fd == 0 {
            None
        } else {
            Some(1 + fd)
        }
    } else {
        Some(0)
    }
}

fn e_exp_len(v: &Vec<char>, p: usize) -> (r: Option<usize>)
    requires
        p <= v.len(),
    ensures
        r matches Some(f) ==> exp_len(v@.skip(p as int)) == f as int && p + f <= v.len(),
        r is None ==> exp_len(v@.skip(p as int)) < 0,
{
    let ghost s3 = v@.skip(p as int);
    if p < v.len() && (v[p] == 'e' || v[p] == 'E') {
        let esign: usize = if p + 1 < v.len() && (v[p + 1] == '+' || v[p + 1] == '-') {
            1
        } else {
            0
        };
        let ed = e_digits_count(v, p + 1 + esign);
        proof {
            assert(v@.skip((p + 1 + esign) as int) =~= s3.skip(1 + esign as int));
        }
        if ed == 0 {
            None
        } else {
            Some(1 + esign + ed)
        }
    } else {
        Some(0)
    }
}

/// What the whole string-body parse yields once `prefix` has already
/// been read and `s` remains.
pub open spec fn sb_result(prefix: Seq<char>, s: Seq<char>) -> Option<(Seq<char>, Seq<char>)> {
    match parse_string_body(s) {
        Some((t, r)) => Some((prefix + t, r)),
        None => None,
    }
}

proof fn lemma_sb_step(prefix: Seq<char>, c: char, s: Seq<char>, s2: Seq<char>)
    requires
        parse_string_body(s) == (match parse_string_body(s2) {
            Some((t, r)) => Some::<(Seq<char>, Seq<char>)>((seq![c] + t, r)),
            None => None,
        }),
    ensures
        sb_result(prefix, s) == sb_result(prefix.push(c), s2),
{
    match parse_string_body(s2) {
        Some((t, r)) => {
            assert(prefix + (seq![c] + t) =~= prefix.push(c) + t);
        },
        None => {},
    }
}

fn hex_digit(c: char) -> (r: Option<u32>)
    ensures
        r is Some <==> is_hex(c),
        r matches Some(x) ==> x == hex_val(c) && x < 16,
{
    let u = c as u32;
    if 48 <= u && u <= 57 {
        Some(u - 48)
    } else if 97 <= u && u <= 102 {
        Some(u - 97 + 10)
    } else if 65 <= u && u <= 70 {
        Some(u - 65 + 10)
    } else {
        None
    }
}

fn esc_char(e: char) -> (r: Option<char>)
    ensures
        r == escape_char(e),
{
    if e == '"' {
        Some('"')
    } else if e == '\\' {
        Some('\\')
    } else if e == '/' {
        Some('/')
    } else if e == 'b' {
        Some('\u{0008}')
    } else if e == 'f' {
        Some('\u{000c}')
    } else if e == 'n' {
        Some('\n')
    } else if e == 'r' {
        Some('\r')
    } else if e == 't' {
        Some('\t')
    } else {
        None
    }
}

#[verifier::rlimit(50)]
fn e_parse_string_body(v: &Vec<char>, i: usize) -> (r: Option<(String, usize)>)
    requires
        i <= v.len(),
    ensures
        r matches Some((out, j)) ==> i <= j <= v.len() && parse_string_body(v@.skip(i as int))
            == Some((out@, v@.skip(j as int))),
        r is None ==> parse_string_body(v@.skip(i as int)) is None,
{
    let mut out = String::new();
    let mut p: usize = i;
    proof {
        match parse_string_body(v@.skip(i as int)) {
            Some((t, r)) => {
                assert(Seq::<char>::empty() + t =~= t);
            },
            None => {},
        }
    }
    loop
        invariant
            i <= p <= v.len(),
            sb_result(out@, v@.skip(p as int)) == parse_string_body(v@.skip(i as int)),
        decreases v.len() - p,
    {
        if p >= v.len() {
            return None;
        }
        let c = v[p];
        let ghost s = v@.skip(p as int);
        if c == '"' {
            proof {
                assert(s.drop_first() =~= v@.skip(p as int + 1));
                assert(out@ + Seq::<char>::empty() =~= out@);
            }
            return Some((out, p + 1));
        } else if c == '\\' {
            if p + 1 >= v.len() {
                return None;
            }
            let e = v[p + 1];
            if e == 'u' {
                if v.len() - p < 6 {
                    return None;
                }
                let h2 = match hex_digit(v[p + 2]) {
                    Some(x) => x,
                    None => {
                        return None;
                    },
                };
                let h3 = match hex_digit(v[p + 3]) {
                    Some(x) => x,
                    None => {
                        return None;
                    },
                };
                let h4 = match hex_digit(v[p + 4]) {
                    Some(x) => x,
                    None => {
                        return None;
                    },
                };
                let h5 = match hex_digit(v[p + 5]) {
                    Some(x) => x,
                    None => {
                        return None;
                    },
                };
                let val: u32 = h2 * 4096 + h3 * 256 + h4 * 16 + h5;
                if 0xD800 <= val && val < 0xE000 {
                    return None;
                }
                let ch = match crate::text::char_from_u32(val) {
                    Some(ch) => ch,
                    None => {
                        proof {
                            assert(false);
                        }
                        return None;
                    },
                };
                proof {
                    assert(s.skip(6) =~= v@.skip(p as int + 6));
                    lemma_sb_step(out@, ch, s, v@.skip(p as int + 6));
                }
                crate::text::push_char(&mut out, ch);
                p = p + 6;
            } else {
                let ch = match esc_char(e) {
                    Some(ch) => ch,
                    None => {
                        return None;
                    },
                };
                proof {
                    assert(s.skip(2) =~= v@.skip(p as int + 2));
                    lemma_sb_step(out@, ch, s, v@.skip(p as int + 2));
                }
                crate::text::push_char(&mut out, ch);
                p = p + 2;
            }
        } else if (c as u32) < 32 {
            return None;
        } else {
            proof {
                assert(s.drop_first() =~= v@.skip(p as int + 1));
                lemma_sb_step(out@, c, s, v@.skip(p as int + 1));
            }
            crate::text::push_char(&mut out, c);
            p = p + 1;
        }
    }
}

#[verifier::rlimit(50)]
fn e_parse_number_len(v: &Vec<char>, i: usize) -> (r: Option<usize>)
    requires
        i <= v.len(),
    ensures
        r matches Some(l) ==> parse_number_len(v@.skip(i as int)) == Some(l as int) && 1 <= l && i
            + l <= v.len(),
        r is None ==> parse_number_len(v@.skip(i as int)) is None,
{
    let ghost s = v@.skip(i as int);
    let sign: usize = if i < v.len() && v[i] == '-' {
        1
    } else {
        0
    };
    let ghost s1 = s.skip(sign as int);
    proof {
        assert(v@.skip((i + sign) as int) =~= s1);
    }
    if i + sign >= v.len() || !(48 <= v[i + sign] as u32 && v[i + sign] as u32 <= 57) {
        proof {
            assert(s1.len() == 0 || !is_digit(s1[0]));
        }
        return None;
    }
    let ilen: usize = if v[i + sign] == '0' {
        1
    } else {
        e_digits_count(v, i + sign)
    };
    proof {
        lemma_digits_count_bounds(s1.drop_first());
        assert(ilen as int == if s1[0] == '0' {
            1int
        } else {
            digits_count(s1)
        });
        assert(digits_count(s1) >= 1);
    }
    let after_int: usize = i + sign + ilen;
    let ghost s2 = s1.skip(ilen as int);
    proof {
        assert(v@.skip(after_int as int) =~= s2);
    }
    let flen: usize = match e_frac_len(v, after_int) {
        Some(f) => f,
        None => {
            return None;
        },
    };
    let after_frac: usize = after_int + flen;
    let ghost s3 = s2.skip(flen as int);
    proof {
        assert(v@.skip(after_frac as int) =~= s3);
    }
    let elen: usize = match e_exp_len(v, after_frac) {
        Some(f) => f,
        None => {
            return None;
        },
    };
    proof {
        assert(parse_number_len(s) == Some(sign + ilen + flen + elen as int));
    }
    Some(sign + ilen + flen + elen)
}

/// An array value's model is the model sequence of its items.
pub proof fn lemma_arr_model(items: Vec<JsonValue>)
    ensures
        JsonValue::Arr(items).model() == JsonVal::Arr(models_of(items@)),
{
    let m = JsonValue::Arr(items).model();
    assert(m is Arr);
    assert(m->Arr_0 =~= models_of(items@));
}

/// An object value's model is the model sequence of its fields.
pub proof fn lemma_obj_model(fields: Vec<(String, JsonValue)>)
    ensures
        JsonValue::Obj(fields).model() == JsonVal::Obj(field_models_of(fields@)),
{
    let m = JsonValue::Obj(fields).model();
    assert(m is Obj);
    assert(m->Obj_0 =~= field_models_of(fields@));
}

proof fn lemma_models_push(items: Seq<JsonValue>, x: JsonValue)
    ensures
        models_of(items.push(x)) =~= models_of(items) + seq![x.model()],
{
}

proof fn lemma_field_models_push(fields: Seq<(String, JsonValue)>, k: String, x: JsonValue)
    ensures
        field_models_of(fields.push((k, x))) =~= field_models_of(fields) + seq![(k@, x.model())],
{
}

#[verifier::rlimit(100)]
fn e_parse_value(v: &Vec<char>, i: usize) -> (r: Option<(JsonValue, usize)>)
    requires
        i <= v.len(),
    ensures
        r matches Some((jv, j)) ==> i < j <= v.len() && parse_value(v@.skip(i as int)) == Some(
            (jv.model(), v@.skip(j as int)),
        ),
        r is None ==> parse_value(v@.skip(i as int)) is None,
    decreases v.len() - i, 0int,
{
    let ghost s = v@.skip(i as int);
    if i >= v.len() {
        return None;
    }
    let c = v[i];
    if c == 'n' {
        if v.len() - i >= 4 && v[i + 1] == 'u' && v[i + 2] == 'l' && v[i + 3] == 'l' {
            proof {
                assert(s.take(4) =~= seq!['n', 'u', 'l', 'l']);
                assert(s.skip(4) =~= v@.skip(i as int + 4));
            }
            Some((JsonValue::Null, i + 4))
        } else {
            proof {
                if has_prefix(s, seq!['n', 'u', 'l', 'l']) {
                    assert(s.take(4)[1] == v@[i as int + 1]);
                    assert(s.take(4)[2] == v@[i as int + 2]);
                    assert(s.take(4)[3] == v@[i as int + 3]);
                    assert(false);
                }
            }
            None
        }
    } else if c == 't' {
        if v.len() - i >= 4 && v[i + 1] == 'r' && v[i + 2] == 'u' && v[i + 3] == 'e' {
            proof {
                assert(s.take(4) =~= seq!['t', 'r', 'u', 'e']);
                assert(s.skip(4) =~= v@.skip(i as int + 4));
            }
            Some((JsonValue::Bool(true), i + 4))
        } else {
            proof {
                if has_prefix(s, seq!['t', 'r', 'u', 'e']) {
                    assert(s.take(4)[1] == v@[i as int + 1]);
                    assert(s.take(4)[2] == v@[i as int + 2]);
                    assert(s.take(4)[3] == v@[i as int + 3]);
                    assert(false);
                }
            }
            None
        }
    } else if c == 'f' {
        if v.len() - i >= 5 && v[i + 1] == 'a' && v[i + 2] == 'l' && v[i + 3] == 's' && v[i + 4]
            == 'e' {
            proof {
                assert(s.take(5) =~= seq!['f', 'a', 'l', 's', 'e']);
                assert(s.skip(5) =~= v@.skip(i as int + 5));
            }
            Some((JsonValue::Bool(false), i + 5))
        } else {
            proof {
                if has_prefix(s, seq!['f', 'a', 'l', 's', 'e']) {
                    assert(s.take(5)[1] == v@[i as int + 1]);
                    assert(s.take(5)[2] == v@[i as int + 2]);
                    assert(s.take(5)[3] == v@[i as int + 3]);
                    assert(s.take(5)[4] == v@[i as int + 4]);
                    assert(false);
                }
            }
            None
        }
    } else if c == '"' {
        proof {
            assert(s.drop_first() =~= v@.skip(i as int + 1));
        }
        match e_parse_string_body(v, i + 1) {
            Some((out, j)) => Some((JsonValue::Str(out), j)),
            None => None,
        }
    } else if c == '-' || (48 <= c as u32 && c as u32 <= 57) {
        match e_parse_number_len(v, i) {
            Some(l) => {
                let lex = chars_to_string(v, i, i + l);
                proof {
                    assert(s.take(l as int) =~= v@.subrange(i as int, i as int + l));
                    assert(s.skip(l as int) =~= v@.skip(i as int + l));
                }
                Some((JsonValue::Num(lex), i + l))
            },
            None => None,
        }
    } else if c == '[' {
        proof {
            assert(s.drop_first() =~= v@.skip(i as int + 1));
        }
        let w = e_skip_ws(v, i + 1);
        if w < v.len() && v[w] == ']' {
            let items: Vec<JsonValue> = Vec::new();
            proof {
                assert(models_of(items@) =~= Seq::<JsonVal>::empty());
                lemma_arr_model(items);
                assert(v@.skip(w as int).drop_first() =~= v@.skip(w as int + 1));
            }
            Some((JsonValue::Arr(items), w + 1))
        } else {
            proof {
                assert(skip_ws(v@.skip(i as int + 1)) == v@.skip(w as int));
            }
            match e_parse_arr_items(v, i + 1) {
                Some((items, j)) => {
                    proof {
                        lemma_arr_model(items);
                    }
                    Some((JsonValue::Arr(items), j))
                },
                None => None,
            }
        }
    } else if c == '{' {
        proof {
            assert(s.drop_first() =~= v@.skip(i as int + 1));
        }
        let w = e_skip_ws(v, i + 1);
        if w < v.len() && v[w] == '}' {
            let fields: Vec<(String, JsonValue)> = Vec::new();
            proof {
                assert(field_models_of(fields@) =~= Seq::<(Seq<char>, JsonVal)>::empty());
                lemma_obj_model(fields);
                assert(v@.skip(w as int).drop_first() =~= v@.skip(w as int + 1));
            }
            Some((JsonValue::Obj(fields), w + 1))
        } else {
            proof {
                assert(skip_ws(v@.skip(i as int + 1)) == v@.skip(w as int));
            }
            match e_parse_obj_items(v, i + 1) {
                Some((fields, j)) => {
                    proof {
                        lemma_obj_model(fields);
                    }
                    Some((JsonValue::Obj(fields), j))
                },
                None => None,
            }
        }
    } else {
        None
    }
}

#[verifier::rlimit(100)]
fn e_parse_arr_items(v: &Vec<char>, i: usize) -> (r: Option<(Vec<JsonValue>, usize)>)
    requires
        i <= v.len(),
    ensures
        r matches Some((items, j)) ==> i <= j <= v.len() && parse_arr_items(v@.skip(i as int))
            == Some((models_of(items@), v@.skip(j as int))),
        r is None ==> parse_arr_items(v@.skip(i as int)) is None,
    decreases v.len() - i, 1int,
{
    let mut acc: Vec<JsonValue> = Vec::new();
    let mut p: usize = i;
    proof {
        match parse_arr_items(v@.skip(i as int)) {
            Some((vs, r)) => {
                assert(models_of(Seq::<JsonValue>::empty()) + vs =~= vs);
            },
            None => {},
        }
    }
    loop
        invariant
            i <= p <= v.len(),
            parse_arr_items(v@.skip(i as int)) == (match parse_arr_items(v@.skip(p as int)) {
                Some((vs, r)) => Some::<(Seq<JsonVal>, Seq<char>)>((models_of(acc@) + vs, r)),
                None => None,
            }),
        decreases v.len() - p,
    {
        let t = e_skip_ws(v, p);
        proof {
            lemma_skip_ws_len(v@.skip(p as int));
        }
        match e_parse_value(v, t) {
            None => {
                return None;
            },
            Some((jv, j)) => {
                let t2 = e_skip_ws(v, j);
                if t2 < v.len() && v[t2] == ',' {
                    proof {
                        assert(v@.skip(t2 as int).drop_first() =~= v@.skip(t2 as int + 1));
                        lemma_models_push(acc@, jv);
                        match parse_arr_items(v@.skip(t2 as int + 1)) {
                            Some((vs2, r3)) => {
                                assert(models_of(acc@) + (seq![jv.model()] + vs2) =~= models_of(
                                    acc@.push(jv),
                                ) + vs2);
                            },
                            None => {},
                        }
                    }
                    acc.push(jv);
                    p = t2 + 1;
                } else if t2 < v.len() && v[t2] == ']' {
                    proof {
                        assert(v@.skip(t2 as int).drop_first() =~= v@.skip(t2 as int + 1));
                        lemma_models_push(acc@, jv);
                        assert(models_of(acc@) + seq![jv.model()] =~= models_of(acc@.push(jv)));
                    }
                    acc.push(jv);
                    return Some((acc, t2 + 1));
                } else {
                    return None;
                }
            },
        }
    }
}

#[verifier::rlimit(100)]
fn e_parse_obj_items(v: &Vec<char>, i: usize) -> (r: Option<(Vec<(String, JsonValue)>, usize)>)
    requires
        i <= v.len(),
    ensures
        r matches Some((fields, j)) ==> i <= j <= v.len() && parse_obj_items(v@.skip(i as int))
            == Some((field_models_of(fields@), v@.skip(j as int))),
        r is None ==> parse_obj_items(v@.skip(i as int)) is None,
    decreases v.len() - i, 1int,
{
    let mut acc: Vec<(String, JsonValue)> = Vec::new();
    let mut p: usize = i;
    proof {
        match parse_obj_items(v@.skip(i as int)) {
            Some((kvs, r)) => {
                assert(field_models_of(Seq::<(String, JsonValue)>::empty()) + kvs =~= kvs);
            },
            None => {},
        }
    }
    loop
        invariant
            i <= p <= v.len(),
            parse_obj_items(v@.skip(i as int)) == (match parse_obj_items(v@.skip(p as int)) {
                Some((kvs, r)) => Some::<(Seq<(Seq<char>, JsonVal)>, Seq<char>)>(
                    (field_models_of(acc@) + kvs, r),
                ),
                None => None,
            }),
        decreases v.len() - p,
    {
        let t = e_skip_ws(v, p);
        if !(t < v.len() && v[t] == '"') {
            return None;
        }
        proof {
            assert(v@.skip(t as int).drop_first() =~= v@.skip(t as int + 1));
        }
        match e_parse_string_body(v, t + 1) {
            None => {
                return None;
            },
            Some((key, r)) => {
                let r1 = e_skip_ws(v, r);
                if !(r1 < v.len() && v[r1] == ':') {
                    return None;
                }
                proof {
                    assert(v@.skip(r1 as int).drop_first() =~= v@.skip(r1 as int + 1));
                }
                let r2 = e_skip_ws(v, r1 + 1);
                match e_parse_value(v, r2) {
                    None => {
                        return None;
                    },
                    Some((val, r3)) => {
                        let r4 = e_skip_ws(v, r3);
                        if r4 < v.len() && v[r4] == ',' {
                            proof {
                                assert(v@.skip(r4 as int).drop_first() =~= v@.skip(
                                    r4 as int + 1,
                                ));
                                lemma_field_models_push(acc@, key, val);
                                match parse_obj_items(v@.skip(r4 as int + 1)) {
                                    Some((kvs2, r6)) => {
                                        assert(field_models_of(acc@) + (seq![(key@, val.model())]
                                            + kvs2) =~= field_models_of(acc@.push((key, val)))
                                            + kvs2);
                                    },
                                    None => {},
                                }
                            }
                            acc.push((key, val));
                            p = r4 + 1;
                        } else if r4 < v.len() && v[r4] == '}' {
                            proof {
                                assert(v@.skip(r4 as int).drop_first() =~= v@.skip(
                                    r4 as int + 1,
                                ));
                                lemma_field_models_push(acc@, key, val);
                                assert(field_models_of(acc@) + seq![(key@, val.model())]
                                    =~= field_models_of(acc@.push((key, val))));
                            }
                            acc.push((key, val));
                            return Some((acc, r4 + 1));
                        } else {
                            return None;
                        }
                    },
                }
            },
        }
    }
}

/// Parse a whole text as one JSON value, exactly as
/// [`spec_parse_json`] says: anything but one value surrounded by
/// whitespace is rejected.
pub fn parse_json(v: &Vec<char>) -> (r: Option<JsonValue>)
    ensures
        r matches Some(jv) ==> spec_parse_json(v@) == Some(jv.model()),
        r is None ==> spec_parse_json(v@) is None,
{
    proof {
        assert(v@.skip(0) =~= v@);
    }
    let t = e_skip_ws(v, 0);
    match e_parse_value(v, t) {
        Some((jv, j)) => {
            let t2 = e_skip_ws(v, j);
            if t2 == v.len() {
                proof {
                    assert(v@.skip(t2 as int).len() == 0);
                }
                Some(jv)
            } else {
                proof {
                    assert(v@.skip(t2 as int).len() > 0);
                }
                None
            }
        },
        None => None,
    }
}

} // verus!
