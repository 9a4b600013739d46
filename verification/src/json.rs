//! JSON values, parsing and serialization: the grammar the body normalizer
//! understands, written against a specification-level model of JSON trees.

use vstd::prelude::*;
use vstd::string::StringExecFns;

use crate::cache::store::spec_lookup;
use crate::text::chars_of;
use crate::text::digit_char_of;
use crate::text::digit_of;
use crate::text::digit_val;
use crate::text::is_digit_char;
use crate::text::push_char;
use crate::text::spec_starts_with;
use crate::text::string_of;
use crate::text::subrange_chars;

verus! {

broadcast use vstd::seq::axiom_seq_index_decreases, vstd::std_specs::vec::axiom_vec_index_decreases, vstd::std_specs::vec::axiom_vec_decreases_to_view;

/// A JSON document tree. Numbers keep their literal token text, so any
/// numeric value round-trips unchanged; strings hold decoded text.
#[derive(Debug)]
pub enum Json {
    /// `null`
    Null,
    /// `true` or `false`
    Bool(bool),
    /// A number, as its literal token text.
    Num(String),
    /// A string, with escapes decoded.
    Str(String),
    /// An array, in document order.
    Arr(Vec<Json>),
    /// An object, members in document order, a later duplicate key replacing
    /// an earlier one.
    Obj(Vec<(String, Json)>),
}

/// Specification-level JSON tree.
pub enum JsonModel {
    /// `null`
    Null,
    /// `true` or `false`
    Bool(bool),
    /// A number token.
    Num(Seq<char>),
    /// Decoded string contents.
    Str(Seq<char>),
    /// Array elements.
    Arr(Seq<JsonModel>),
    /// Object members.
    Obj(Seq<(Seq<char>, JsonModel)>),
}

/// View of an executable JSON tree.
pub open spec fn json_view(j: Json) -> JsonModel
    decreases j,
{
    match j {
        Json::Null => JsonModel::Null,
        Json::Bool(b) => JsonModel::Bool(b),
        Json::Num(t) => JsonModel::Num(t@),
        Json::Str(s) => JsonModel::Str(s@),
        Json::Arr(v) => JsonModel::Arr(jsons_view(v@)),
        Json::Obj(v) => JsonModel::Obj(members_view(v@)),
    }
}

/// Element-wise view of a list of JSON trees.
pub open spec fn jsons_view(v: Seq<Json>) -> Seq<JsonModel>
    decreases v,
{
    Seq::new(
        v.len(),
        |i: int|
            if 0 <= i < v.len() {
                json_view(v[i])
            } else {
                JsonModel::Null
            },
    )
}

/// Element-wise view of a list of object members.
pub open spec fn members_view(v: Seq<(String, Json)>) -> Seq<(Seq<char>, JsonModel)>
    decreases v,
{
    Seq::new(
        v.len(),
        |i: int|
            if 0 <= i < v.len() {
                (v[i].0@, json_view(v[i].1))
            } else {
                (Seq::empty(), JsonModel::Null)
            },
    )
}

/// A lowercase hexadecimal digit.
pub open spec fn hex_digit_char(d: int) -> char {
    if d < 10 {
        digit_char_of(d)
    } else if d == 10 {
        'a'
    } else if d == 11 {
        'b'
    } else if d == 12 {
        'c'
    } else if d == 13 {
        'd'
    } else if d == 14 {
        'e'
    } else {
        'f'
    }
}

/// How one character appears inside a serialized JSON string: quote,
/// backslash and control characters are escaped, the five named controls by
/// their short forms, any other control as `\u00XX`.
pub open spec fn esc_char(c: char) -> Seq<char> {
    if c == '"' {
        "\\\""@
    } else if c == '\\' {
        "\\\\"@
    } else if c == '\u{8}' {
        "\\b"@
    } else if c == '\u{c}' {
        "\\f"@
    } else if c == '\n' {
        "\\n"@
    } else if c == '\r' {
        "\\r"@
    } else if c == '\t' {
        "\\t"@
    } else if (c as int) < 0x20 {
        "\\u00"@ + seq![hex_digit_char((c as int) / 16), hex_digit_char((c as int) % 16)]
    } else {
        seq![c]
    }
}

/// A string's characters, escaped for serialization.
pub open spec fn esc_string(s: Seq<char>) -> Seq<char>
    decreases s.len(),
{
    if s.len() == 0 {
        Seq::empty()
    } else {
        esc_char(s[0]) + esc_string(s.drop_first())
    }
}

/// The serialized text of a JSON tree: compact, no added whitespace, members
/// and elements in order.
pub open spec fn json_text(m: JsonModel) -> Seq<char>
    decreases m,
{
    match m {
        JsonModel::Null => "null"@,
        JsonModel::Bool(b) => if b {
            "true"@
        } else {
            "false"@
        },
        JsonModel::Num(t) => t,
        JsonModel::Str(s) => "\""@ + esc_string(s) + "\""@,
        JsonModel::Arr(elems) => "["@ + arr_text(elems) + "]"@,
        JsonModel::Obj(members) => "{"@ + obj_text(members) + "}"@,
    }
}

/// Array elements serialized, comma-separated.
pub open spec fn arr_text(elems: Seq<JsonModel>) -> Seq<char>
    decreases elems,
{
    if elems.len() == 0 {
        Seq::empty()
    } else if elems.len() == 1 {
        json_text(elems[0])
    } else {
        arr_text(elems.drop_last()) + ","@ + json_text(elems.last())
    }
}

/// Object members serialized, comma-separated `"key":value` pairs.
pub open spec fn obj_text(members: Seq<(Seq<char>, JsonModel)>) -> Seq<char>
    decreases members,
{
    if members.len() == 0 {
        Seq::empty()
    } else if members.len() == 1 {
        member_text(members[0])
    } else {
        obj_text(members.drop_last()) + ","@ + member_text(members.last())
    }
}

/// One serialized object member.
pub open spec fn member_text(m: (Seq<char>, JsonModel)) -> Seq<char>
    decreases m,
{
    "\""@ + esc_string(m.0) + "\":"@ + json_text(m.1)
}

/// Writes the two hex digits of a control character below `0x20`.
fn ctrl_hex(c: char) -> (r: (char, char))
    requires
        (c as int) < 0x20,
    ensures
        r.0 == hex_digit_char((c as int) / 16),
        r.1 == hex_digit_char((c as int) % 16),
{
    if c == '\u{0}' {
        ('0', '0')
    } else if c == '\u{1}' {
        ('0', '1')
    } else if c == '\u{2}' {
        ('0', '2')
    } else if c == '\u{3}' {
        ('0', '3')
    } else if c == '\u{4}' {
        ('0', '4')
    } else if c == '\u{5}' {
        ('0', '5')
    } else if c == '\u{6}' {
        ('0', '6')
    } else if c == '\u{7}' {
        ('0', '7')
    } else if c == '\u{8}' {
        ('0', '8')
    } else if c == '\u{9}' {
        ('0', '9')
    } else if c == '\u{a}' {
        ('0', 'a')
    } else if c == '\u{b}' {
        ('0', 'b')
    } else if c == '\u{c}' {
        ('0', 'c')
    } else if c == '\u{d}' {
        ('0', 'd')
    } else if c == '\u{e}' {
        ('0', 'e')
    } else if c == '\u{f}' {
        ('0', 'f')
    } else if c == '\u{10}' {
        ('1', '0')
    } else if c == '\u{11}' {
        ('1', '1')
    } else if c == '\u{12}' {
        ('1', '2')
    } else if c == '\u{13}' {
        ('1', '3')
    } else if c == '\u{14}' {
        ('1', '4')
    } else if c == '\u{15}' {
        ('1', '5')
    } else if c == '\u{16}' {
        ('1', '6')
    } else if c == '\u{17}' {
        ('1', '7')
    } else if c == '\u{18}' {
        ('1', '8')
    } else if c == '\u{19}' {
        ('1', '9')
    } else if c == '\u{1a}' {
        ('1', 'a')
    } else if c == '\u{1b}' {
        ('1', 'b')
    } else if c == '\u{1c}' {
        ('1', 'c')
    } else if c == '\u{1d}' {
        ('1', 'd')
    } else if c == '\u{1e}' {
        ('1', 'e')
    } else {
        assert(c == '\u{1f}');
        ('1', 'f')
    }
}

/// Appends one string character in escaped form.
fn push_escaped(out: &mut String, c: char)
    ensures
        final (out)@ == old(out)@ + esc_char(c),
{
    if c == '"' {
        out.append("\\\"");
    } else if c == '\\' {
        out.append("\\\\");
    } else if c == '\u{8}' {
        out.append("\\b");
    } else if c == '\u{c}' {
        out.append("\\f");
    } else if c == '\n' {
        out.append("\\n");
    } else if c == '\r' {
        out.append("\\r");
    } else if c == '\t' {
        out.append("\\t");
    } else if '\u{20}' > c {
        let hex = ctrl_hex(c);
        out.append("\\u00");
        push_char(out, hex.0);
        push_char(out, hex.1);
        assert(out@ =~= old(out)@ + esc_char(c));
    } else {
        push_char(out, c);
        assert(out@ =~= old(out)@ + esc_char(c));
    }
}

/// Appends a string's characters in escaped form.
fn push_escaped_str(out: &mut String, s: &str)
    ensures
        final (out)@ == old(out)@ + esc_string(s@),
{
    let v = chars_of(s);
    let mut i: usize = 0;
    proof {
        assert(s@.skip(0) =~= s@);
        assert(esc_string(s@.skip(0)) == esc_string(s@));
    }
    while i < v.len()
        invariant
            i <= v@.len(),
            v@ == s@,
            out@ + esc_string(s@.skip(i as int)) == old(out)@ + esc_string(s@),
        decreases v@.len() - i,
    {
        assert(s@.skip(i as int)[0] == s@[i as int]);
        push_escaped(out, v[i]);
        assert(s@.skip(i as int).drop_first() =~= s@.skip(i as int + 1));
        i = i + 1;
    }
    assert(esc_string(s@.skip(s@.len() as int)) =~= Seq::<char>::empty());
    assert(out@ =~= old(out)@ + esc_string(s@));
}

/// Appends the serialized text of a JSON tree.
fn write_json(j: &Json, out: &mut String)
    ensures
        final (out)@ == old(out)@ + json_text(json_view(*j)),
    decreases *j,
{
    match j {
        Json::Null => {
            out.append("null");
        },
        Json::Bool(b) => {
            if *b {
                out.append("true");
            } else {
                out.append("false");
            }
        },
        Json::Num(t) => {
            out.append(t.as_str());
        },
        Json::Str(s) => {
            out.append("\"");
            push_escaped_str(out, s.as_str());
            out.append("\"");
            assert(out@ =~= old(out)@ + json_text(json_view(*j)));
        },
        Json::Arr(v) => {
            out.append("[");
            let ghost elems = json_view(*j)->Arr_0;
            let ghost base = out@;
            let mut i: usize = 0;
            proof {
                assert(arr_text(elems.take(0)) =~= Seq::<char>::empty());
                assert(out@ =~= base + arr_text(elems.take(0)));
            }
            while i < v.len()
                invariant
                    *j == Json::Arr(*v),
                    i <= v@.len(),
                    elems.len() == v@.len(),
                    forall|k: int| 0 <= k < v@.len() ==> elems[k] == json_view(#[trigger] v@[k]),
                    out@ == base + arr_text(elems.take(i as int)),
                decreases v@.len() - i,
            {
                if i > 0 {
                    out.append(",");
                }
                proof {
                    assert(decreases_to!(*j => j->Arr_0));
                    assert(j->Arr_0 == *v);
                    assert(decreases_to!(*v => v@[i as int]));
                }
                write_json(&v[i], out);
                proof {
                    assert(elems.take(i as int + 1).drop_last() =~= elems.take(i as int));
                    assert(elems.take(i as int + 1).last() == elems[i as int]);
                    if i == 0 {
                        assert(elems.take(1) =~= seq![elems[0]]);
                        assert(arr_text(elems.take(1)) == json_text(elems[0]));
                    }
                    assert(out@ =~= base + arr_text(elems.take(i as int + 1)));
                }
                i = i + 1;
            }
            proof {
                assert(elems.take(elems.len() as int) =~= elems);
            }
            out.append("]");
            assert(out@ =~= old(out)@ + json_text(json_view(*j)));
        },
        Json::Obj(v) => {
            out.append("{");
            let ghost members = json_view(*j)->Obj_0;
            let ghost base = out@;
            let mut i: usize = 0;
            proof {
                assert(obj_text(members.take(0)) =~= Seq::<char>::empty());
                assert(out@ =~= base + obj_text(members.take(0)));
            }
            while i < v.len()
                invariant
                    *j == Json::Obj(*v),
                    i <= v@.len(),
                    members.len() == v@.len(),
                    forall|k: int|
                        0 <= k < v@.len() ==> members[k] == ((#[trigger] v@[k]).0@, json_view(
                            v@[k].1,
                        )),
                    out@ == base + obj_text(members.take(i as int)),
                decreases v@.len() - i,
            {
                if i > 0 {
                    out.append(",");
                }
                let entry = &v[i];
                out.append("\"");
                push_escaped_str(out, entry.0.as_str());
                out.append("\":");
                proof {
                    assert(decreases_to!(*j => j->Obj_0));
                    assert(j->Obj_0 == *v);
                    assert(decreases_to!(*v => v@[i as int]));
                    assert(decreases_to!(v@[i as int] => v@[i as int].1));
                }
                write_json(&entry.1, out);
                proof {
                    assert(members.take(i as int + 1).drop_last() =~= members.take(i as int));
                    assert(members.take(i as int + 1).last() == members[i as int]);
                    let m = members[i as int];
                    assert(m == (v@[i as int].0@, json_view(v@[i as int].1)));
                    assert(m.0 == v@[i as int].0@);
                    assert(member_text(m) == "\""@ + esc_string(m.0) + "\":"@ + json_text(m.1));
                    if i == 0 {
                        assert(members.take(1) =~= seq![members[0]]);
                        assert(obj_text(members.take(1)) == member_text(members[0]));
                    } else {
                        assert(obj_text(members.take(i as int + 1)) == obj_text(
                            members.take(i as int),
                        ) + ","@ + member_text(m));
                    }
                    assert(out@ =~= base + obj_text(members.take(i as int + 1)));
                }
                i = i + 1;
            }
            proof {
                assert(members.take(members.len() as int) =~= members);
            }
            out.append("}");
            assert(out@ =~= old(out)@ + json_text(json_view(*j)));
        },
    }
}

/// The whitespace JSON allows between tokens.
pub open spec fn json_ws(c: char) -> bool {
    c == ' ' || c == '\t' || c == '\n' || c == '\r'
}

/// The input without its leading JSON whitespace.
pub open spec fn sp_skip_ws(s: Seq<char>) -> Seq<char>
    decreases s.len(),
{
    if s.len() > 0 && json_ws(s[0]) {
        sp_skip_ws(s.drop_first())
    } else {
        s
    }
}

pub proof fn lemma_skip_ws_len(s: Seq<char>)
    ensures
        sp_skip_ws(s).len() <= s.len(),
    decreases s.len(),
{
    if s.len() > 0 && json_ws(s[0]) {
        lemma_skip_ws_len(s.drop_first());
    }
}

pub open spec fn is_hex_digit(c: char) -> bool {
    is_digit_char(c) || (0x61 <= (c as int) && (c as int) <= 0x66) || (0x41 <= (c as int) && (
    c as int) <= 0x46)
}

pub open spec fn hex_val(c: char) -> int {
    if is_digit_char(c) {
        digit_val(c)
    } else if 0x61 <= (c as int) && (c as int) <= 0x66 {
        (c as int) - 0x57
    } else {
        (c as int) - 0x37
    }
}

/// The input without its leading decimal digits.
pub open spec fn skip_digits(s: Seq<char>) -> Seq<char>
    decreases s.len(),
{
    if s.len() > 0 && is_digit_char(s[0]) {
        skip_digits(s.drop_first())
    } else {
        s
    }
}

pub proof fn lemma_skip_digits_len(s: Seq<char>)
    ensures
        skip_digits(s).len() <= s.len(),
    decreases s.len(),
{
    if s.len() > 0 && is_digit_char(s[0]) {
        lemma_skip_digits_len(s.drop_first());
    }
}

/// What follows a number's sign and integer part: a leading zero stands
/// alone, any other run of digits is taken whole.
pub open spec fn sp_int_rest(s: Seq<char>) -> Option<Seq<char>> {
    let a = if s.len() > 0 && s[0] == '-' {
        s.drop_first()
    } else {
        s
    };
    if a.len() == 0 || !is_digit_char(a[0]) {
        None
    } else if a[0] == '0' {
        Some(a.drop_first())
    } else {
        Some(skip_digits(a))
    }
}

/// What follows an optional fraction part: a dot must be followed by at
/// least one digit.
pub open spec fn sp_frac_rest(s: Seq<char>) -> Option<Seq<char>> {
    if s.len() >= 1 && s[0] == '.' {
        if s.len() >= 2 && is_digit_char(s[1]) {
            Some(skip_digits(s.skip(1)))
        } else {
            None
        }
    } else {
        Some(s)
    }
}

/// What follows an optional exponent part: `e`/`E`, an optional sign, then
/// at least one digit.
pub open spec fn sp_exp_rest(s: Seq<char>) -> Option<Seq<char>> {
    if s.len() >= 1 && (s[0] == 'e' || s[0] == 'E') {
        let t = s.drop_first();
        let u = if t.len() > 0 && (t[0] == '+' || t[0] == '-') {
            t.drop_first()
        } else {
            t
        };
        if u.len() > 0 && is_digit_char(u[0]) {
            Some(skip_digits(u))
        } else {
            None
        }
    } else {
        Some(s)
    }
}

/// A number token and what follows it.
pub open spec fn sp_number(s: Seq<char>) -> Option<(Seq<char>, Seq<char>)> {
    match sp_int_rest(s) {
        None => None,
        Some(r1) => match sp_frac_rest(r1) {
            None => None,
            Some(r2) => match sp_exp_rest(r2) {
                None => None,
                Some(r3) => if r3.len() <= s.len() {
                    Some((s.take(s.len() - r3.len()), r3))
                } else {
                    None
                },
            },
        },
    }
}

pub proof fn lemma_sp_number_progress(s: Seq<char>)
    ensures
        match sp_number(s) {
            Some(p) => p.1.len() < s.len(),
            None => true,
        },
{
    match sp_int_rest(s) {
        None => {},
        Some(r1) => {
            let a = if s.len() > 0 && s[0] == '-' {
                s.drop_first()
            } else {
                s
            };
            lemma_skip_digits_len(a.drop_first());
            if a.len() > 0 && is_digit_char(a[0]) && a[0] != '0' {
                assert(skip_digits(a) == skip_digits(a.drop_first()));
            }
            assert(r1.len() < s.len());
            match sp_frac_rest(r1) {
                None => {},
                Some(r2) => {
                    if r1.len() >= 1 && r1[0] == '.' {
                        lemma_skip_digits_len(r1.skip(1));
                    }
                    assert(r2.len() <= r1.len());
                    match sp_exp_rest(r2) {
                        None => {},
                        Some(r3) => {
                            if r2.len() >= 1 && (r2[0] == 'e' || r2[0] == 'E') {
                                let t = r2.drop_first();
                                let u = if t.len() > 0 && (t[0] == '+' || t[0] == '-') {
                                    t.drop_first()
                                } else {
                                    t
                                };
                                lemma_skip_digits_len(u);
                            }
                            assert(r3.len() <= r2.len());
                        },
                    }
                },
            }
        },
    }
}

/// A string body after its opening quote: the decoded contents and what
/// follows the closing quote. Escapes are decoded, a `\uXXXX` high surrogate
/// must pair with a following low one, and raw control characters are
/// rejected.
pub open spec fn sp_string(s: Seq<char>) -> Option<(Seq<char>, Seq<char>)>
    decreases s.len(),
{
    if s.len() == 0 {
        None
    } else if s[0] == '"' {
        Some((Seq::empty(), s.drop_first()))
    } else if s[0] == '\\' {
        if s.len() < 2 {
            None
        } else {
            let e = s[1];
            if e == '"' || e == '\\' || e == '/' {
                match sp_string(s.skip(2)) {
                    Some(p) => Some((seq![e] + p.0, p.1)),
                    None => None,
                }
            } else if e == 'b' {
                match sp_string(s.skip(2)) {
                    Some(p) => Some((seq!['\u{8}'] + p.0, p.1)),
                    None => None,
                }
            } else if e == 'f' {
                match sp_string(s.skip(2)) {
                    Some(p) => Some((seq!['\u{c}'] + p.0, p.1)),
                    None => None,
                }
            } else if e == 'n' {
                match sp_string(s.skip(2)) {
                    Some(p) => Some((seq!['\n'] + p.0, p.1)),
                    None => None,
                }
            } else if e == 'r' {
                match sp_string(s.skip(2)) {
                    Some(p) => Some((seq!['\r'] + p.0, p.1)),
                    None => None,
                }
            } else if e == 't' {
                match sp_string(s.skip(2)) {
                    Some(p) => Some((seq!['\t'] + p.0, p.1)),
                    None => None,
                }
            } else if e == 'u' {
                if s.len() < 6 || !(is_hex_digit(s[2]) && is_hex_digit(s[3]) && is_hex_digit(s[4])
                    && is_hex_digit(s[5])) {
                    None
                } else {
                    let cp = hex_val(s[2]) * 0x1000 + hex_val(s[3]) * 0x100 + hex_val(s[4]) * 0x10
                        + hex_val(s[5]);
                    if 0xd800 <= cp && cp < 0xdc00 {
                        if s.len() < 12 || !(s[6] == '\\' && s[7] == 'u' && is_hex_digit(s[8])
                            && is_hex_digit(s[9]) && is_hex_digit(s[10]) && is_hex_digit(s[11])) {
                            None
                        } else {
                            let cp2 = hex_val(s[8]) * 0x1000 + hex_val(s[9]) * 0x100 + hex_val(
                                s[10],
                            ) * 0x10 + hex_val(s[11]);
                            if 0xdc00 <= cp2 && cp2 < 0xe000 {
                                let v = 0x10000 + (cp - 0xd800) * 0x400 + (cp2 - 0xdc00);
                                match sp_string(s.skip(12)) {
                                    Some(p) => Some((seq![v as char] + p.0, p.1)),
                                    None => None,
                                }
                            } else {
                                None
                            }
                        }
                    } else if 0xdc00 <= cp && cp < 0xe000 {
                        None
                    } else {
                        match sp_string(s.skip(6)) {
                            Some(p) => Some((seq![cp as char] + p.0, p.1)),
                            None => None,
                        }
                    }
                }
            } else {
                None
            }
        }
    } else if (s[0] as int) < 0x20 {
        None
    } else {
        match sp_string(s.drop_first()) {
            Some(p) => Some((seq![s[0]] + p.0, p.1)),
            None => None,
        }
    }
}

pub proof fn lemma_sp_string_progress(s: Seq<char>)
    ensures
        match sp_string(s) {
            Some(p) => p.1.len() < s.len(),
            None => true,
        },
    decreases s.len(),
{
    if s.len() > 0 && s[0] != '"' {
        if s[0] == '\\' && s.len() >= 2 {
            lemma_sp_string_progress(s.skip(2));
            if s.len() >= 6 {
                lemma_sp_string_progress(s.skip(6));
            }
            if s.len() >= 12 {
                lemma_sp_string_progress(s.skip(12));
            }
        }
        lemma_sp_string_progress(s.drop_first());
    }
}

/// A JSON value after optional whitespace, and what follows it.
pub open spec fn sp_value(s: Seq<char>) -> Option<(JsonModel, Seq<char>)>
    decreases s.len(), 0int,
{
    let t = sp_skip_ws(s);
    if t.len() > s.len() || t.len() == 0 {
        None
    } else if t[0] == 'n' {
        if spec_starts_with(t, "null"@) {
            Some((JsonModel::Null, t.skip(4)))
        } else {
            None
        }
    } else if t[0] == 't' {
        if spec_starts_with(t, "true"@) {
            Some((JsonModel::Bool(true), t.skip(4)))
        } else {
            None
        }
    } else if t[0] == 'f' {
        if spec_starts_with(t, "false"@) {
            Some((JsonModel::Bool(false), t.skip(5)))
        } else {
            None
        }
    } else if t[0] == '"' {
        match sp_string(t.skip(1)) {
            Some(p) => Some((JsonModel::Str(p.0), p.1)),
            None => None,
        }
    } else if t[0] == '[' {
        let u = sp_skip_ws(t.skip(1));
        if u.len() + 1 > t.len() {
            None
        } else if u.len() > 0 && u[0] == ']' {
            Some((JsonModel::Arr(Seq::empty()), u.skip(1)))
        } else {
            match sp_elems(t.skip(1)) {
                Some(p) => Some((JsonModel::Arr(p.0), p.1)),
                None => None,
            }
        }
    } else if t[0] == '{' {
        let u = sp_skip_ws(t.skip(1));
        if u.len() + 1 > t.len() {
            None
        } else if u.len() > 0 && u[0] == '}' {
            Some((JsonModel::Obj(Seq::empty()), u.skip(1)))
        } else {
            match sp_members(t.skip(1)) {
                Some(p) => Some((JsonModel::Obj(p.0), p.1)),
                None => None,
            }
        }
    } else if t[0] == '-' || is_digit_char(t[0]) {
        match sp_number(t) {
            Some(p) => Some((JsonModel::Num(p.0), p.1)),
            None => None,
        }
    } else {
        None
    }
}

/// One or more array elements and the closing bracket.
pub open spec fn sp_elems(s: Seq<char>) -> Option<(Seq<JsonModel>, Seq<char>)>
    decreases s.len(), 1int,
{
    match sp_value(s) {
        None => None,
        Some(p) => {
            let v = p.0;
            let r = p.1;
            if r.len() > s.len() {
                None
            } else {
                let u = sp_skip_ws(r);
                if u.len() > r.len() || u.len() == 0 {
                    None
                } else if u[0] == ']' {
                    Some((seq![v], u.skip(1)))
                } else if u[0] == ',' {
                    if u.len() - 1 < s.len() {
                        match sp_elems(u.skip(1)) {
                            Some(q) => Some((seq![v] + q.0, q.1)),
                            None => None,
                        }
                    } else {
                        None
                    }
                } else {
                    None
                }
            }
        },
    }
}

/// One or more object members and the closing brace; a later duplicate key
/// replaces an earlier one.
pub open spec fn sp_members(s: Seq<char>) -> Option<(Seq<(Seq<char>, JsonModel)>, Seq<char>)>
    decreases s.len(), 1int,
{
    let t = sp_skip_ws(s);
    if t.len() > s.len() || t.len() == 0 || t[0] != '"' {
        None
    } else {
        match sp_string(t.skip(1)) {
            None => None,
            Some(kp) => {
                let key = kp.0;
                let r1 = kp.1;
                if r1.len() > s.len() {
                    None
                } else {
                    let u = sp_skip_ws(r1);
                    if u.len() > r1.len() || u.len() == 0 || u[0] != ':' {
                        None
                    } else {
                        match sp_value(u.skip(1)) {
                            None => None,
                            Some(vp) => {
                                let val = vp.0;
                                let r2 = vp.1;
                                if r2.len() > s.len() {
                                    None
                                } else {
                                    let w = sp_skip_ws(r2);
                                    if w.len() > r2.len() || w.len() == 0 {
                                        None
                                    } else if w[0] == '}' {
                                        Some((seq![(key, val)], w.skip(1)))
                                    } else if w[0] == ',' {
                                        if w.len() - 1 < s.len() {
                                            match sp_members(w.skip(1)) {
                                                None => None,
                                                Some(mp) => if spec_lookup(mp.0, key) is Some {
                                                    Some((mp.0, mp.1))
                                                } else {
                                                    Some((seq![(key, val)] + mp.0, mp.1))
                                                },
                                            }
                                        } else {
                                            None
                                        }
                                    } else {
                                        None
                                    }
                                }
                            },
                        }
                    }
                }
            },
        }
    }
}

/// What `parse_json` accepts: one JSON value with nothing but whitespace
/// around it.
pub open spec fn spec_parse_json(s: Seq<char>) -> Option<JsonModel> {
    match sp_value(s) {
        None => None,
        Some(p) => if sp_skip_ws(p.1).len() == 0 {
            Some(p.0)
        } else {
            None
        },
    }
}

pub proof fn lemma_sp_value_progress(s: Seq<char>)
    ensures
        match sp_value(s) {
            Some(p) => p.1.len() < s.len(),
            None => true,
        },
    decreases s.len(), 0int,
{
    reveal_strlit("null");
    reveal_strlit("true");
    reveal_strlit("false");
    let t = sp_skip_ws(s);
    lemma_skip_ws_len(s);
    if t.len() > s.len() || t.len() == 0 {
    } else if t[0] == '"' {
        lemma_sp_string_progress(t.skip(1));
    } else if t[0] == '[' {
        let u = sp_skip_ws(t.skip(1));
        lemma_skip_ws_len(t.skip(1));
        if u.len() + 1 > t.len() {
        } else if u.len() > 0 && u[0] == ']' {
        } else {
            lemma_sp_elems_progress(t.skip(1));
        }
    } else if t[0] == '{' {
        let u = sp_skip_ws(t.skip(1));
        lemma_skip_ws_len(t.skip(1));
        if u.len() + 1 > t.len() {
        } else if u.len() > 0 && u[0] == '}' {
        } else {
            lemma_sp_members_progress(t.skip(1));
        }
    } else if t[0] == '-' || is_digit_char(t[0]) {
        lemma_sp_number_progress(t);
    }
}

pub proof fn lemma_sp_elems_progress(s: Seq<char>)
    ensures
        match sp_elems(s) {
            Some(p) => p.1.len() < s.len(),
            None => true,
        },
    decreases s.len(), 1int,
{
    lemma_sp_value_progress(s);
    match sp_value(s) {
        None => {},
        Some(p) => {
            let r = p.1;
            if r.len() > s.len() {
            } else {
                let u = sp_skip_ws(r);
                lemma_skip_ws_len(r);
                if u.len() > r.len() || u.len() == 0 {
                } else if u[0] == ',' {
                    if u.len() - 1 < s.len() {
                        lemma_sp_elems_progress(u.skip(1));
                    }
                }
            }
        },
    }
}

pub proof fn lemma_sp_members_progress(s: Seq<char>)
    ensures
        match sp_members(s) {
            Some(p) => p.1.len() < s.len(),
            None => true,
        },
    decreases s.len(), 1int,
{
    let t = sp_skip_ws(s);
    lemma_skip_ws_len(s);
    if t.len() > s.len() || t.len() == 0 || t[0] != '"' {
    } else {
        lemma_sp_string_progress(t.skip(1));
        match sp_string(t.skip(1)) {
            None => {},
            Some(kp) => {
                let r1 = kp.1;
                if r1.len() > s.len() {
                } else {
                    let u = sp_skip_ws(r1);
                    lemma_skip_ws_len(r1);
                    if u.len() > r1.len() || u.len() == 0 || u[0] != ':' {
                    } else {
                        lemma_sp_value_progress(u.skip(1));
                        match sp_value(u.skip(1)) {
                            None => {},
                            Some(vp) => {
                                let r2 = vp.1;
                                if r2.len() > s.len() {
                                } else {
                                    let w = sp_skip_ws(r2);
                                    lemma_skip_ws_len(r2);
                                    if w.len() > r2.len() || w.len() == 0 {
                                    } else if w[0] == ',' {
                                        if w.len() - 1 < s.len() {
                                            lemma_sp_members_progress(w.skip(1));
                                        }
                                    }
                                }
                            },
                        }
                    }
                }
            },
        }
    }
}

/// Relies on `char::from_u32`: `Some` exactly for values below the surrogate
/// range or between it and the largest scalar, holding that value.
#[verifier::external_body]
fn char_from_u32(x: u32) -> (r: Option<char>)
    ensures
        r == (if x < 0xd800 || (0xe000 <= x && x <= 0x10ffff) {
            Some(x as char)
        } else {
            None::<char>
        }),
{
    char::from_u32(x)
}

fn char_is_json_ws(c: char) -> (r: bool)
    ensures
        r == json_ws(c),
{
    c == ' ' || c == '\t' || c == '\n' || c == '\r'
}

/// Drops leading JSON whitespace.
fn skip_ws_exec(v: &Vec<char>) -> (r: Vec<char>)
    ensures
        r@ == sp_skip_ws(v@),
{
    let mut i: usize = 0;
    assert(v@.skip(0) =~= v@);
    while i < v.len() && char_is_json_ws(v[i])
        invariant
            i <= v.len(),
            sp_skip_ws(v@) == sp_skip_ws(v@.skip(i as int)),
        decreases v.len() - i,
    {
        assert(v@.skip(i as int).drop_first() =~= v@.skip(i as int + 1));
        i = i + 1;
    }
    assert(sp_skip_ws(v@) == v@.skip(i as int));
    subrange_chars(v, i, v.len())
}

fn char_is_hex(c: char) -> (r: bool)
    ensures
        r == is_hex_digit(c),
{
    ('0' <= c && c <= '9') || ('a' <= c && c <= 'f') || ('A' <= c && c <= 'F')
}

fn hex_val_exec(c: char) -> (r: u32)
    requires
        is_hex_digit(c),
    ensures
        r as int == hex_val(c),
        r <= 15,
{
    if '0' <= c && c <= '9' {
        let d = digit_of(c);
        d as u32
    } else if c == 'a' || c == 'A' {
        10
    } else if c == 'b' || c == 'B' {
        11
    } else if c == 'c' || c == 'C' {
        12
    } else if c == 'd' || c == 'D' {
        13
    } else if c == 'e' || c == 'E' {
        14
    } else {
        assert(c == 'f' || c == 'F');
        15
    }
}

/// Reads four hex digits as a code unit.
fn hex4_at(v: &Vec<char>, at: usize) -> (r: Option<u32>)
    requires
        at + 4 <= v@.len(),
    ensures
        match r {
            Some(x) => is_hex_digit(v@[at as int]) && is_hex_digit(v@[at + 1]) && is_hex_digit(
                v@[at + 2],
            ) && is_hex_digit(v@[at + 3]) && x as int == hex_val(v@[at as int]) * 0x1000 + hex_val(
                v@[at + 1],
            ) * 0x100 + hex_val(v@[at + 2]) * 0x10 + hex_val(v@[at + 3]) && x <= 0xffff,
            None => !(is_hex_digit(v@[at as int]) && is_hex_digit(v@[at + 1]) && is_hex_digit(
                v@[at + 2],
            ) && is_hex_digit(v@[at + 3])),
        },
{
    let vl = v.len();
    assert(at + 4 <= vl);
    if char_is_hex(v[at]) && char_is_hex(v[at + 1]) && char_is_hex(v[at + 2]) && char_is_hex(
        v[at + 3],
    ) {
        let a = hex_val_exec(v[at]);
        let b = hex_val_exec(v[at + 1]);
        let c = hex_val_exec(v[at + 2]);
        let d = hex_val_exec(v[at + 3]);
        Some(a * 0x1000 + b * 0x100 + c * 0x10 + d)
    } else {
        None
    }
}

/// Parses the tail of a string body from `from`, prepending one decoded
/// character.
fn string_tail(v: &Vec<char>, from: usize, ch: char) -> (r: Option<(Vec<char>, Vec<char>)>)
    requires
        1 <= from <= v@.len(),
    ensures
        match r {
            Some(p) => sp_string(v@.skip(from as int)) matches Some(q) && p.0@ == seq![ch] + q.0
                && p.1@ == q.1,
            None => sp_string(v@.skip(from as int)) is None,
        },
    decreases v@.len() - from, 1int,
{
    let sub = subrange_chars(v, from, v.len());
    match parse_string_exec(&sub) {
        Some(p) => {
            let mut out: Vec<char> = Vec::new();
            out.push(ch);
            let mut tail = p.0;
            out.append(&mut tail);
            assert(out@ =~= seq![ch] + sp_string(v@.skip(from as int))->Some_0.0);
            Some((out, p.1))
        },
        None => None,
    }
}

/// Parses a string body after its opening quote: the decoded contents and
/// what follows the closing quote.
fn parse_string_exec(v: &Vec<char>) -> (r: Option<(Vec<char>, Vec<char>)>)
    ensures
        match r {
            Some(p) => sp_string(v@) == Some((p.0@, p.1@)),
            None => sp_string(v@) is None,
        },
    decreases v@.len(), 0int,
{
    if v.len() == 0 {
        return None;
    }
    let c0 = v[0];
    if c0 == '"' {
        let rest = subrange_chars(v, 1, v.len());
        let content: Vec<char> = Vec::new();
        assert(content@ =~= Seq::<char>::empty());
        assert(rest@ =~= v@.drop_first());
        Some((content, rest))
    } else if c0 == '\\' {
        if v.len() < 2 {
            return None;
        }
        let e = v[1];
        if e == '"' || e == '\\' || e == '/' {
            string_tail(v, 2, e)
        } else if e == 'b' {
            string_tail(v, 2, '\u{8}')
        } else if e == 'f' {
            string_tail(v, 2, '\u{c}')
        } else if e == 'n' {
            string_tail(v, 2, '\n')
        } else if e == 'r' {
            string_tail(v, 2, '\r')
        } else if e == 't' {
            string_tail(v, 2, '\t')
        } else if e == 'u' {
            if v.len() < 6 {
                return None;
            }
            match hex4_at(v, 2) {
                None => None,
                Some(cp) => {
                    if 0xd800 <= cp && cp < 0xdc00 {
                        if v.len() < 12 {
                            return None;
                        }
                        if !(v[6] == '\\' && v[7] == 'u') {
                            return None;
                        }
                        match hex4_at(v, 8) {
                            None => None,
                            Some(cp2) => {
                                if 0xdc00 <= cp2 && cp2 < 0xe000 {
                                    let val: u32 = 0x10000 + (cp - 0xd800) * 0x400 + (cp2
                                        - 0xdc00);
                                    match char_from_u32(val) {
                                        Some(ch) => string_tail(v, 12, ch),
                                        None => {
                                            proof {
                                                assert(false);
                                            }
                                            None
                                        },
                                    }
                                } else {
                                    None
                                }
                            },
                        }
                    } else if 0xdc00 <= cp && cp < 0xe000 {
                        None
                    } else {
                        match char_from_u32(cp) {
                            Some(ch) => string_tail(v, 6, ch),
                            None => {
                                proof {
                                    assert(false);
                                }
                                None
                            },
                        }
                    }
                },
            }
        } else {
            None
        }
    } else if '\u{20}' > c0 {
        None
    } else {
        string_tail(v, 1, c0)
    }
}

/// Counts the decimal digits at `from`.
fn digit_run(v: &Vec<char>, from: usize) -> (n: usize)
    requires
        from <= v@.len(),
    ensures
        from + n <= v@.len(),
        skip_digits(v@.skip(from as int)) == v@.skip(from + n),
        n == 0 ==> (from == v@.len() || !is_digit_char(v@[from as int])),
{
    let vl = v.len();
    let mut n: usize = 0;
    while from + n < vl && '0' <= v[from + n] && v[from + n] <= '9'
        invariant
            vl == v@.len(),
            from + n <= v@.len(),
            skip_digits(v@.skip(from as int)) == skip_digits(v@.skip(from + n)),
        decreases v@.len() - from - n,
    {
        assert(v@.skip(from + n).drop_first() =~= v@.skip(from + n + 1));
        n = n + 1;
    }
    assert(skip_digits(v@.skip(from + n)) == v@.skip(from + n));
    n
}

/// Where a number's sign and integer part end.
fn int_rest_exec(v: &Vec<char>) -> (r: Option<usize>)
    ensures
        match r {
            Some(p) => p <= v@.len() && 1 <= p && sp_int_rest(v@) == Some(v@.skip(p as int)),
            None => sp_int_rest(v@) is None,
        },
{
    let neg: usize = if v.len() > 0 && v[0] == '-' {
        1
    } else {
        0
    };
    let ghost a = if v@.len() > 0 && v@[0] == '-' {
        v@.drop_first()
    } else {
        v@
    };
    assert(a =~= v@.skip(neg as int));
    if v.len() == neg {
        return None;
    }
    let c = v[neg];
    assert(c == a[0]);
    if !('0' <= c && c <= '9') {
        return None;
    }
    if c == '0' {
        assert(a.drop_first() =~= v@.skip(neg as int + 1));
        Some(neg + 1)
    } else {
        let n = digit_run(v, neg);
        assert(n >= 1);
        Some(neg + n)
    }
}

/// Where a number's optional fraction part ends, from `from`.
fn frac_rest_exec(v: &Vec<char>, from: usize) -> (r: Option<usize>)
    requires
        from <= v@.len(),
    ensures
        match r {
            Some(p) => from <= p <= v@.len() && sp_frac_rest(v@.skip(from as int)) == Some(
                v@.skip(p as int),
            ),
            None => sp_frac_rest(v@.skip(from as int)) is None,
        },
{
    let ghost s = v@.skip(from as int);
    if from < v.len() && v[from] == '.' {
        assert(s[0] == '.');
        if from + 1 < v.len() && '0' <= v[from + 1] && v[from + 1] <= '9' {
            assert(s[1] == v@[from + 1]);
            let n = digit_run(v, from + 1);
            assert(s.skip(1) =~= v@.skip(from as int + 1));
            Some(from + 1 + n)
        } else {
            None
        }
    } else {
        Some(from)
    }
}

/// Where a number's optional exponent part ends, from `from`.
fn exp_rest_exec(v: &Vec<char>, from: usize) -> (r: Option<usize>)
    requires
        from <= v@.len(),
    ensures
        match r {
            Some(p) => from <= p <= v@.len() && sp_exp_rest(v@.skip(from as int)) == Some(
                v@.skip(p as int),
            ),
            None => sp_exp_rest(v@.skip(from as int)) is None,
        },
{
    let ghost s = v@.skip(from as int);
    if from < v.len() && (v[from] == 'e' || v[from] == 'E') {
        assert(s[0] == v@[from as int]);
        let sgn: usize = if from + 1 < v.len() && (v[from + 1] == '+' || v[from + 1] == '-') {
            1
        } else {
            0
        };
        let ghost t = s.drop_first();
        let ghost u = if t.len() > 0 && (t[0] == '+' || t[0] == '-') {
            t.drop_first()
        } else {
            t
        };
        assert(t =~= v@.skip(from as int + 1));
        assert(u =~= v@.skip(from as int + 1 + sgn));
        if from + 1 + sgn < v.len() && '0' <= v[from + 1 + sgn] && v[from + 1 + sgn] <= '9' {
            assert(u[0] == v@[from + 1 + sgn]);
            let n = digit_run(v, from + 1 + sgn);
            Some(from + 1 + sgn + n)
        } else {
            None
        }
    } else {
        Some(from)
    }
}

/// Parses a number token and what follows it.
fn parse_number_exec(v: &Vec<char>) -> (r: Option<(Vec<char>, Vec<char>)>)
    ensures
        match r {
            Some(p) => sp_number(v@) == Some((p.0@, p.1@)),
            None => sp_number(v@) is None,
        },
{
    match int_rest_exec(v) {
        None => None,
        Some(p1) => {
            match frac_rest_exec(v, p1) {
                None => None,
                Some(p2) => {
                    match exp_rest_exec(v, p2) {
                        None => None,
                        Some(p3) => {
                            let token = subrange_chars(v, 0, p3);
                            let rest = subrange_chars(v, p3, v.len());
                            assert(token@ =~= v@.take(v@.len() - v@.skip(p3 as int).len()));
                            Some((token, rest))
                        },
                    }
                },
            }
        },
    }
}

/// Parses one JSON value after optional whitespace.
fn parse_value_exec(v: &Vec<char>) -> (r: Option<(Json, Vec<char>)>)
    ensures
        match r {
            Some(p) => sp_value(v@) == Some((json_view(p.0), p.1@)),
            None => sp_value(v@) is None,
        },
    decreases v@.len(), 2int,
{
    let t = skip_ws_exec(v);
    proof {
        lemma_skip_ws_len(v@);
        reveal_strlit("null");
        reveal_strlit("true");
        reveal_strlit("false");
    }
    if t.len() == 0 {
        return None;
    }
    let c = t[0];
    if c == 'n' {
        let lit = chars_of("null");
        if crate::text::chars_start_with(&t, &lit) {
            let rest = subrange_chars(&t, 4, t.len());
            Some((Json::Null, rest))
        } else {
            None
        }
    } else if c == 't' {
        let lit = chars_of("true");
        if crate::text::chars_start_with(&t, &lit) {
            let rest = subrange_chars(&t, 4, t.len());
            Some((Json::Bool(true), rest))
        } else {
            None
        }
    } else if c == 'f' {
        let lit = chars_of("false");
        if crate::text::chars_start_with(&t, &lit) {
            let rest = subrange_chars(&t, 5, t.len());
            Some((Json::Bool(false), rest))
        } else {
            None
        }
    } else if c == '"' {
        let body = subrange_chars(&t, 1, t.len());
        assert(body@ =~= t@.skip(1));
        match parse_string_exec(&body) {
            Some(p) => {
                let content = string_of(&p.0);
                Some((Json::Str(content), p.1))
            },
            None => None,
        }
    } else if c == '[' {
        let after = subrange_chars(&t, 1, t.len());
        assert(after@ =~= t@.skip(1));
        let u = skip_ws_exec(&after);
        proof {
            lemma_skip_ws_len(after@);
        }
        if u.len() > 0 && u[0] == ']' {
            let rest = subrange_chars(&u, 1, u.len());
            assert(rest@ =~= sp_skip_ws(t@.skip(1)).skip(1));
            let items: Vec<Json> = Vec::new();
            assert(jsons_view(items@) =~= Seq::<JsonModel>::empty());
            Some((Json::Arr(items), rest))
        } else {
            match parse_elems_exec(&after) {
                Some(p) => Some((Json::Arr(p.0), p.1)),
                None => None,
            }
        }
    } else if c == '{' {
        let after = subrange_chars(&t, 1, t.len());
        assert(after@ =~= t@.skip(1));
        let u = skip_ws_exec(&after);
        proof {
            lemma_skip_ws_len(after@);
        }
        if u.len() > 0 && u[0] == '}' {
            let rest = subrange_chars(&u, 1, u.len());
            assert(rest@ =~= sp_skip_ws(t@.skip(1)).skip(1));
            let members: Vec<(String, Json)> = Vec::new();
            assert(members_view(members@) =~= Seq::<(Seq<char>, JsonModel)>::empty());
            Some((Json::Obj(members), rest))
        } else {
            match parse_members_exec(&after) {
                Some(p) => Some((Json::Obj(p.0), p.1)),
                None => None,
            }
        }
    } else if c == '-' || ('0' <= c && c <= '9') {
        match parse_number_exec(&t) {
            Some(p) => {
                let token = string_of(&p.0);
                Some((Json::Num(token), p.1))
            },
            None => None,
        }
    } else {
        None
    }
}

/// Parses one or more array elements and the closing bracket.
fn parse_elems_exec(v: &Vec<char>) -> (r: Option<(Vec<Json>, Vec<char>)>)
    ensures
        match r {
            Some(p) => sp_elems(v@) == Some((jsons_view(p.0@), p.1@)),
            None => sp_elems(v@) is None,
        },
    decreases v@.len(), 3int,
{
    match parse_value_exec(v) {
        None => None,
        Some(p) => {
            proof {
                lemma_sp_value_progress(v@);
            }
            let first = p.0;
            let u = skip_ws_exec(&p.1);
            proof {
                lemma_skip_ws_len(p.1@);
            }
            if u.len() == 0 {
                None
            } else if u[0] == ']' {
                let rest = subrange_chars(&u, 1, u.len());
                assert(rest@ =~= u@.skip(1));
                let mut items: Vec<Json> = Vec::new();
                items.push(first);
                assert(jsons_view(items@) =~= seq![json_view(first)]);
                Some((items, rest))
            } else if u[0] == ',' {
                let after = subrange_chars(&u, 1, u.len());
                assert(after@ =~= u@.skip(1));
                match parse_elems_exec(&after) {
                    None => None,
                    Some(q) => {
                        let mut items: Vec<Json> = Vec::new();
                        items.push(first);
                        let ghost tail_items = q.0@;
                        let mut tail = q.0;
                        items.append(&mut tail);
                        assert(jsons_view(items@) =~= seq![json_view(first)] + jsons_view(
                            tail_items,
                        ));
                        Some((items, q.1))
                    },
                }
            } else {
                None
            }
        },
    }
}

/// Parses one or more object members and the closing brace.
fn parse_members_exec(v: &Vec<char>) -> (r: Option<(Vec<(String, Json)>, Vec<char>)>)
    ensures
        match r {
            Some(p) => sp_members(v@) == Some((members_view(p.0@), p.1@)),
            None => sp_members(v@) is None,
        },
    decreases v@.len(), 3int,
{
    let t = skip_ws_exec(v);
    proof {
        lemma_skip_ws_len(v@);
    }
    if t.len() == 0 {
        return None;
    }
    if t[0] != '"' {
        return None;
    }
    let key_body = subrange_chars(&t, 1, t.len());
    assert(key_body@ =~= t@.skip(1));
    match parse_string_exec(&key_body) {
        None => None,
        Some(kp) => {
            proof {
                lemma_sp_string_progress(t@.skip(1));
            }
            let key = string_of(&kp.0);
            let u = skip_ws_exec(&kp.1);
            proof {
                lemma_skip_ws_len(kp.1@);
            }
            if u.len() == 0 {
                return None;
            }
            if u[0] != ':' {
                return None;
            }
            let after_colon = subrange_chars(&u, 1, u.len());
            assert(after_colon@ =~= u@.skip(1));
            match parse_value_exec(&after_colon) {
                None => None,
                Some(vp) => {
                    proof {
                        lemma_sp_value_progress(after_colon@);
                    }
                    let val = vp.0;
                    let w = skip_ws_exec(&vp.1);
                    proof {
                        lemma_skip_ws_len(vp.1@);
                    }
                    if w.len() == 0 {
                        None
                    } else if w[0] == '}' {
                        let rest = subrange_chars(&w, 1, w.len());
                        assert(rest@ =~= w@.skip(1));
                        let mut members: Vec<(String, Json)> = Vec::new();
                        members.push((key, val));
                        assert(members_view(members@) =~= seq![
                            (
                                sp_string(t@.skip(1))->Some_0.0,
                                sp_value(u@.skip(1))->Some_0.0,
                            ),
                        ]);
                        Some((members, rest))
                    } else if w[0] == ',' {
                        let after = subrange_chars(&w, 1, w.len());
                        assert(after@ =~= w@.skip(1));
                        match parse_members_exec(&after) {
                            None => None,
                            Some(mp) => {
                                let ghost tail_members = mp.0@;
                                match crate::cache::store::assoc_position(&mp.0, key.as_str()) {
                                    Some(ix) => {
                                        proof {
                                            assert(members_view(tail_members)[ix as int].0
                                                == key@);
                                            crate::cache::store::lemma_lookup_at(
                                                members_view(tail_members),
                                                key@,
                                                ix as int,
                                            );
                                        }
                                        Some((mp.0, mp.1))
                                    },
                                    None => {
                                        proof {
                                            assert(forall|j: int|
                                                0 <= j < members_view(tail_members).len()
                                                    ==> (#[trigger] members_view(
                                                    tail_members,
                                                )[j]).0 != key@);
                                            crate::cache::store::lemma_lookup_absent(
                                                members_view(tail_members),
                                                key@,
                                            );
                                        }
                                        let mut members: Vec<(String, Json)> = Vec::new();
                                        members.push((key, val));
                                        let mut tail = mp.0;
                                        members.append(&mut tail);
                                        assert(members_view(members@) =~= seq![
                                            (
                                                sp_string(t@.skip(1))->Some_0.0,
                                                sp_value(u@.skip(1))->Some_0.0,
                                            ),
                                        ] + members_view(tail_members));
                                        Some((members, mp.1))
                                    },
                                }
                            },
                        }
                    } else {
                        None
                    }
                },
            }
        },
    }
}

/// Parses a complete JSON document: one value with only whitespace around
/// it, or nothing for any other text.
pub fn parse_json(s: &str) -> (r: Option<Json>)
    ensures
        match r {
            Some(j) => spec_parse_json(s@) == Some(json_view(j)),
            None => spec_parse_json(s@) is None,
        },
{
    let v = chars_of(s);
    match parse_value_exec(&v) {
        None => None,
        Some(p) => {
            let tail = skip_ws_exec(&p.1);
            if tail.len() == 0 {
                Some(p.0)
            } else {
                None
            }
        },
    }
}

/// Serializes a JSON tree: compact text, no added whitespace.
pub fn to_json_string(j: &Json) -> (r: String)
    ensures
        r@ == json_text(json_view(*j)),
{
    let mut out = String::new();
    write_json(j, &mut out);
    out
}

} // verus!
