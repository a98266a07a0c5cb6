//! A JSON value model, its compact serialization and the escaping that makes
//! JSON safe to embed in an inline `<script>` element.

use vstd::prelude::*;

use crate::text::push_char;

verus! {

/// A JSON document as the renderer reads it. Numbers keep the text that the
/// JSON number serializes to; object members keep their order.
#[derive(Debug)]
pub enum JsonValue {
    Null,
    Bool(bool),
    Number(String),
    String(String),
    Array(Vec<JsonValue>),
    Object(Vec<(String, JsonValue)>),
}

/// The mathematical content of a JSON value.
pub enum JsonData {
    Null,
    Bool(bool),
    Number(Seq<char>),
    String(Seq<char>),
    Array(Seq<JsonData>),
    Object(Seq<(Seq<char>, JsonData)>),
}

/// The contents of a list of values.
pub open spec fn json_views(items: Seq<JsonValue>) -> Seq<JsonData> {
    Seq::new(items.len(), |i: int| items[i]@)
}

/// The contents of a list of object members.
pub open spec fn member_views(members: Seq<(String, JsonValue)>) -> Seq<(Seq<char>, JsonData)> {
    Seq::new(members.len(), |i: int| (members[i].0@, members[i].1@))
}

/// The content of a value.
pub open spec fn json_data(v: JsonValue) -> JsonData
    decreases v,
{
    match v {
        JsonValue::Null => JsonData::Null,
        JsonValue::Bool(b) => JsonData::Bool(b),
        JsonValue::Number(t) => JsonData::Number(t@),
        JsonValue::String(s) => JsonData::String(s@),
        JsonValue::Array(items) => JsonData::Array(
            Seq::new(items@.len(), |i: int| if 0 <= i < items@.len() { json_data(items@[i]) } else { JsonData::Null }),
        ),
        JsonValue::Object(members) => JsonData::Object(
            Seq::new(
                members@.len(),
                |i: int|
                    if 0 <= i < members@.len() {
                        (members@[i].0@, json_data(members@[i].1))
                    } else {
                        (Seq::empty(), JsonData::Null)
                    },
            ),
        ),
    }
}

impl View for JsonValue {
    type V = JsonData;

    open spec fn view(&self) -> JsonData {
        json_data(*self)
    }
}

/// The content of an array or object value, element by element.
pub proof fn lemma_json_view(v: JsonValue)
    ensures
        v matches JsonValue::Array(items) ==> v@ == JsonData::Array(json_views(items@)),
        v matches JsonValue::Object(members) ==> v@ == JsonData::Object(member_views(members@)),
{
    match v {
        JsonValue::Array(items) => {
            assert(v@->Array_0 =~= json_views(items@));
        },
        JsonValue::Object(members) => {
            assert(v@->Object_0 =~= member_views(members@));
        },
        _ => {},
    }
}

/// A lowercase hexadecimal digit.
pub open spec fn hex_digit(d: u32) -> char {
    if d < 10 {
        ((d + 48) as u8) as char
    } else {
        ((d + 87) as u8) as char
    }
}

/// The escape sequence JSON uses for one character of a string.
pub open spec fn json_escape_char(c: char) -> Seq<char> {
    if c == '"' {
        seq!['\\', '"']
    } else if c == '\\' {
        seq!['\\', '\\']
    } else if c == '\x08' {
        seq!['\\', 'b']
    } else if c == '\t' {
        seq!['\\', 't']
    } else if c == '\n' {
        seq!['\\', 'n']
    } else if c == '\x0c' {
        seq!['\\', 'f']
    } else if c == '\r' {
        seq!['\\', 'r']
    } else if (c as u32) < 0x20 {
        seq!['\\', 'u', '0', '0', hex_digit((c as u32) / 16), hex_digit((c as u32) % 16)]
    } else {
        seq![c]
    }
}

/// The escaped characters of a string, without the surrounding quotes.
pub open spec fn json_escape(s: Seq<char>) -> Seq<char>
    decreases s.len(),
{
    if s.len() == 0 {
        Seq::empty()
    } else {
        json_escape(s.drop_last()) + json_escape_char(s.last())
    }
}

/// A string written as a JSON string literal.
pub open spec fn json_quote(s: Seq<char>) -> Seq<char> {
    seq!['"'] + json_escape(s) + seq!['"']
}

/// Declares `serde_json::Error`, the error of `serde_json::to_string`, as an
/// opaque type.
#[verifier::external_type_specification]
#[verifier::external_body]
pub struct ExJsonError(serde_json::Error);

/// Calls `serde_json::to_string` on a string slice. serde_json's serializer
/// (`format_escaped_str`) writes a quote, the string with `"`, `\` and the
/// control characters below U+0020 escaped (`\b \t \n \f \r` by name, the
/// rest as `\u00XX` in lowercase hex), and a closing quote; serializing a
/// `str` into a `Vec` has no failing path, so the result is always `Ok`.
#[verifier::external_body]
fn json_string_literal(s: &str) -> (r: Result<String, serde_json::Error>)
    ensures
        r is Ok,
        r.unwrap()@ == json_quote(s@),
{
    serde_json::to_string(s)
}

/// Append the JSON string literal for `s` to `out`.
pub fn push_json_string(out: &mut String, s: &str)
    ensures
        final(out)@ == old(out)@ + json_quote(s@),
{
    match json_string_literal(s) {
        Ok(t) => out.append(t.as_str()),
        Err(_) => {
            proof {
                assert(false);
            }
        },
    }
}

/// The compact JSON text of a value.
pub open spec fn json_text(v: JsonData) -> Seq<char>
    decreases v,
{
    match v {
        JsonData::Null => seq!['n', 'u', 'l', 'l'],
        JsonData::Bool(b) => if b {
            seq!['t', 'r', 'u', 'e']
        } else {
            seq!['f', 'a', 'l', 's', 'e']
        },
        JsonData::Number(t) => t,
        JsonData::String(s) => json_quote(s),
        JsonData::Array(items) => seq!['['] + json_elems(items) + seq![']'],
        JsonData::Object(members) => seq!['{'] + json_members(members) + seq!['}'],
    }
}

/// Array elements separated by commas.
pub open spec fn json_elems(items: Seq<JsonData>) -> Seq<char>
    decreases items,
{
    if items.len() == 0 {
        Seq::empty()
    } else if items.len() == 1 {
        json_text(items[0])
    } else {
        json_elems(items.drop_last()) + seq![','] + json_text(items.last())
    }
}

/// Object members written as `"key":value`, separated by commas.
pub open spec fn json_members(members: Seq<(Seq<char>, JsonData)>) -> Seq<char>
    decreases members,
{
    if members.len() == 0 {
        Seq::empty()
    } else if members.len() == 1 {
        json_quote(members[0].0) + seq![':'] + json_text(members[0].1)
    } else {
        json_members(members.drop_last()) + seq![','] + json_quote(members.last().0) + seq![':']
            + json_text(members.last().1)
    }
}

} // verus!

verus! {

/// Append the compact JSON text of `v` to `out`.
pub fn push_json_text(out: &mut String, v: &JsonValue)
    ensures
        final(out)@ == old(out)@ + json_text(v@),
    decreases v,
{
    match v {
        JsonValue::Null => {
            proof { reveal_strlit("null"); }
            out.append("null");
        },
        JsonValue::Bool(b) => {
            proof {
                reveal_strlit("true");
                reveal_strlit("false");
            }
            if *b {
                out.append("true");
            } else {
                out.append("false");
            }
        },
        JsonValue::Number(t) => {
            out.append(t.as_str());
        },
        JsonValue::String(s) => {
            push_json_string(out, s.as_str());
        },
        JsonValue::Array(items) => {
            let ghost start = out@;
            let ghost iv = json_views(items@);
            proof {
                lemma_json_view(*v);
            }
            push_char(out, '[');
            let mut i: usize = 0;
            while i < items.len()
                invariant
                    i <= items.len(),
                    *v == JsonValue::Array(*items),
                    iv == json_views(items@),
                    out@ == start + seq!['['] + json_elems(iv.take(i as int)),
                decreases items.len() - i,
            {
                proof {
                    assert(iv.take(i + 1).drop_last() == iv.take(i as int));
                    assert(iv.take(i + 1).last() == items@[i as int]@);
                    assert(decreases_to!(*v => (*v)->Array_0));
                    assert(decreases_to!(*items => items@));
                    assert(decreases_to!(items@ => items@[i as int]));
                }
                if i > 0 {
                    push_char(out, ',');
                }
                push_json_text(out, &items[i]);
                i = i + 1;
            }
            push_char(out, ']');
            proof {
                assert(iv.take(items.len() as int) == iv);
            }
        },
        JsonValue::Object(members) => {
            let ghost start = out@;
            let ghost mv = member_views(members@);
            proof {
                lemma_json_view(*v);
            }
            push_char(out, '{');
            let mut i: usize = 0;
            while i < members.len()
                invariant
                    i <= members.len(),
                    *v == JsonValue::Object(*members),
                    mv == member_views(members@),
                    out@ == start + seq!['{'] + json_members(mv.take(i as int)),
                decreases members.len() - i,
            {
                proof {
                    assert(mv.take(i + 1).drop_last() == mv.take(i as int));
                    assert(mv.take(i + 1).last() == (members@[i as int].0@, members@[i as int].1@));
                    assert(decreases_to!(*v => (*v)->Object_0));
                    assert(decreases_to!(*members => members@));
                    assert(decreases_to!(members@ => members@[i as int]));
                    assert(decreases_to!(members@[i as int] => members@[i as int].1));
                }
                if i > 0 {
                    push_char(out, ',');
                }
                push_json_string(out, members[i].0.as_str());
                push_char(out, ':');
                push_json_text(out, &members[i].1);
                i = i + 1;
            }
            push_char(out, '}');
            proof {
                assert(mv.take(members.len() as int) == mv);
            }
        },
    }
}

/// The compact JSON text of `v` as a string.
pub fn json_to_string(v: &JsonValue) -> (s: String)
    ensures
        s@ == json_text(v@),
{
    let mut s = String::new();
    push_json_text(&mut s, v);
    s
}

} // verus!

verus! {

/// What one character of `text` becomes after the characters `prev`: a `/`
/// that follows `<` is written as `\/`, every other character as itself.
pub open spec fn script_safe_char(prev: Seq<char>, c: char) -> Seq<char> {
    if c == '/' && prev.len() > 0 && prev.last() == '<' {
        seq!['\\', '/']
    } else {
        seq![c]
    }
}

/// `text` with every `</` replaced by `<\/`, so that it cannot close the
/// enclosing `<script>` element.
pub open spec fn script_safe(text: Seq<char>) -> Seq<char>
    decreases text.len(),
{
    if text.len() == 0 {
        Seq::empty()
    } else {
        script_safe(text.drop_last()) + script_safe_char(text.drop_last(), text.last())
    }
}

/// `text` with every `</` replaced by `<\/`.
pub fn script_safe_string(text: &str) -> (r: String)
    ensures
        r@ == script_safe(text@),
{
    let mut out = String::new();
    let mut prev_lt = false;
    for c in it: text.chars()
        invariant
            it.seq() == text@,
            out@ == script_safe(text@.take(it.index() as int)),
            prev_lt == (it.index() > 0 && text@[it.index() - 1] == '<'),
    {
        let ghost i = it.index();
        assert(c == text@[i as int]);
        proof {
            assert(text@.take(i + 1).drop_last() == text@.take(i as int));
            if i > 0 {
                assert(text@.take(i as int).last() == text@[i - 1]);
            }
        }
        if c == '/' && prev_lt {
            push_char(&mut out, '\\');
        }
        push_char(&mut out, c);
        prev_lt = c == '<';
    }
    proof {
        assert(text@.take(text@.len() as int) == text@);
    }
    out
}

/// The escaped text ends with the last character of the input.
pub proof fn lemma_script_safe_last(text: Seq<char>)
    requires
        text.len() > 0,
    ensures
        script_safe(text).len() > 0,
        script_safe(text).last() == text.last(),
{
}

/// No `<` in the text is directly followed by `/`, so the text cannot
/// close an enclosing `<script>` element.
pub open spec fn never_closes(s: Seq<char>) -> bool {
    forall|i: int| 0 <= i < s.len() - 1 ==> !(#[trigger] s[i] == '<' && s[i + 1] == '/')
}

/// Joining two such texts gives one, unless the first ends with `<` and
/// the second starts with `/`.
pub proof fn lemma_concat_never_closes(a: Seq<char>, b: Seq<char>)
    requires
        never_closes(a),
        never_closes(b),
        !(a.len() > 0 && b.len() > 0 && a.last() == '<' && b[0] == '/'),
    ensures
        never_closes(a + b),
{
    let c = a + b;
    assert forall|i: int| 0 <= i < c.len() - 1 implies !(#[trigger] c[i] == '<' && c[i + 1] == '/') by {
        if i + 1 < a.len() {
            assert(c[i] == a[i]);
            assert(c[i + 1] == a[i + 1]);
        } else if i + 1 == a.len() {
            assert(c[i] == a.last());
            assert(c[i + 1] == b[0]);
        } else {
            assert(c[i] == b[i - a.len()]);
            assert(c[i + 1] == b[i + 1 - a.len()]);
        }
    }
}

/// Text that holds no `</` is left exactly as it is; only a `/` that
/// follows `<` is changed.
pub proof fn lemma_script_safe_identity(text: Seq<char>)
    requires
        never_closes(text),
    ensures
        script_safe(text) == text,
    decreases text.len(),
{
    if text.len() > 0 {
        let prev = text.drop_last();
        assert forall|i: int| 0 <= i < prev.len() - 1 implies !(#[trigger] prev[i] == '<' && prev[i + 1] == '/') by {
            assert(prev[i] == text[i] && prev[i + 1] == text[i + 1]);
        }
        lemma_script_safe_identity(prev);
        if prev.len() > 0 {
            assert(prev.last() == text[text.len() - 2]);
        }
        assert(script_safe_char(prev, text.last()) == seq![text.last()]);
        assert(prev.push(text.last()) == text);
    }
}

/// Escaped text never holds `</`.
pub proof fn lemma_script_safe_never_closes(text: Seq<char>)
    ensures
        never_closes(script_safe(text)),
    decreases text.len(),
{
    if text.len() > 0 {
        let prev = text.drop_last();
        lemma_script_safe_never_closes(prev);
        let a = script_safe(prev);
        let b = script_safe_char(prev, text.last());
        assert(script_safe(text) == a + b);
        if prev.len() > 0 {
            lemma_script_safe_last(prev);
        }
        lemma_concat_never_closes(a, b);
    }
}

} // verus!

verus! {

/// The elements of a string list as a JSON array.
pub open spec fn json_str_elems(items: Seq<&str>) -> Seq<char>
    decreases items.len(),
{
    if items.len() == 0 {
        Seq::empty()
    } else if items.len() == 1 {
        json_quote(items[0]@)
    } else {
        json_str_elems(items.drop_last()) + seq![','] + json_quote(items.last()@)
    }
}

/// A list of strings as a JSON array.
pub open spec fn json_str_list(items: Seq<&str>) -> Seq<char> {
    seq!['['] + json_str_elems(items) + seq![']']
}

/// Append a list of strings as a JSON array.
pub fn push_json_str_list(out: &mut String, items: &[&str])
    ensures
        final(out)@ == old(out)@ + json_str_list(items@),
{
    let ghost start = out@;
    push_char(out, '[');
    let mut i: usize = 0;
    while i < items.len()
        invariant
            i <= items.len(),
            out@ == start + seq!['['] + json_str_elems(items@.take(i as int)),
        decreases items.len() - i,
    {
        proof {
            assert(items@.take(i + 1).drop_last() == items@.take(i as int));
        }
        if i > 0 {
            push_char(out, ',');
        }
        push_json_string(out, items[i]);
        i = i + 1;
    }
    push_char(out, ']');
    proof {
        assert(items@.take(items.len() as int) == items@);
    }
}

/// Append a list of values as a JSON array.
pub fn push_json_array(out: &mut String, items: &[JsonValue])
    ensures
        final(out)@ == old(out)@ + seq!['['] + json_elems(json_views(items@)) + seq![']'],
{
    let ghost start = out@;
    let ghost iv = json_views(items@);
    push_char(out, '[');
    let mut i: usize = 0;
    while i < items.len()
        invariant
            i <= items.len(),
            iv == json_views(items@),
            out@ == start + seq!['['] + json_elems(iv.take(i as int)),
        decreases items.len() - i,
    {
        proof {
            assert(iv.take(i + 1).drop_last() == iv.take(i as int));
            assert(iv.take(i + 1).last() == items@[i as int]@);
        }
        if i > 0 {
            push_char(out, ',');
        }
        push_json_text(out, &items[i]);
        i = i + 1;
    }
    push_char(out, ']');
    proof {
        assert(iv.take(items.len() as int) == iv);
    }
}

} // verus!

verus! {

impl JsonValue {
    /// A deep copy of the value.
    #[verifier::spinoff_prover]
    pub fn deep_clone(&self) -> (r: JsonValue)
        ensures
            r@ == self@,
        decreases self,
    {
        match self {
            JsonValue::Null => JsonValue::Null,
            JsonValue::Bool(b) => JsonValue::Bool(*b),
            JsonValue::Number(t) => JsonValue::Number(t.clone()),
            JsonValue::String(s) => JsonValue::String(s.clone()),
            JsonValue::Array(items) => {
                let mut out: Vec<JsonValue> = Vec::new();
                let mut i: usize = 0;
                while i < items.len()
                    invariant
                        i <= items.len(),
                        *self == JsonValue::Array(*items),
                        out@.len() == i,
                        forall|j: int| 0 <= j < i ==> #[trigger] out@[j]@ == items@[j]@,
                    decreases items.len() - i,
                {
                    proof {
                        assert(decreases_to!(*self => (*self)->Array_0));
                        assert(decreases_to!(*items => items@));
                        assert(decreases_to!(items@ => items@[i as int]));
                    }
                    let c = items[i].deep_clone();
                    out.push(c);
                    i = i + 1;
                }
                let r = JsonValue::Array(out);
                proof {
                    lemma_json_view(r);
                    lemma_json_view(*self);
                    assert(json_views(out@) =~= json_views(items@));
                }
                r
            },
            JsonValue::Object(members) => {
                let mut out: Vec<(String, JsonValue)> = Vec::new();
                let mut i: usize = 0;
                while i < members.len()
                    invariant
                        i <= members.len(),
                        *self == JsonValue::Object(*members),
                        out@.len() == i,
                        forall|j: int| 0 <= j < i ==> #[trigger] out@[j].0@ == members@[j].0@ && out@[j].1@ == members@[j].1@,
                    decreases members.len() - i,
                {
                    proof {
                        assert(decreases_to!(*self => (*self)->Object_0));
                        assert(decreases_to!(*members => members@));
                        assert(decreases_to!(members@ => members@[i as int]));
                        assert(decreases_to!(members@[i as int] => members@[i as int].1));
                    }
                    let k = members[i].0.clone();
                    let v = members[i].1.deep_clone();
                    let ghost before = out@;
                    out.push((k, v));
                    proof {
                        assert(out@[i as int].0@ == members@[i as int].0@);
                        assert(out@[i as int].1@ == members@[i as int].1@);
                        assert forall|j: int| 0 <= j < i implies #[trigger] out@[j].0@ == members@[j].0@
                            && out@[j].1@ == members@[j].1@ by {
                            assert(out@[j] == before[j]);
                        }
                    }
                    i = i + 1;
                }
                let r = JsonValue::Object(out);
                proof {
                    lemma_json_view(r);
                    lemma_json_view(*self);
                    assert(member_views(out@) =~= member_views(members@));
                }
                r
            },
        }
    }
}

} // verus!
