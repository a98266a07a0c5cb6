//! What the renderer writes for each kind of protocol fragment, given the
//! values the fragment's bindings resolved to.

use vstd::prelude::*;

use crate::html_encode::{encode_safe, html_escape, is_html_special, lemma_html_escape_identity};
use crate::json::{json_text, json_to_string, JsonData, JsonValue};
use crate::scope::RenderScope;
use crate::writer::{appended, attr_text, write_attr, ResponseWriter};
use crate::HandlerError;

verus! {

/// The text a bound value stands for: a string as itself, anything else as
/// its compact JSON.
pub open spec fn value_text(v: JsonData) -> Seq<char> {
    match v {
        JsonData::String(s) => s,
        _ => json_text(v),
    }
}

/// The text a bound value stands for.
pub fn value_to_text(v: &JsonValue) -> (s: String)
    ensures
        s@ == value_text(v@),
{
    match v {
        JsonValue::String(s) => s.clone(),
        _ => json_to_string(v),
    }
}

/// What a signal writes: the value's text, HTML-escaped unless the signal
/// is raw.
pub open spec fn signal_text(v: JsonData, raw: bool) -> Seq<char> {
    if raw {
        value_text(v)
    } else {
        html_escape(value_text(v))
    }
}

/// Write a signal's value.
pub fn write_signal_value<W: ?Sized + ResponseWriter>(value: &JsonValue, raw: bool, writer: &mut W) -> (r: Result<
    (),
    HandlerError,
>)
    ensures
        old(writer).never_fails() ==> r is Ok,
        appended(old(writer).written(), final(writer).written(), signal_text(value@, raw), r is Ok),
{
    if raw {
        match value {
            JsonValue::String(s) => writer.write(s.as_str()),
            _ => {
                let text = json_to_string(value);
                writer.write(text.as_str())
            },
        }
    } else {
        let text = value_to_text(value);
        let escaped = encode_safe(text.as_str());
        writer.write(escaped.as_str())
    }
}

/// One piece of a template attribute value.
pub enum TemplatePart<'a> {
    /// Literal text.
    Raw(&'a str),
    /// A signal, with the value it resolved to (if any).
    Signal(Option<&'a JsonValue>),
}

/// The unescaped value of a template attribute: literal text and resolved
/// signal values one after another; unresolved signals add nothing.
pub open spec fn template_value(parts: Seq<TemplatePart>) -> Seq<char>
    decreases parts.len(),
{
    if parts.len() == 0 {
        Seq::empty()
    } else {
        template_value(parts.drop_last()) + match parts.last() {
            TemplatePart::Raw(t) => t@,
            TemplatePart::Signal(Some(v)) => value_text(v@),
            TemplatePart::Signal(None) => Seq::empty(),
        }
    }
}

/// A fragment list that must exist: the list that the lookup of
/// `fragment_id` found, or the missing-fragment error naming the id.
pub fn require_fragment<'a, T>(found: Option<&'a T>, fragment_id: &str) -> (r: Result<&'a T, HandlerError>)
    ensures
        match found {
            Some(x) => r == Ok::<&'a T, HandlerError>(x),
            None => r matches Err(HandlerError::MissingFragment(m)) && m@ == fragment_id@,
        },
{
    match found {
        Some(x) => Ok(x),
        None => Err(HandlerError::MissingFragment(fragment_id.to_owned())),
    }
}

/// Render a template attribute's parts into a raw (unescaped) string.
pub fn render_template_attr_value(parts: &[TemplatePart]) -> (s: String)
    ensures
        s@ == template_value(parts@),
{
    let mut s = String::new();
    let mut i: usize = 0;
    while i < parts.len()
        invariant
            i <= parts.len(),
            s@ == template_value(parts@.take(i as int)),
        decreases parts.len() - i,
    {
        proof {
            assert(parts@.take(i + 1).drop_last() == parts@.take(i as int));
            assert(parts@.take(i + 1).last() == parts@[i as int]);
        }
        match &parts[i] {
            TemplatePart::Raw(t) => s.append(t),
            TemplatePart::Signal(Some(v)) => {
                let text = value_to_text(v);
                s.append(text.as_str());
            },
            TemplatePart::Signal(None) => {},
        }
        i = i + 1;
    }
    proof {
        assert(parts@.take(parts.len() as int) == parts@);
    }
    s
}

} // verus!

verus! {

/// An attribute of an element in the protocol.
pub struct AttributeFragment {
    /// The attribute's name as written on the element.
    pub name: String,
    /// The literal value, or the path of the bound value.
    pub value: String,
    /// The id of the fragment list of a mixed static and dynamic value.
    pub template: String,
    /// Whether `value` is a literal.
    pub raw_value: bool,
    /// Whether the value is passed to the component as data only.
    pub complex: bool,
    /// Whether this is the first attribute of a component element.
    pub attr_start: bool,
    /// Whether the attribute is not passed to the component.
    pub attr_skip: bool,
    /// Whether the attribute is boolean, present when a condition holds.
    pub has_condition: bool,
}

/// How an attribute is rendered.
#[derive(Debug, Clone, Copy, PartialEq, Eq, Structural)]
pub enum AttributeKind {
    /// Present when its condition holds.
    Boolean,
    /// Mixed static and dynamic value.
    Template,
    /// Literal value.
    Static,
    /// Data passed to the component only.
    Complex,
    /// Bound value.
    Dynamic,
    /// Nothing to render.
    Empty,
}

/// The kind of an attribute, decided in this order: a condition, a
/// template, then by its value (literal, complex, or bound).
pub open spec fn kind_of(a: AttributeFragment) -> AttributeKind {
    if a.has_condition {
        AttributeKind::Boolean
    } else if a.template@.len() > 0 {
        AttributeKind::Template
    } else if a.value@.len() > 0 {
        if a.raw_value {
            AttributeKind::Static
        } else if a.complex {
            AttributeKind::Complex
        } else {
            AttributeKind::Dynamic
        }
    } else {
        AttributeKind::Empty
    }
}

/// How an attribute is rendered.
pub fn attribute_kind(attr: &AttributeFragment) -> (k: AttributeKind)
    ensures
        k == kind_of(*attr),
{
    if attr.has_condition {
        AttributeKind::Boolean
    } else if !attr.template.as_str().is_empty() {
        AttributeKind::Template
    } else if !attr.value.as_str().is_empty() {
        if attr.raw_value {
            AttributeKind::Static
        } else if attr.complex {
            AttributeKind::Complex
        } else {
            AttributeKind::Dynamic
        }
    } else {
        AttributeKind::Empty
    }
}

/// A component attribute name without the `:` that marks a data binding.
pub open spec fn without_binding_prefix(name: Seq<char>) -> Seq<char> {
    if name.len() > 0 && name[0] == ':' {
        name.drop_first()
    } else {
        name
    }
}

/// Strip one leading `:` from an attribute name.
pub fn strip_binding_prefix(name: &str) -> (r: &str)
    ensures
        r@ == without_binding_prefix(name@),
{
    let n = name.unicode_len();
    if n > 0 && name.get_char(0) == ':' {
        name.substring_char(1, n)
    } else {
        name
    }
}

/// Start an attribute: the first attribute of a component element clears
/// the attributes collected before.
pub fn begin_attribute(attr: &AttributeFragment, scope: &mut RenderScope)
    requires
        old(scope).wf(),
    ensures
        final(scope).wf(),
        final(scope).local_vars@ == old(scope).local_vars@,
        final(scope).component_attrs@ == (if attr.attr_start {
            Map::<Seq<char>, JsonData>::empty()
        } else {
            old(scope).component_attrs@
        }),
{
    if attr.attr_start {
        scope.start_component_attrs();
    }
}

/// The component attributes after an attribute whose component name is
/// `key` and whose value is `value`: recorded unless the attribute is
/// skipped.
pub open spec fn recorded(attrs: Map<Seq<char>, JsonData>, attr: AttributeFragment, key: Seq<char>, value: JsonData) -> Map<
    Seq<char>,
    JsonData,
> {
    if attr.attr_skip {
        attrs
    } else {
        attrs.insert(key, value)
    }
}

/// A boolean attribute: ` name` when its condition holds; the component
/// receives the condition's value.
pub fn apply_boolean_attribute<W: ?Sized + ResponseWriter>(
    attr: &AttributeFragment,
    condition_met: bool,
    component_name: &str,
    scope: &mut RenderScope,
    writer: &mut W,
) -> (r: Result<(), HandlerError>)
    requires
        old(scope).wf(),
    ensures
        !condition_met ==> r is Ok,
        old(writer).never_fails() ==> r is Ok,
        final(scope).wf(),
        final(scope).local_vars@ == old(scope).local_vars@,
        final(scope).component_attrs@ == recorded(
            old(scope).component_attrs@,
            *attr,
            component_name@,
            JsonData::Bool(condition_met),
        ),
        appended(
            old(writer).written(),
            final(writer).written(),
            if condition_met { seq![' '] + attr.name@ } else { Seq::empty() },
            r is Ok,
        ),
{
    if !attr.attr_skip {
        scope.record_component_attr(component_name.to_string(), JsonValue::Bool(condition_met));
    }
    if condition_met {
        let res = writer.write(" ");
        proof {
            reveal_strlit(" ");
            assert(" "@ =~= seq![' ']);
        }
        if res.is_err() {
            proof {
                crate::writer::lemma_appended_fail_extends(old(writer).written(), writer.written(), seq![' '], attr.name@);
            }
            return res;
        }
        let ghost mid = writer.written();
        let res = writer.write(attr.name.as_str());
        proof {
            crate::writer::lemma_appended_then(old(writer).written(), mid, writer.written(), seq![' '], attr.name@, res is Ok);
        }
        res
    } else {
        proof {
            assert(old(writer).written() + Seq::<char>::empty() == old(writer).written());
        }
        Ok(())
    }
}

/// A template attribute: written HTML-escaped; the component receives the
/// unescaped value.
pub fn apply_template_attribute<W: ?Sized + ResponseWriter>(
    attr: &AttributeFragment,
    raw_value: String,
    component_name: &str,
    scope: &mut RenderScope,
    writer: &mut W,
) -> (r: Result<(), HandlerError>)
    requires
        old(scope).wf(),
    ensures
        old(writer).never_fails() ==> r is Ok,
        final(scope).wf(),
        final(scope).local_vars@ == old(scope).local_vars@,
        r is Ok ==> final(scope).component_attrs@ == recorded(
            old(scope).component_attrs@,
            *attr,
            component_name@,
            JsonData::String(raw_value@),
        ),
        r is Err ==> final(scope).component_attrs@ == old(scope).component_attrs@,
        appended(
            old(writer).written(),
            final(writer).written(),
            attr_text(attr.name@, html_escape(raw_value@)),
            r is Ok,
        ),
{
    let escaped = encode_safe(raw_value.as_str());
    let res = write_attr(writer, attr.name.as_str(), escaped.as_str());
    if res.is_err() {
        return res;
    }
    if !attr.attr_skip {
        scope.record_component_attr(component_name.to_string(), JsonValue::String(raw_value));
    }
    Ok(())
}

/// A literal attribute: written as is; the component receives the literal.
pub fn apply_static_attribute<W: ?Sized + ResponseWriter>(
    attr: &AttributeFragment,
    component_name: &str,
    scope: &mut RenderScope,
    writer: &mut W,
) -> (r: Result<(), HandlerError>)
    requires
        old(scope).wf(),
    ensures
        old(writer).never_fails() ==> r is Ok,
        final(scope).wf(),
        final(scope).local_vars@ == old(scope).local_vars@,
        r is Ok ==> final(scope).component_attrs@ == recorded(
            old(scope).component_attrs@,
            *attr,
            component_name@,
            JsonData::String(attr.value@),
        ),
        r is Err ==> final(scope).component_attrs@ == old(scope).component_attrs@,
        appended(old(writer).written(), final(writer).written(), attr_text(attr.name@, attr.value@), r is Ok),
{
    let res = write_attr(writer, attr.name.as_str(), attr.value.as_str());
    if res.is_err() {
        return res;
    }
    if !attr.attr_skip {
        scope.record_component_attr(component_name.to_string(), JsonValue::String(attr.value.clone()));
    }
    Ok(())
}

/// A complex attribute: nothing is written; the component receives the
/// bound value when there is one.
pub fn apply_complex_attribute(
    attr: &AttributeFragment,
    resolved: Option<JsonValue>,
    component_name: &str,
    scope: &mut RenderScope,
)
    requires
        old(scope).wf(),
    ensures
        final(scope).wf(),
        final(scope).local_vars@ == old(scope).local_vars@,
        final(scope).component_attrs@ == match resolved {
            Some(v) => recorded(old(scope).component_attrs@, *attr, component_name@, v@),
            None => old(scope).component_attrs@,
        },
{
    if let Some(value) = resolved {
        if !attr.attr_skip {
            scope.record_component_attr(component_name.to_string(), value);
        }
    }
}

/// The text a bound attribute is written with: a string HTML-escaped, null
/// or a missing value as empty, anything else as its HTML-escaped JSON.
pub open spec fn dynamic_attr_value(resolved: Option<JsonData>) -> Seq<char> {
    match resolved {
        Some(JsonData::String(s)) => html_escape(s),
        Some(JsonData::Null) => Seq::empty(),
        None => Seq::empty(),
        Some(v) => html_escape(json_text(v)),
    }
}

/// A bound attribute: always written (so hydration markers match the DOM);
/// the component receives the value, or the empty string when none resolved.
pub fn apply_dynamic_attribute<W: ?Sized + ResponseWriter>(
    attr: &AttributeFragment,
    resolved: Option<JsonValue>,
    component_name: &str,
    scope: &mut RenderScope,
    writer: &mut W,
) -> (r: Result<(), HandlerError>)
    requires
        old(scope).wf(),
    ensures
        old(writer).never_fails() ==> r is Ok,
        final(scope).wf(),
        final(scope).local_vars@ == old(scope).local_vars@,
        r is Ok ==> final(scope).component_attrs@ == recorded(
            old(scope).component_attrs@,
            *attr,
            component_name@,
            match resolved {
                Some(v) => v@,
                None => JsonData::String(Seq::empty()),
            },
        ),
        r is Err ==> final(scope).component_attrs@ == old(scope).component_attrs@,
        appended(
            old(writer).written(),
            final(writer).written(),
            attr_text(attr.name@, dynamic_attr_value(match resolved {
                Some(v) => Some(v@),
                None => None,
            })),
            r is Ok,
        ),
{
    let res = match &resolved {
        Some(JsonValue::String(s)) => {
            let escaped = encode_safe(s.as_str());
            write_attr(writer, attr.name.as_str(), escaped.as_str())
        },
        Some(JsonValue::Null) | None => {
            proof { reveal_strlit(""); }
            write_attr(writer, attr.name.as_str(), "")
        },
        Some(other) => {
            let text = json_to_string(other);
            let escaped = encode_safe(text.as_str());
            write_attr(writer, attr.name.as_str(), escaped.as_str())
        },
    };
    if res.is_err() {
        return res;
    }
    if !attr.attr_skip {
        let value = match resolved {
            Some(v) => v,
            None => JsonValue::String(String::new()),
        };
        scope.record_component_attr(component_name.to_string(), value);
    }
    Ok(())
}

} // verus!

verus! {

/// What a condition evaluated to.
pub enum ConditionOutcome {
    /// The condition evaluated to this value.
    Holds(bool),
    /// The condition refers to a value that is not there.
    MissingValue,
    /// Evaluation failed with this message.
    Failed(String),
}

/// Whether a condition is met: a missing value counts as false; any other
/// evaluation failure is an error.
pub fn condition_result(outcome: ConditionOutcome) -> (r: Result<bool, HandlerError>)
    ensures
        match outcome {
            ConditionOutcome::Holds(b) => r == Ok::<bool, HandlerError>(b),
            ConditionOutcome::MissingValue => r == Ok::<bool, HandlerError>(false),
            ConditionOutcome::Failed(m) => r matches Err(HandlerError::Evaluation(e)) && e@ == m@,
        },
{
    match outcome {
        ConditionOutcome::Holds(b) => Ok(b),
        ConditionOutcome::MissingValue => Ok(false),
        ConditionOutcome::Failed(message) => Err(HandlerError::Evaluation(message)),
    }
}

/// The error for a loop over a value that is not an array.
pub open spec fn not_an_array_message(collection: Seq<char>) -> Seq<char> {
    "Collection '"@ + collection + "' is not an array"@
}

/// The items a loop iterates: the elements of an array; nothing when the
/// collection is missing; an error for any other value.
pub fn loop_items(resolved: Option<JsonValue>, collection: &str) -> (r: Result<Vec<JsonValue>, HandlerError>)
    ensures
        match resolved {
            None => r is Ok && r->Ok_0@.len() == 0,
            Some(v) => match v@ {
                JsonData::Array(items) => r is Ok && crate::json::json_views(r->Ok_0@) == items,
                _ => r matches Err(HandlerError::TypeError(m)) && m@ == not_an_array_message(collection@),
            },
        },
{
    match resolved {
        Some(JsonValue::Array(items)) => {
            proof {
                crate::json::lemma_json_view(JsonValue::Array(items));
            }
            Ok(items)
        },
        Some(_) => {
            let mut message = String::new();
            message.append("Collection '");
            message.append(collection);
            message.append("' is not an array");
            Err(HandlerError::TypeError(message))
        },
        None => Ok(Vec::new()),
    }
}

} // verus!

verus! {

/// What a bound attribute is written with: a string HTML-escaped; null or a
/// missing value as nothing; any other value (a number, a boolean, an array
/// or an object) as the HTML-escaped compact JSON of the value, so a boolean
/// is written `true` or `false`.
pub proof fn lemma_bound_attribute_value(v: JsonData)
    ensures
        v matches JsonData::String(s) ==> dynamic_attr_value(Some(v)) == html_escape(s),
        v is Null ==> dynamic_attr_value(Some(v)) == Seq::<char>::empty(),
        dynamic_attr_value(None) == Seq::<char>::empty(),
        !(v is String) && !(v is Null) ==> dynamic_attr_value(Some(v)) == html_escape(json_text(v)),
        dynamic_attr_value(Some(JsonData::Bool(true))) == seq!['t', 'r', 'u', 'e'],
        dynamic_attr_value(Some(JsonData::Bool(false))) == seq!['f', 'a', 'l', 's', 'e'],
{
    let t = seq!['t', 'r', 'u', 'e'];
    let f = seq!['f', 'a', 'l', 's', 'e'];
    assert forall|i: int| 0 <= i < t.len() implies !is_html_special(#[trigger] t[i]) by {}
    assert forall|i: int| 0 <= i < f.len() implies !is_html_special(#[trigger] f[i]) by {}
    lemma_html_escape_identity(t);
    lemma_html_escape_identity(f);
}

} // verus!

verus! {

/// A signal writes a string value as itself when raw and HTML-escaped
/// otherwise; any other value as its compact JSON, escaped unless raw. The
/// escaped form is always the escaping of the raw form.
pub proof fn lemma_signal_text_raw_and_escaped(v: JsonData)
    ensures
        signal_text(v, false) == html_escape(signal_text(v, true)),
        v matches JsonData::String(s) ==> signal_text(v, true) == s,
        !(v is String) ==> signal_text(v, true) == json_text(v),
        v matches JsonData::String(s) ==> value_text(v) == s,
        !(v is String) ==> value_text(v) == json_text(v),
{
}

} // verus!
