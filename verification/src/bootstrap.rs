//! The `#webhub-data` hydration bootstrap block and the script-safe JSON
//! writers it is made of.

use vstd::prelude::*;

use crate::json::{
    json_elems, json_quote, json_views, json_str_list, json_text, lemma_concat_never_closes, lemma_script_safe_last,
    lemma_script_safe_never_closes, never_closes, push_json_array, push_json_str_list, push_json_string,
    push_json_text, script_safe, script_safe_string, JsonData, JsonValue,
};
use crate::state::{projected_text, push_projected_state, StateSelection};
use crate::text::push_char;
use crate::writer::{appended, field_name_text, ResponseWriter};
use crate::HandlerError;

verus! {

/// Write JSON text with every `</` escaped, so that it cannot close the
/// enclosing `<script>` element.
pub fn write_script_safe_json_str<W: ?Sized + ResponseWriter>(writer: &mut W, json: &str) -> (r: Result<(), HandlerError>)
    ensures
        json@.len() == 0 ==> r is Ok && final(writer).written() == old(writer).written(),
        old(writer).never_fails() ==> r is Ok,
        appended(old(writer).written(), final(writer).written(), script_safe(json@), r is Ok),
{
    if json.is_empty() {
        proof {
            assert(old(writer).written() + script_safe(json@) == old(writer).written());
        }
        return Ok(());
    }
    let escaped = script_safe_string(json);
    writer.write(escaped.as_str())
}

/// Write a value as script-safe JSON.
pub fn write_script_safe_json<W: ?Sized + ResponseWriter>(writer: &mut W, value: &JsonValue) -> (r: Result<(), HandlerError>)
    ensures
        old(writer).never_fails() ==> r is Ok,
        appended(old(writer).written(), final(writer).written(), script_safe(json_text(value@)), r is Ok),
{
    let json = crate::json::json_to_string(value);
    write_script_safe_json_str(writer, json.as_str())
}

/// The script-safe JSON of the state under a selection: the whole state, or
/// for a key allowlist the projected object (`{}` for an empty allowlist).
pub open spec fn selected_state_text(state: JsonData, selection: StateSelection) -> Seq<char> {
    match selection {
        StateSelection::Full => script_safe(json_text(state)),
        StateSelection::Keys(keys) => if keys.len() == 0 {
            seq!['{', '}']
        } else {
            script_safe(projected_text(state, keys@))
        },
    }
}

/// Append the script-safe JSON of the selected state.
pub fn push_selected_state(out: &mut String, state: &JsonValue, selection: &StateSelection)
    ensures
        final(out)@ == old(out)@ + selected_state_text(state@, *selection),
{
    match selection {
        StateSelection::Full => {
            let json = crate::json::json_to_string(state);
            let escaped = script_safe_string(json.as_str());
            out.append(escaped.as_str());
        },
        StateSelection::Keys(keys) => {
            if keys.len() == 0 {
                push_char(out, '{');
                push_char(out, '}');
            } else {
                let mut json = String::new();
                push_projected_state(&mut json, state, keys);
                let escaped = script_safe_string(json.as_str());
                out.append(escaped.as_str());
            }
        },
    }
}

/// Write the SSR state into the bootstrap block according to the selection,
/// escaped for safe embedding in a `<script>`.
pub fn write_selected_state<W: ?Sized + ResponseWriter>(
    writer: &mut W,
    state: &JsonValue,
    selection: &StateSelection,
) -> (r: Result<(), HandlerError>)
    ensures
        old(writer).never_fails() ==> r is Ok,
        appended(old(writer).written(), final(writer).written(), selected_state_text(state@, *selection), r is Ok),
{
    let mut out = String::new();
    push_selected_state(&mut out, state, selection);
    writer.write(out.as_str())
}

/// A compiled component template carried by the bootstrap block.
pub struct TemplatePayload<'a> {
    pub tag_name: &'a str,
    pub template_json: &'a str,
}

/// The `tag:template` entries of the templates that have template JSON.
pub open spec fn template_entries(templates: Seq<TemplatePayload>) -> Seq<char>
    decreases templates.len(),
{
    if templates.len() == 0 {
        Seq::empty()
    } else {
        let prev = template_entries(templates.drop_last());
        let t = templates.last();
        if t.template_json@.len() == 0 {
            prev
        } else {
            prev + (if prev.len() > 0 {
                seq![',']
            } else {
                Seq::empty()
            }) + script_safe(json_quote(t.tag_name@)) + seq![':'] + script_safe(t.template_json@)
        }
    }
}

/// The template map object: tag name to template JSON.
pub open spec fn template_map_text(templates: Seq<TemplatePayload>) -> Seq<char> {
    seq!['{'] + template_entries(templates) + seq!['}']
}

/// Append the template map object.
pub fn push_template_json_map(out: &mut String, templates: &[TemplatePayload])
    ensures
        final(out)@ == old(out)@ + template_map_text(templates@),
{
    let ghost start = out@;
    push_char(out, '{');
    let mut wrote = false;
    let mut i: usize = 0;
    while i < templates.len()
        invariant
            i <= templates.len(),
            wrote == (template_entries(templates@.take(i as int)).len() > 0),
            out@ == start + seq!['{'] + template_entries(templates@.take(i as int)),
        decreases templates.len() - i,
    {
        proof {
            assert(templates@.take(i + 1).drop_last() == templates@.take(i as int));
            assert(templates@.take(i + 1).last() == templates@[i as int]);
        }
        let template = &templates[i];
        if !template.template_json.is_empty() {
            if wrote {
                push_char(out, ',');
            }
            wrote = true;
            let mut tag = String::new();
            push_json_string(&mut tag, template.tag_name);
            let tag_escaped = script_safe_string(tag.as_str());
            out.append(tag_escaped.as_str());
            push_char(out, ':');
            let body = script_safe_string(template.template_json);
            out.append(body.as_str());
            proof {
                assert(tag@ == json_quote(template.tag_name@));
                assert(json_quote(template.tag_name@).len() > 0);
                assert(script_safe(json_quote(template.tag_name@)).len() > 0) by {
                    crate::json::lemma_script_safe_last(json_quote(template.tag_name@));
                }
            }
        } else {
            proof {
                assert(template.template_json@.len() == 0);
            }
        }
        i = i + 1;
    }
    push_char(out, '}');
    proof {
        assert(templates@.take(templates.len() as int) == templates@);
    }
}

/// Write the template map object.
pub fn write_webhub_template_json_map<W: ?Sized + ResponseWriter>(writer: &mut W, templates: &[TemplatePayload]) -> (r: Result<
    (),
    HandlerError,
>)
    ensures
        old(writer).never_fails() ==> r is Ok,
        appended(old(writer).written(), final(writer).written(), template_map_text(templates@), r is Ok),
{
    let mut out = String::new();
    push_template_json_map(&mut out, templates);
    writer.write(out.as_str())
}

} // verus!

verus! {

/// The data the bootstrap block carries.
#[allow(non_camel_case_types)]
pub struct webhubBootstrap<'a> {
    pub state: &'a JsonValue,
    pub state_selection: StateSelection,
    pub chain: &'a [JsonValue],
    pub inventory: &'a str,
    pub nonce: Option<&'a str>,
    pub css_hrefs: &'a [&'a str],
    pub style_specs: &'a [&'a str],
    pub templates: &'a [TemplatePayload<'a>],
}

/// `"name":value` members separated by commas.
pub open spec fn fields_text(fields: Seq<(Seq<char>, Seq<char>)>) -> Seq<char>
    decreases fields.len(),
{
    if fields.len() == 0 {
        Seq::empty()
    } else {
        fields_text(fields.drop_last()) + field_name_text(fields.len() > 1, fields.last().0) + fields.last().1
    }
}

/// Whether any template has template JSON.
pub open spec fn has_template_json(templates: Seq<TemplatePayload>) -> bool {
    exists|i: int| 0 <= i < templates.len() && #[trigger] templates[i].template_json@.len() > 0
}

pub open spec fn name_chain() -> Seq<char> { seq!['c', 'h', 'a', 'i', 'n'] }
pub open spec fn name_css() -> Seq<char> { seq!['c', 's', 's'] }
pub open spec fn name_inventory() -> Seq<char> { seq!['i', 'n', 'v', 'e', 'n', 't', 'o', 'r', 'y'] }
pub open spec fn name_nonce() -> Seq<char> { seq!['n', 'o', 'n', 'c', 'e'] }
pub open spec fn name_state() -> Seq<char> { seq!['s', 't', 'a', 't', 'e'] }
pub open spec fn name_styles() -> Seq<char> { seq!['s', 't', 'y', 'l', 'e', 's'] }
pub open spec fn name_templates() -> Seq<char> { seq!['t', 'e', 'm', 'p', 'l', 'a', 't', 'e', 's'] }

/// The members of the bootstrap object, in order: `chain` and `css` when
/// non-empty, `inventory`, `nonce` when set, `state`, `styles` when
/// non-empty, and `templates` when some template has template JSON.
pub open spec fn bootstrap_fields(b: webhubBootstrap) -> Seq<(Seq<char>, Seq<char>)> {
    let f1: Seq<(Seq<char>, Seq<char>)> = if b.chain@.len() > 0 {
        seq![(name_chain(), script_safe(seq!['['] + json_elems(json_views(b.chain@)) + seq![']']))]
    } else {
        Seq::empty()
    };
    let f2 = if b.css_hrefs@.len() > 0 {
        f1.push((name_css(), script_safe(json_str_list(b.css_hrefs@))))
    } else {
        f1
    };
    let f3 = f2.push((name_inventory(), script_safe(json_quote(b.inventory@))));
    let f4 = match b.nonce {
        Some(n) => f3.push((name_nonce(), script_safe(json_quote(n@)))),
        None => f3,
    };
    let f5 = f4.push((name_state(), selected_state_text(b.state@, b.state_selection)));
    let f6 = if b.style_specs@.len() > 0 {
        f5.push((name_styles(), script_safe(json_str_list(b.style_specs@))))
    } else {
        f5
    };
    if has_template_json(b.templates@) {
        f6.push((name_templates(), template_map_text(b.templates@)))
    } else {
        f6
    }
}

/// The bootstrap JSON object.
pub open spec fn bootstrap_text(b: webhubBootstrap) -> Seq<char> {
    seq!['{'] + fields_text(bootstrap_fields(b)) + seq!['}']
}

/// Append `,"name":value` (no comma for the first member).
fn push_field(out: &mut String, wrote: &mut bool, name: &str, value: &str)
    ensures
        *final(wrote),
        final(out)@ == old(out)@ + field_name_text(*old(wrote), name@) + value@,
{
    if *wrote {
        push_char(out, ',');
    }
    *wrote = true;
    push_char(out, '"');
    out.append(name);
    push_char(out, '"');
    push_char(out, ':');
    out.append(value);
    proof {
        let comma: Seq<char> = if *old(wrote) { seq![','] } else { Seq::empty() };
        assert(field_name_text(*old(wrote), name@) =~= comma + seq!['"'] + name@ + seq!['"', ':']);
    }
}

proof fn lemma_fields_text_push(fs: Seq<(Seq<char>, Seq<char>)>, f: (Seq<char>, Seq<char>))
    ensures
        fields_text(fs.push(f)) == fields_text(fs) + field_name_text(fs.len() > 0, f.0) + f.1,
{
    assert(fs.push(f).drop_last() == fs);
}

/// Whether any template has template JSON.
fn any_template_json(templates: &[TemplatePayload]) -> (r: bool)
    ensures
        r == has_template_json(templates@),
{
    let mut i: usize = 0;
    while i < templates.len()
        invariant
            i <= templates.len(),
            forall|j: int| 0 <= j < i ==> #[trigger] templates@[j].template_json@.len() == 0,
        decreases templates.len() - i,
    {
        if !templates[i].template_json.is_empty() {
            return true;
        }
        i = i + 1;
    }
    false
}

/// Append one member and record it in the ghost member list.
fn push_tracked_field(
    out: &mut String,
    wrote: &mut bool,
    name: &str,
    value: &str,
    Ghost(start): Ghost<Seq<char>>,
    Ghost(fs): Ghost<Seq<(Seq<char>, Seq<char>)>>,
)
    requires
        old(out)@ == start + seq!['{'] + fields_text(fs),
        *old(wrote) == (fs.len() > 0),
    ensures
        final(out)@ == start + seq!['{'] + fields_text(fs.push((name@, value@))),
        *final(wrote),
{
    proof {
        lemma_fields_text_push(fs, (name@, value@));
    }
    push_field(out, wrote, name, value);
}

/// Append the bootstrap JSON object.
#[verifier::spinoff_prover]
pub fn push_webhub_bootstrap(out: &mut String, b: &webhubBootstrap)
    ensures
        final(out)@ == old(out)@ + bootstrap_text(*b),
{
    proof {
        reveal_strlit("chain");
        reveal_strlit("css");
        reveal_strlit("inventory");
        reveal_strlit("nonce");
        reveal_strlit("state");
        reveal_strlit("styles");
        reveal_strlit("templates");
        assert("chain"@ =~= name_chain());
        assert("css"@ =~= name_css());
        assert("inventory"@ =~= name_inventory());
        assert("nonce"@ =~= name_nonce());
        assert("state"@ =~= name_state());
        assert("styles"@ =~= name_styles());
        assert("templates"@ =~= name_templates());
    }
    let ghost start = out@;
    let mut wrote = false;
    push_char(out, '{');
    let ghost f0: Seq<(Seq<char>, Seq<char>)> = Seq::empty();
    assert(out@ == start + seq!['{'] + fields_text(f0));
    let ghost mut f1 = f0;
    if b.chain.len() > 0 {
        let mut json = String::new();
        push_json_array(&mut json, b.chain);
        let value = script_safe_string(json.as_str());
        push_tracked_field(out, &mut wrote, "chain", value.as_str(), Ghost(start), Ghost(f0));
        proof { f1 = f0.push((name_chain(), value@)); }
    }
    let ghost mut f2 = f1;
    if b.css_hrefs.len() > 0 {
        let mut json = String::new();
        push_json_str_list(&mut json, b.css_hrefs);
        let value = script_safe_string(json.as_str());
        push_tracked_field(out, &mut wrote, "css", value.as_str(), Ghost(start), Ghost(f1));
        proof { f2 = f1.push((name_css(), value@)); }
    }
    let ghost mut f3 = f2;
    {
        let mut json = String::new();
        push_json_string(&mut json, b.inventory);
        let value = script_safe_string(json.as_str());
        push_tracked_field(out, &mut wrote, "inventory", value.as_str(), Ghost(start), Ghost(f2));
        proof { f3 = f2.push((name_inventory(), value@)); }
    }
    let ghost mut f4 = f3;
    if let Some(nonce) = b.nonce {
        let mut json = String::new();
        push_json_string(&mut json, nonce);
        let value = script_safe_string(json.as_str());
        push_tracked_field(out, &mut wrote, "nonce", value.as_str(), Ghost(start), Ghost(f3));
        proof { f4 = f3.push((name_nonce(), value@)); }
    }
    let ghost mut f5 = f4;
    {
        let mut value = String::new();
        push_selected_state(&mut value, b.state, &b.state_selection);
        push_tracked_field(out, &mut wrote, "state", value.as_str(), Ghost(start), Ghost(f4));
        proof { f5 = f4.push((name_state(), value@)); }
    }
    let ghost mut f6 = f5;
    if b.style_specs.len() > 0 {
        let mut json = String::new();
        push_json_str_list(&mut json, b.style_specs);
        let value = script_safe_string(json.as_str());
        push_tracked_field(out, &mut wrote, "styles", value.as_str(), Ghost(start), Ghost(f5));
        proof { f6 = f5.push((name_styles(), value@)); }
    }
    let ghost mut f7 = f6;
    if any_template_json(b.templates) {
        let mut value = String::new();
        push_template_json_map(&mut value, b.templates);
        push_tracked_field(out, &mut wrote, "templates", value.as_str(), Ghost(start), Ghost(f6));
        proof { f7 = f6.push((name_templates(), value@)); }
    }
    push_char(out, '}');
    proof {
        assert(f7 == bootstrap_fields(*b));
    }
}

/// Write the bootstrap JSON object.
pub fn write_webhub_bootstrap<W: ?Sized + ResponseWriter>(writer: &mut W, bootstrap: webhubBootstrap) -> (r: Result<(), HandlerError>)
    ensures
        old(writer).never_fails() ==> r is Ok,
        appended(old(writer).written(), final(writer).written(), bootstrap_text(bootstrap), r is Ok),
{
    let mut out = String::new();
    push_webhub_bootstrap(&mut out, &bootstrap);
    writer.write(out.as_str())
}

/// The `<script type="application/json" id="webhub-data">` element holding
/// the bootstrap object, with the CSP nonce when one is set.
pub open spec fn data_block_text(b: webhubBootstrap) -> Seq<char> {
    open_data_tag() + match b.nonce {
        Some(n) => seq![' ', 'n', 'o', 'n', 'c', 'e', '=', '"'] + n@ + seq!['"'],
        None => Seq::empty(),
    } + seq!['>'] + bootstrap_text(b) + close_script_line()
}

pub open spec fn open_data_tag() -> Seq<char> {
    "<script type=\"application/json\" id=\"webhub-data\""@
}

pub open spec fn close_script_line() -> Seq<char> {
    "</script>\n"@
}

/// Write the bootstrap block element.
pub fn write_webhub_data_block<W: ?Sized + ResponseWriter>(writer: &mut W, bootstrap: webhubBootstrap) -> (r: Result<(), HandlerError>)
    ensures
        old(writer).never_fails() ==> r is Ok,
        appended(old(writer).written(), final(writer).written(), data_block_text(bootstrap), r is Ok),
{
    let mut out = String::new();
    out.append("<script type=\"application/json\" id=\"webhub-data\"");
    if let Some(nonce) = bootstrap.nonce {
        proof { reveal_strlit(" nonce=\""); }
        out.append(" nonce=\"");
        out.append(nonce);
        push_char(&mut out, '"');
    }
    push_char(&mut out, '>');
    push_webhub_bootstrap(&mut out, &bootstrap);
    out.append("</script>\n");
    proof {
        let nonce_part: Seq<char> = match bootstrap.nonce {
            Some(n) => seq![' ', 'n', 'o', 'n', 'c', 'e', '=', '"'] + n@ + seq!['"'],
            None => Seq::empty(),
        };
        assert(out@ =~= open_data_tag() + nonce_part + seq!['>'] + bootstrap_text(bootstrap) + close_script_line());
    }
    writer.write(out.as_str())
}

} // verus!

verus! {

/// Every member name and value of a member list is free of `</`.
pub open spec fn fields_never_close(fs: Seq<(Seq<char>, Seq<char>)>) -> bool {
    forall|i: int| 0 <= i < fs.len() ==> never_closes(#[trigger] fs[i].0) && never_closes(fs[i].1)
}

/// A member list stays free of `</` when such a member is added.
proof fn lemma_fields_push_never_close(fs: Seq<(Seq<char>, Seq<char>)>, f: (Seq<char>, Seq<char>))
    requires
        fields_never_close(fs),
        never_closes(f.0),
        never_closes(f.1),
    ensures
        fields_never_close(fs.push(f)),
{
    assert forall|i: int| 0 <= i < fs.push(f).len() implies never_closes(#[trigger] fs.push(f)[i].0) && never_closes(
        fs.push(f)[i].1,
    ) by {
        if i < fs.len() {
            assert(fs.push(f)[i] == fs[i]);
        }
    }
}

/// A `"name":` prefix, with or without its comma.
proof fn lemma_field_name_never_closes(comma: bool, name: Seq<char>)
    requires
        never_closes(name),
    ensures
        never_closes(field_name_text(comma, name)),
        field_name_text(comma, name).last() == ':',
        field_name_text(comma, name)[0] != '/',
{
    let c: Seq<char> = if comma { seq![','] } else { Seq::empty() };
    lemma_concat_never_closes(c, seq!['"']);
    lemma_concat_never_closes(c + seq!['"'], name);
    lemma_concat_never_closes(c + seq!['"'] + name, seq!['"', ':']);
    assert(field_name_text(comma, name) == c + seq!['"'] + name + seq!['"', ':']);
}

/// The members of an object text are free of `</` when every member is.
proof fn lemma_fields_text_never_closes(fs: Seq<(Seq<char>, Seq<char>)>)
    requires
        fields_never_close(fs),
    ensures
        never_closes(fields_text(fs)),
    decreases fs.len(),
{
    if fs.len() > 0 {
        let init = fs.drop_last();
        let f = fs.last();
        assert forall|i: int| 0 <= i < init.len() implies never_closes(#[trigger] init[i].0) && never_closes(init[i].1) by {
            assert(init[i] == fs[i]);
        }
        assert(never_closes(f.0) && never_closes(f.1)) by {
            assert(f == fs[fs.len() - 1]);
        }
        lemma_fields_text_never_closes(init);
        let name = field_name_text(fs.len() > 1, f.0);
        lemma_field_name_never_closes(fs.len() > 1, f.0);
        lemma_concat_never_closes(fields_text(init), name);
        lemma_concat_never_closes(fields_text(init) + name, f.1);
    }
}

/// The template map is free of `</`.
proof fn lemma_template_entries_never_close(templates: Seq<TemplatePayload>)
    ensures
        never_closes(template_entries(templates)),
    decreases templates.len(),
{
    if templates.len() > 0 {
        let prev = template_entries(templates.drop_last());
        let t = templates.last();
        lemma_template_entries_never_close(templates.drop_last());
        if t.template_json@.len() > 0 {
            let comma: Seq<char> = if prev.len() > 0 { seq![','] } else { Seq::empty() };
            let tag = script_safe(json_quote(t.tag_name@));
            let body = script_safe(t.template_json@);
            lemma_script_safe_never_closes(json_quote(t.tag_name@));
            lemma_script_safe_never_closes(t.template_json@);
            lemma_script_safe_last(json_quote(t.tag_name@));
            lemma_concat_never_closes(prev, comma);
            lemma_concat_never_closes(prev + comma, tag);
            lemma_concat_never_closes(prev + comma + tag, seq![':']);
            lemma_concat_never_closes(prev + comma + tag + seq![':'], body);
        }
    }
}

/// The template map object is free of `</`.
proof fn lemma_template_map_never_closes(templates: Seq<TemplatePayload>)
    ensures
        never_closes(template_map_text(templates)),
{
    lemma_template_entries_never_close(templates);
    lemma_concat_never_closes(seq!['{'], template_entries(templates));
    lemma_concat_never_closes(seq!['{'] + template_entries(templates), seq!['}']);
}

/// The selected state text is free of `</`.
proof fn lemma_selected_state_never_closes(state: JsonData, selection: StateSelection)
    ensures
        never_closes(selected_state_text(state, selection)),
{
    match selection {
        StateSelection::Full => lemma_script_safe_never_closes(json_text(state)),
        StateSelection::Keys(keys) => {
            if keys.len() > 0 {
                lemma_script_safe_never_closes(projected_text(state, keys@));
            }
        },
    }
}

/// The bootstrap object never holds `</`: every value in it is escaped or
/// made of escaped parts, so the `#webhub-data` script element can only
/// end at its own closing tag, whatever the state, templates or settings.
pub proof fn lemma_bootstrap_never_closes_script(b: webhubBootstrap)
    ensures
        never_closes(bootstrap_text(b)),
{
    let f0: Seq<(Seq<char>, Seq<char>)> = Seq::empty();
    assert(never_closes(name_chain()));
    assert(never_closes(name_css()));
    assert(never_closes(name_inventory()));
    assert(never_closes(name_nonce()));
    assert(never_closes(name_state()));
    assert(never_closes(name_styles()));
    assert(never_closes(name_templates()));
    lemma_script_safe_never_closes(seq!['['] + json_elems(json_views(b.chain@)) + seq![']']);
    lemma_script_safe_never_closes(json_str_list(b.css_hrefs@));
    lemma_script_safe_never_closes(json_quote(b.inventory@));
    lemma_script_safe_never_closes(json_str_list(b.style_specs@));
    lemma_selected_state_never_closes(b.state@, b.state_selection);
    lemma_template_map_never_closes(b.templates@);
    let f1: Seq<(Seq<char>, Seq<char>)> = if b.chain@.len() > 0 {
        lemma_fields_push_never_close(f0, (name_chain(), script_safe(seq!['['] + json_elems(json_views(b.chain@)) + seq![']'])));
        f0.push((name_chain(), script_safe(seq!['['] + json_elems(json_views(b.chain@)) + seq![']'])))
    } else {
        f0
    };
    let f2 = if b.css_hrefs@.len() > 0 {
        lemma_fields_push_never_close(f1, (name_css(), script_safe(json_str_list(b.css_hrefs@))));
        f1.push((name_css(), script_safe(json_str_list(b.css_hrefs@))))
    } else {
        f1
    };
    lemma_fields_push_never_close(f2, (name_inventory(), script_safe(json_quote(b.inventory@))));
    let f3 = f2.push((name_inventory(), script_safe(json_quote(b.inventory@))));
    let f4 = match b.nonce {
        Some(n) => {
            lemma_script_safe_never_closes(json_quote(n@));
            lemma_fields_push_never_close(f3, (name_nonce(), script_safe(json_quote(n@))));
            f3.push((name_nonce(), script_safe(json_quote(n@))))
        },
        None => f3,
    };
    lemma_fields_push_never_close(f4, (name_state(), selected_state_text(b.state@, b.state_selection)));
    let f5 = f4.push((name_state(), selected_state_text(b.state@, b.state_selection)));
    let f6 = if b.style_specs@.len() > 0 {
        lemma_fields_push_never_close(f5, (name_styles(), script_safe(json_str_list(b.style_specs@))));
        f5.push((name_styles(), script_safe(json_str_list(b.style_specs@))))
    } else {
        f5
    };
    let f7 = if has_template_json(b.templates@) {
        lemma_fields_push_never_close(f6, (name_templates(), template_map_text(b.templates@)));
        f6.push((name_templates(), template_map_text(b.templates@)))
    } else {
        f6
    };
    assert(f7 == bootstrap_fields(b));
    lemma_fields_text_never_closes(f7);
    lemma_concat_never_closes(seq!['{'], fields_text(f7));
    lemma_concat_never_closes(seq!['{'] + fields_text(f7), seq!['}']);
}

} // verus!

verus! {

/// Whether a template carries template JSON.
pub open spec fn has_json(t: TemplatePayload) -> bool {
    t.template_json@.len() > 0
}

/// The `"tag":template` member for one template, escaped for a script.
pub open spec fn template_member(t: TemplatePayload) -> Seq<char> {
    script_safe(json_quote(t.tag_name@)) + seq![':'] + script_safe(t.template_json@)
}

/// Texts joined with a comma between each two.
pub open spec fn comma_joined(parts: Seq<Seq<char>>) -> Seq<char>
    decreases parts.len(),
{
    if parts.len() == 0 {
        Seq::empty()
    } else if parts.len() == 1 {
        parts[0]
    } else {
        comma_joined(parts.drop_last()) + seq![','] + parts.last()
    }
}

proof fn lemma_comma_joined_push(parts: Seq<Seq<char>>, p: Seq<char>)
    requires
        p.len() > 0,
    ensures
        comma_joined(parts.push(p)) == (if parts.len() > 0 {
            comma_joined(parts) + seq![','] + p
        } else {
            p
        }),
        comma_joined(parts.push(p)).len() > 0,
{
    assert(parts.push(p).drop_last() == parts);
    assert(parts.push(p).last() == p);
    if parts.len() == 0 {
        assert(parts.push(p)[0] == p);
    }
}

/// The template map object holds one member for each template that has
/// template JSON, in order, with a comma between each two members and no
/// other comma: templates without JSON leave no trace, so the object never
/// has a comma right after `{` or right before `}` that a missing member
/// would leave.
pub proof fn lemma_template_map_members(templates: Seq<TemplatePayload>)
    ensures
        template_map_text(templates) == seq!['{'] + comma_joined(
            templates.filter(|t: TemplatePayload| has_json(t)).map_values(|t: TemplatePayload| template_member(t)),
        ) + seq!['}'],
        template_entries(templates).len() > 0 <==> templates.filter(|t: TemplatePayload| has_json(t)).len() > 0,
        template_entries(templates) == comma_joined(
            templates.filter(|t: TemplatePayload| has_json(t)).map_values(|t: TemplatePayload| template_member(t)),
        ),
    decreases templates.len(),
{
    let pred = |t: TemplatePayload| has_json(t);
    let f = |t: TemplatePayload| template_member(t);
    if templates.len() == 0 {
        assert(templates.filter(pred) =~= Seq::<TemplatePayload>::empty()) by {
            reveal(Seq::filter);
        }
        assert(templates.filter(pred).map_values(f) =~= Seq::<Seq<char>>::empty());
    } else {
        let init = templates.drop_last();
        let t = templates.last();
        lemma_template_map_members(init);
        assert(templates == init.push(t));
        init.lemma_filter_push(t, pred);
        let fi = init.filter(pred);
        if has_json(t) {
            assert(templates.filter(pred) == fi.push(t));
            assert(fi.push(t).map_values(f) =~= fi.map_values(f).push(template_member(t)));
            lemma_comma_joined_push(fi.map_values(f), template_member(t));
            let prev = template_entries(init);
            assert(template_entries(templates) == prev + (if prev.len() > 0 {
                seq![',']
            } else {
                Seq::empty()
            }) + script_safe(json_quote(t.tag_name@)) + seq![':'] + script_safe(t.template_json@));
            assert(prev == comma_joined(fi.map_values(f)));
            let m = template_member(t);
            if fi.len() == 0 {
                assert(fi.map_values(f).len() == 0);
                assert(prev =~= Seq::<char>::empty());
                assert(template_entries(templates) =~= m);
            } else {
                assert(fi.map_values(f).len() > 0);
                assert(template_entries(templates) =~= prev + seq![','] + m);
            }
            assert(template_entries(templates) == comma_joined(templates.filter(pred).map_values(f)));
        } else {
            assert(templates.filter(pred) == fi);
        }
    }
}

} // verus!
