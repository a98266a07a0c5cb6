//! The document-level emissions: what is written before `</head>` and
//! `</body>`, and which component stylesheets and CSS modules go with the
//! rendered page.

use vstd::prelude::*;

use crate::html_encode::{encode_safe, html_escape};
use crate::state::{lookup_component, ComponentCatalog, ComponentMeta, find_component};
use crate::text::str_equal;
use crate::writer::{appended, ResponseWriter};
use crate::HandlerError;

verus! {

/// A set of component names.
pub struct NameSet {
    names: Vec<String>,
}

impl View for NameSet {
    type V = Set<Seq<char>>;

    closed spec fn view(&self) -> Set<Seq<char>> {
        self.names@.map_values(|s: String| s@).to_set()
    }
}

impl NameSet {
    /// No name is held twice.
    #[verifier::type_invariant]
    spec fn names_distinct(&self) -> bool {
        self.names@.map_values(|s: String| s@).no_duplicates()
    }

    /// No names.
    pub fn new() -> (s: Self)
        ensures
            s@ == Set::<Seq<char>>::empty(),
    {
        let s = NameSet { names: Vec::new() };
        proof {
            assert(s@ =~= Set::<Seq<char>>::empty());
        }
        s
    }

    /// Whether `name` is in the set.
    pub fn contains(&self, name: &str) -> (r: bool)
        ensures
            r == self@.contains(name@),
    {
        let ghost v = self.names@.map_values(|s: String| s@);
        let mut i: usize = 0;
        while i < self.names.len()
            invariant
                i <= self.names@.len(),
                v == self.names@.map_values(|s: String| s@),
                forall|j: int| 0 <= j < i ==> v[j] != name@,
            decreases self.names.len() - i,
        {
            if str_equal(self.names[i].as_str(), name) {
                proof {
                    assert(v[i as int] == name@);
                }
                return true;
            }
            i = i + 1;
        }
        false
    }

    /// The names in the set.
    pub fn names(&self) -> (r: &[String])
        ensures
            r@.map_values(|s: String| s@).to_set() == self@,
            r@.map_values(|s: String| s@).no_duplicates(),
    {
        proof {
            use_type_invariant(self);
        }
        self.names.as_slice()
    }

    /// Add `name` to the set.
    pub fn insert(&mut self, name: &str)
        ensures
            final(self)@ == old(self)@.insert(name@),
    {
        proof {
            use_type_invariant(&*self);
        }
        if !self.contains(name) {
            let ghost before = self.names@;
            let mut names = Vec::new();
            std::mem::swap(&mut names, &mut self.names);
            names.push(name.to_string());
            proof {
                let v = before.map_values(|s: String| s@);
                assert(names@.map_values(|s: String| s@) =~= v.push(name@));
                assert(!v.contains(name@)) by {
                    if v.contains(name@) {
                        assert(v.to_set().contains(name@));
                    }
                }
            }
            self.names = names;
            proof {
                assert(self.names@.map_values(|s: String| s@) =~= before.map_values(|s: String| s@).push(name@));
                before.map_values(|s: String| s@).lemma_push_to_set_commute(name@);
            }
        } else {
            proof {
                assert(old(self)@.insert(name@) =~= old(self)@);
            }
        }
    }
}

/// Which of the two document hooks have fired in this render.
pub struct DocumentHooks {
    pub head_end_emitted: bool,
    pub body_end_emitted: bool,
}

pub open spec fn head_end_name() -> Seq<char> {
    "head_end"@
}

pub open spec fn body_end_name() -> Seq<char> {
    "body_end"@
}

/// Whether a signal fires the `head_end` hook: a raw `head_end` signal
/// while the hook has not fired yet.
pub open spec fn head_end_fires(h: DocumentHooks, raw: bool, value: Seq<char>) -> bool {
    raw && value == head_end_name() && !h.head_end_emitted
}

/// Whether a signal fires the `body_end` hook.
pub open spec fn body_end_fires(h: DocumentHooks, raw: bool, value: Seq<char>) -> bool {
    raw && value == body_end_name() && !h.body_end_emitted
}

/// The hooks after a signal was offered to the `head_end` hook.
pub open spec fn after_head_end_claim(h: DocumentHooks, raw: bool, value: Seq<char>) -> DocumentHooks {
    DocumentHooks { head_end_emitted: h.head_end_emitted || head_end_fires(h, raw, value), body_end_emitted: h.body_end_emitted }
}

/// The hooks after a signal was offered to the `body_end` hook.
pub open spec fn after_body_end_claim(h: DocumentHooks, raw: bool, value: Seq<char>) -> DocumentHooks {
    DocumentHooks { head_end_emitted: h.head_end_emitted, body_end_emitted: h.body_end_emitted || body_end_fires(h, raw, value) }
}

/// Each document hook fires at most once per render: once a signal has
/// fired a hook, no later signal fires it again, and offering a signal to
/// one hook leaves the other as it was.
pub proof fn lemma_document_hooks_fire_once(h: DocumentHooks, raw: bool, value: Seq<char>, raw2: bool, value2: Seq<char>)
    ensures
        head_end_fires(h, raw, value) ==> !head_end_fires(after_head_end_claim(h, raw, value), raw2, value2),
        body_end_fires(h, raw, value) ==> !body_end_fires(after_body_end_claim(h, raw, value), raw2, value2),
        after_head_end_claim(h, raw, value).head_end_emitted ==> !head_end_fires(
            after_body_end_claim(after_head_end_claim(h, raw, value), raw2, value2),
            raw2,
            value2,
        ),
        after_head_end_claim(h, raw, value).body_end_emitted == h.body_end_emitted,
        after_body_end_claim(h, raw, value).head_end_emitted == h.head_end_emitted,
{
}

impl DocumentHooks {
    /// Neither hook has fired.
    pub fn new() -> (h: Self)
        ensures
            !h.head_end_emitted,
            !h.body_end_emitted,
    {
        DocumentHooks { head_end_emitted: false, body_end_emitted: false }
    }

    /// Whether a signal is the `head_end` hook firing for the first time;
    /// if so it is marked as fired.
    pub fn claim_head_end(&mut self, raw: bool, value: &str) -> (r: bool)
        ensures
            r == head_end_fires(*old(self), raw, value@),
            *final(self) == after_head_end_claim(*old(self), raw, value@),
    {
        if raw && str_equal(value, "head_end") && !self.head_end_emitted {
            self.head_end_emitted = true;
            true
        } else {
            false
        }
    }

    /// Whether a signal is the `body_end` hook firing for the first time;
    /// if so it is marked as fired.
    pub fn claim_body_end(&mut self, raw: bool, value: &str) -> (r: bool)
        ensures
            r == body_end_fires(*old(self), raw, value@),
            *final(self) == after_body_end_claim(*old(self), raw, value@),
    {
        if raw && str_equal(value, "body_end") && !self.body_end_emitted {
            self.body_end_emitted = true;
            true
        } else {
            false
        }
    }
}

/// The tag for one component stylesheet: a preload when styles live in
/// shadow roots, a stylesheet link otherwise.
pub open spec fn css_link_text(href: Seq<char>, shadow: bool) -> Seq<char> {
    if shadow {
        "<link rel=\"preload\" href=\""@ + href + "\" as=\"style\" data-webhub-ssr-preload=\"style\">"@
    } else {
        "<link rel=\"stylesheet\" href=\""@ + href + "\">"@
    }
}

pub open spec fn css_links_text(hrefs: Seq<&str>, shadow: bool) -> Seq<char>
    decreases hrefs.len(),
{
    if hrefs.len() == 0 {
        Seq::empty()
    } else {
        css_links_text(hrefs.drop_last(), shadow) + css_link_text(hrefs.last()@, shadow)
    }
}

/// What is written before `</head>`: the CSP nonce meta tag when a nonce is
/// set, the component stylesheet tags, and the host's head HTML.
pub open spec fn head_end_text(nonce: Option<&str>, hrefs: Seq<&str>, shadow: bool, head_inject: Option<&str>) -> Seq<char> {
    (match nonce {
        Some(n) => "<meta name=\"webhub-nonce\" content=\""@ + html_escape(n@) + "\">"@,
        None => Seq::empty(),
    }) + css_links_text(hrefs, shadow) + match head_inject {
        Some(h) => h@,
        None => Seq::empty(),
    }
}

/// Write what goes before `</head>`.
pub fn write_head_end<W: ?Sized + ResponseWriter>(
    writer: &mut W,
    nonce: Option<&str>,
    css_hrefs: &[&str],
    is_shadow: bool,
    head_inject: Option<&str>,
) -> (r: Result<(), HandlerError>)
    ensures
        old(writer).never_fails() ==> r is Ok,
        appended(old(writer).written(), final(writer).written(), head_end_text(nonce, css_hrefs@, is_shadow, head_inject), r is Ok),
{
    let mut out = String::new();
    if let Some(n) = nonce {
        out.append("<meta name=\"webhub-nonce\" content=\"");
        let escaped = encode_safe(n);
        out.append(escaped.as_str());
        out.append("\">");
    }
    let ghost start = out@;
    let mut i: usize = 0;
    while i < css_hrefs.len()
        invariant
            i <= css_hrefs.len(),
            out@ == start + css_links_text(css_hrefs@.take(i as int), is_shadow),
        decreases css_hrefs.len() - i,
    {
        proof {
            assert(css_hrefs@.take(i + 1).drop_last() == css_hrefs@.take(i as int));
        }
        if is_shadow {
            out.append("<link rel=\"preload\" href=\"");
            out.append(css_hrefs[i]);
            out.append("\" as=\"style\" data-webhub-ssr-preload=\"style\">");
        } else {
            out.append("<link rel=\"stylesheet\" href=\"");
            out.append(css_hrefs[i]);
            out.append("\">");
        }
        i = i + 1;
    }
    proof {
        assert(css_hrefs@.take(css_hrefs.len() as int) == css_hrefs@);
    }
    if let Some(h) = head_inject {
        out.append(h);
    }
    proof {
        let n: Seq<char> = match nonce {
            Some(n) => "<meta name=\"webhub-nonce\" content=\""@ + html_escape(n@) + "\">"@,
            None => Seq::empty(),
        };
        let hi: Seq<char> = match head_inject {
            Some(h) => h@,
            None => Seq::empty(),
        };
        assert(out@ =~= n + css_links_text(css_hrefs@, is_shadow) + hi);
    }
    writer.write(out.as_str())
}

/// The stylesheet hrefs of the named components, in order; unknown
/// components and components without one are left out.
pub open spec fn css_hrefs_of(comps: Seq<ComponentMeta>, names: Seq<Seq<char>>) -> Seq<Seq<char>>
    decreases names.len(),
{
    if names.len() == 0 {
        Seq::empty()
    } else {
        let prev = css_hrefs_of(comps, names.drop_last());
        match lookup_component(comps, names.last()) {
            Some(meta) => if meta.css_href@.len() > 0 {
                prev.push(meta.css_href@)
            } else {
                prev
            },
            None => prev,
        }
    }
}

/// The stylesheet hrefs of the named components.
pub fn component_css_hrefs<'a>(catalog: &'a ComponentCatalog, names: &[String]) -> (r: Vec<&'a str>)
    ensures
        r@.map_values(|s: &str| s@) == css_hrefs_of(catalog.components@, crate::state::views(names@)),
{
    let ghost nv = crate::state::views(names@);
    let mut out: Vec<&'a str> = Vec::new();
    let mut i: usize = 0;
    while i < names.len()
        invariant
            i <= names.len(),
            nv == crate::state::views(names@),
            out@.map_values(|s: &str| s@) == css_hrefs_of(catalog.components@, nv.take(i as int)),
        decreases names.len() - i,
    {
        proof {
            assert(nv.take(i + 1).drop_last() == nv.take(i as int));
            assert(nv.take(i + 1).last() == names@[i as int]@);
        }
        let ghost before = out@;
        match find_component(&catalog.components, names[i].as_str()) {
            Some(idx) => {
                let href = catalog.components[idx].css_href.as_str();
                if !href.is_empty() {
                    out.push(href);
                    proof {
                        assert(out@.map_values(|s: &str| s@) =~= before.map_values(|s: &str| s@).push(href@));
                    }
                }
            },
            None => {},
        }
        i = i + 1;
    }
    proof {
        assert(nv.take(names.len() as int) == nv);
    }
    out
}

/// The named components that have a CSS module, in order.
pub open spec fn style_specs_of(comps: Seq<ComponentMeta>, names: Seq<Seq<char>>) -> Seq<Seq<char>>
    decreases names.len(),
{
    if names.len() == 0 {
        Seq::empty()
    } else {
        let prev = style_specs_of(comps, names.drop_last());
        match lookup_component(comps, names.last()) {
            Some(meta) => if meta.css@.len() > 0 {
                prev.push(names.last())
            } else {
                prev
            },
            None => prev,
        }
    }
}

/// The named components that have a CSS module (their module specifiers).
pub fn component_style_specs<'a>(catalog: &ComponentCatalog, names: &'a [String]) -> (r: Vec<&'a str>)
    ensures
        r@.map_values(|s: &str| s@) == style_specs_of(catalog.components@, crate::state::views(names@)),
{
    let ghost nv = crate::state::views(names@);
    let mut out: Vec<&'a str> = Vec::new();
    let mut i: usize = 0;
    while i < names.len()
        invariant
            i <= names.len(),
            nv == crate::state::views(names@),
            out@.map_values(|s: &str| s@) == style_specs_of(catalog.components@, nv.take(i as int)),
        decreases names.len() - i,
    {
        proof {
            assert(nv.take(i + 1).drop_last() == nv.take(i as int));
            assert(nv.take(i + 1).last() == names@[i as int]@);
        }
        let ghost before = out@;
        match find_component(&catalog.components, names[i].as_str()) {
            Some(idx) => {
                if !catalog.components[idx].css.as_str().is_empty() {
                    let name = names[i].as_str();
                    out.push(name);
                    proof {
                        assert(out@.map_values(|s: &str| s@) =~= before.map_values(|s: &str| s@).push(name@));
                    }
                }
            },
            None => {},
        }
        i = i + 1;
    }
    proof {
        assert(nv.take(names.len() as int) == nv);
    }
    out
}

/// The CSS of a component's module when it is to be written now: the
/// component has not been rendered yet and has non-empty CSS.
pub open spec fn css_module_due(comps: Seq<ComponentMeta>, rendered: Set<Seq<char>>, name: Seq<char>) -> Option<Seq<char>> {
    if rendered.contains(name) {
        None
    } else {
        match lookup_component(comps, name) {
            Some(meta) => if meta.css@.len() > 0 {
                Some(meta.css@)
            } else {
                None
            },
            None => None,
        }
    }
}

/// The CSS of a component's module when it is to be written now.
pub fn css_module_for<'a>(catalog: &'a ComponentCatalog, rendered: &NameSet, name: &str) -> (r: Option<&'a str>)
    ensures
        match css_module_due(catalog.components@, rendered@, name@) {
            Some(css) => r is Some && r->Some_0@ == css,
            None => r is None,
        },
{
    if rendered.contains(name) {
        return None;
    }
    match find_component(&catalog.components, name) {
        Some(idx) => {
            let css = catalog.components[idx].css.as_str();
            if css.is_empty() {
                None
            } else {
                Some(css)
            }
        },
        None => None,
    }
}

/// The CSS modules still to be written for the named components, in
/// order: each one not rendered yet that has CSS, with its CSS.
pub open spec fn pending_css_of(
    comps: Seq<ComponentMeta>,
    rendered: Set<Seq<char>>,
    names: Seq<Seq<char>>,
) -> Seq<(Seq<char>, Seq<char>)>
    decreases names.len(),
{
    if names.len() == 0 {
        Seq::empty()
    } else {
        let prev = pending_css_of(comps, rendered, names.drop_last());
        match css_module_due(comps, rendered, names.last()) {
            Some(css) => prev.push((names.last(), css)),
            None => prev,
        }
    }
}

/// The CSS modules of reachable components that were not rendered, as
/// (specifier, CSS) pairs in the order of `names`.
pub fn pending_css_modules<'a>(catalog: &'a ComponentCatalog, rendered: &NameSet, names: &'a [String]) -> (r: Vec<
    (&'a str, &'a str),
>)
    ensures
        r@.map_values(|p: (&str, &str)| (p.0@, p.1@)) == pending_css_of(
            catalog.components@,
            rendered@,
            crate::state::views(names@),
        ),
{
    let ghost nv = crate::state::views(names@);
    let mut out: Vec<(&'a str, &'a str)> = Vec::new();
    let mut i: usize = 0;
    while i < names.len()
        invariant
            i <= names.len(),
            nv == crate::state::views(names@),
            out@.map_values(|p: (&str, &str)| (p.0@, p.1@)) == pending_css_of(
                catalog.components@,
                rendered@,
                nv.take(i as int),
            ),
        decreases names.len() - i,
    {
        proof {
            assert(nv.take(i + 1).drop_last() == nv.take(i as int));
            assert(nv.take(i + 1).last() == names@[i as int]@);
        }
        let ghost before = out@;
        let name = names[i].as_str();
        if let Some(css) = css_module_for(catalog, rendered, name) {
            out.push((name, css));
            proof {
                assert(out@.map_values(|p: (&str, &str)| (p.0@, p.1@)) =~= before.map_values(
                    |p: (&str, &str)| (p.0@, p.1@),
                ).push((name@, css@)));
            }
        }
        i = i + 1;
    }
    proof {
        assert(nv.take(names.len() as int) == nv);
    }
    out
}

/// An optional string setting with the empty string treated as unset.
pub fn filter_non_empty(s: Option<&str>) -> (r: Option<&str>)
    ensures
        match s {
            Some(x) => if x@.len() == 0 {
                r is None
            } else {
                r == Some(x)
            },
            None => r is None,
        },
{
    match s {
        Some(x) => if x.is_empty() {
            None
        } else {
            Some(x)
        },
        None => None,
    }
}

} // verus!

verus! {

/// The hooks after a signal is offered to both hooks in turn, `head_end`
/// first, as the renderer offers every signal it renders.
pub open spec fn after_signal(h: DocumentHooks, signal: (bool, Seq<char>)) -> DocumentHooks {
    after_body_end_claim(after_head_end_claim(h, signal.0, signal.1), signal.0, signal.1)
}

/// The hooks after a whole sequence of signals, given as (raw, value).
pub open spec fn hooks_after(h: DocumentHooks, signals: Seq<(bool, Seq<char>)>) -> DocumentHooks
    decreases signals.len(),
{
    if signals.len() == 0 {
        h
    } else {
        after_signal(hooks_after(h, signals.drop_last()), signals.last())
    }
}

/// Whether a signal is a raw `head_end` signal.
pub open spec fn is_head_end_signal(signal: (bool, Seq<char>)) -> bool {
    signal.0 && signal.1 == head_end_name()
}

/// Whether a signal is a raw `body_end` signal.
pub open spec fn is_body_end_signal(signal: (bool, Seq<char>)) -> bool {
    signal.0 && signal.1 == body_end_name()
}

/// Whether the `head_end` hook fires at the signal at index `i`.
pub open spec fn head_end_fires_at(h: DocumentHooks, signals: Seq<(bool, Seq<char>)>, i: int) -> bool {
    head_end_fires(hooks_after(h, signals.take(i)), signals[i].0, signals[i].1)
}

/// Whether the `body_end` hook fires at the signal at index `i`.
pub open spec fn body_end_fires_at(h: DocumentHooks, signals: Seq<(bool, Seq<char>)>, i: int) -> bool {
    body_end_fires(
        after_head_end_claim(hooks_after(h, signals.take(i)), signals[i].0, signals[i].1),
        signals[i].0,
        signals[i].1,
    )
}

/// A hook has fired after a sequence of signals exactly when it had fired
/// before or one of the signals is its raw signal.
proof fn lemma_hooks_after_flags(h: DocumentHooks, signals: Seq<(bool, Seq<char>)>)
    ensures
        hooks_after(h, signals).head_end_emitted <==> (h.head_end_emitted || exists|k: int|
            0 <= k < signals.len() && #[trigger] is_head_end_signal(signals[k])),
        hooks_after(h, signals).body_end_emitted <==> (h.body_end_emitted || exists|k: int|
            0 <= k < signals.len() && #[trigger] is_body_end_signal(signals[k])),
    decreases signals.len(),
{
    if signals.len() > 0 {
        let init = signals.drop_last();
        let n = signals.len() - 1;
        lemma_hooks_after_flags(h, init);
        assert forall|k: int| 0 <= k < init.len() implies init[k] == signals[k] by {}
        let prev = hooks_after(h, init);
        let last = signals.last();
        assert(last == signals[n]);
        assert(hooks_after(h, signals) == after_signal(prev, last));
        assert(after_head_end_claim(prev, last.0, last.1).body_end_emitted == prev.body_end_emitted);
        assert(hooks_after(h, signals).head_end_emitted == (prev.head_end_emitted || is_head_end_signal(last)));
        assert(hooks_after(h, signals).body_end_emitted == (prev.body_end_emitted || is_body_end_signal(last)));
        if is_head_end_signal(last) {
            assert(is_head_end_signal(signals[n]));
        }
        if is_body_end_signal(last) {
            assert(is_body_end_signal(signals[n]));
        }
        if exists|k: int| 0 <= k < signals.len() && #[trigger] is_head_end_signal(signals[k]) {
            let k = choose|k: int| 0 <= k < signals.len() && #[trigger] is_head_end_signal(signals[k]);
            if k < init.len() {
                assert(is_head_end_signal(init[k]));
            }
        }
        if exists|k: int| 0 <= k < signals.len() && #[trigger] is_body_end_signal(signals[k]) {
            let k = choose|k: int| 0 <= k < signals.len() && #[trigger] is_body_end_signal(signals[k]);
            if k < init.len() {
                assert(is_body_end_signal(init[k]));
            }
        }
        if exists|k: int| 0 <= k < init.len() && #[trigger] is_head_end_signal(init[k]) {
            let k = choose|k: int| 0 <= k < init.len() && #[trigger] is_head_end_signal(init[k]);
            assert(is_head_end_signal(signals[k]));
        }
        if exists|k: int| 0 <= k < init.len() && #[trigger] is_body_end_signal(init[k]) {
            let k = choose|k: int| 0 <= k < init.len() && #[trigger] is_body_end_signal(init[k]);
            assert(is_body_end_signal(signals[k]));
        }
    }
}

/// Over a whole render, each document hook fires exactly at the first of
/// its raw signals (when it had not fired before the render), and at no
/// other signal: once at most, and once exactly when such a signal occurs.
pub proof fn lemma_hooks_fire_once_per_render(h: DocumentHooks, signals: Seq<(bool, Seq<char>)>)
    ensures
        forall|i: int|
            0 <= i < signals.len() ==> (#[trigger] head_end_fires_at(h, signals, i) <==> (!h.head_end_emitted
                && is_head_end_signal(signals[i]) && forall|k: int|
                0 <= k < i ==> !is_head_end_signal(#[trigger] signals[k]))),
        forall|i: int|
            0 <= i < signals.len() ==> (#[trigger] body_end_fires_at(h, signals, i) <==> (!h.body_end_emitted
                && is_body_end_signal(signals[i]) && forall|k: int|
                0 <= k < i ==> !is_body_end_signal(#[trigger] signals[k]))),
        forall|i: int, j: int|
            0 <= i < j < signals.len() ==> !(#[trigger] head_end_fires_at(h, signals, i) && #[trigger] head_end_fires_at(
                h,
                signals,
                j,
            )),
        forall|i: int, j: int|
            0 <= i < j < signals.len() ==> !(#[trigger] body_end_fires_at(h, signals, i) && #[trigger] body_end_fires_at(
                h,
                signals,
                j,
            )),
{
    assert forall|i: int| 0 <= i < signals.len() implies #[trigger] head_end_fires_at(h, signals, i) <==> (
    !h.head_end_emitted && is_head_end_signal(signals[i]) && forall|k: int|
        0 <= k < i ==> !is_head_end_signal(#[trigger] signals[k])) by {
        lemma_fires_at_flags(h, signals, i);
    }
    assert forall|i: int| 0 <= i < signals.len() implies #[trigger] body_end_fires_at(h, signals, i) <==> (
    !h.body_end_emitted && is_body_end_signal(signals[i]) && forall|k: int|
        0 <= k < i ==> !is_body_end_signal(#[trigger] signals[k])) by {
        lemma_fires_at_flags(h, signals, i);
    }
    assert forall|i: int, j: int| 0 <= i < j < signals.len() implies !(#[trigger] head_end_fires_at(h, signals, i)
        && #[trigger] head_end_fires_at(h, signals, j)) by {
        lemma_fires_at_flags(h, signals, i);
        lemma_fires_at_flags(h, signals, j);
        if head_end_fires_at(h, signals, i) {
            assert(is_head_end_signal(signals[i]));
        }
    }
    assert forall|i: int, j: int| 0 <= i < j < signals.len() implies !(#[trigger] body_end_fires_at(h, signals, i)
        && #[trigger] body_end_fires_at(h, signals, j)) by {
        lemma_fires_at_flags(h, signals, i);
        lemma_fires_at_flags(h, signals, j);
        if body_end_fires_at(h, signals, i) {
            assert(is_body_end_signal(signals[i]));
        }
    }
}

/// Whether each hook fires at the signal at index `i`.
proof fn lemma_fires_at_flags(h: DocumentHooks, signals: Seq<(bool, Seq<char>)>, i: int)
    requires
        0 <= i < signals.len(),
    ensures
        head_end_fires_at(h, signals, i) <==> (!h.head_end_emitted && is_head_end_signal(signals[i]) && forall|k: int|
            0 <= k < i ==> !is_head_end_signal(#[trigger] signals[k])),
        body_end_fires_at(h, signals, i) <==> (!h.body_end_emitted && is_body_end_signal(signals[i]) && forall|k: int|
            0 <= k < i ==> !is_body_end_signal(#[trigger] signals[k])),
{
    let pre = signals.take(i);
    lemma_hooks_after_flags(h, pre);
    assert forall|k: int| 0 <= k < i implies pre[k] == signals[k] by {}
    let prev = hooks_after(h, pre);
    assert(after_head_end_claim(prev, signals[i].0, signals[i].1).body_end_emitted == prev.body_end_emitted);
    if exists|k: int| 0 <= k < pre.len() && #[trigger] is_head_end_signal(pre[k]) {
        let k = choose|k: int| 0 <= k < pre.len() && #[trigger] is_head_end_signal(pre[k]);
        assert(is_head_end_signal(signals[k]));
    }
    if exists|k: int| 0 <= k < pre.len() && #[trigger] is_body_end_signal(pre[k]) {
        let k = choose|k: int| 0 <= k < pre.len() && #[trigger] is_body_end_signal(pre[k]);
        assert(is_body_end_signal(signals[k]));
    }
    if exists|k: int| 0 <= k < i && #[trigger] is_head_end_signal(signals[k]) {
        let k = choose|k: int| 0 <= k < i && #[trigger] is_head_end_signal(signals[k]);
        assert(is_head_end_signal(pre[k]));
    }
    if exists|k: int| 0 <= k < i && #[trigger] is_body_end_signal(signals[k]) {
        let k = choose|k: int| 0 <= k < i && #[trigger] is_body_end_signal(signals[k]);
        assert(is_body_end_signal(pre[k]));
    }
}

} // verus!

verus! {

/// The rendered components after the components `names` were rendered in
/// turn, each added to the set as it renders.
pub open spec fn rendered_after(rendered: Set<Seq<char>>, names: Seq<Seq<char>>) -> Set<Seq<char>>
    decreases names.len(),
{
    if names.len() == 0 {
        rendered
    } else {
        rendered_after(rendered, names.drop_last()).insert(names.last())
    }
}

/// The CSS module written when the `i`th component of a render renders.
pub open spec fn css_module_due_at(
    comps: Seq<ComponentMeta>,
    rendered: Set<Seq<char>>,
    names: Seq<Seq<char>>,
    i: int,
) -> Option<Seq<char>> {
    css_module_due(comps, rendered_after(rendered, names.take(i)), names[i])
}

proof fn lemma_rendered_after_contains(rendered: Set<Seq<char>>, names: Seq<Seq<char>>, n: Seq<char>)
    ensures
        rendered_after(rendered, names).contains(n) <==> (rendered.contains(n) || exists|k: int|
            0 <= k < names.len() && names[k] == n),
    decreases names.len(),
{
    if names.len() > 0 {
        let init = names.drop_last();
        lemma_rendered_after_contains(rendered, init, n);
        if exists|k: int| 0 <= k < init.len() && init[k] == n {
            let k = choose|k: int| 0 <= k < init.len() && init[k] == n;
            assert(names[k] == n);
        }
        if exists|k: int| 0 <= k < names.len() && names[k] == n {
            let k = choose|k: int| 0 <= k < names.len() && names[k] == n;
            if k < init.len() {
                assert(init[k] == n);
            }
        }
    }
}

/// Over a whole render, a component's CSS module is written when the
/// component renders for the first time (and had not rendered before the
/// render), if it has CSS, and at no later rendering of it: once at most,
/// and once exactly when it renders and has CSS.
pub proof fn lemma_css_module_once_per_render(comps: Seq<ComponentMeta>, rendered: Set<Seq<char>>, names: Seq<Seq<char>>)
    ensures
        forall|i: int|
            0 <= i < names.len() ==> #[trigger] css_module_due_at(comps, rendered, names, i) == (if rendered.contains(
                names[i],
            ) || exists|k: int| 0 <= k < i && names[k] == names[i] {
                None
            } else {
                css_module_due(comps, Set::empty(), names[i])
            }),
        forall|i: int, j: int|
            #![trigger names[i], css_module_due_at(comps, rendered, names, j)]
            0 <= i < j < names.len() && names[i] == names[j] ==> css_module_due_at(comps, rendered, names, j) is None,
{
    assert forall|i: int| 0 <= i < names.len() implies #[trigger] css_module_due_at(comps, rendered, names, i) == (
    if rendered.contains(names[i]) || exists|k: int| 0 <= k < i && names[k] == names[i] {
        None
    } else {
        css_module_due(comps, Set::empty(), names[i])
    }) by {
        let pre = names.take(i);
        lemma_rendered_after_contains(rendered, pre, names[i]);
        if exists|k: int| 0 <= k < pre.len() && pre[k] == names[i] {
            let k = choose|k: int| 0 <= k < pre.len() && pre[k] == names[i];
            assert(names[k] == names[i]);
        }
        if exists|k: int| 0 <= k < i && names[k] == names[i] {
            let k = choose|k: int| 0 <= k < i && names[k] == names[i];
            assert(pre[k] == names[i]);
        }
    }
    assert forall|i: int, j: int|
        #![trigger names[i], css_module_due_at(comps, rendered, names, j)]
        0 <= i < j < names.len() && names[i] == names[j] implies css_module_due_at(comps, rendered, names, j) is None by {
        let pre = names.take(j);
        lemma_rendered_after_contains(rendered, pre, names[j]);
        assert(pre[i] == names[j]);
    }
}

} // verus!

verus! {

/// The CSS modules still to be written for the named components are
/// exactly those of named components that were not rendered and have
/// non-empty CSS, each with that component's CSS.
pub proof fn lemma_pending_css_members(comps: Seq<ComponentMeta>, rendered: Set<Seq<char>>, names: Seq<Seq<char>>)
    ensures
        forall|p: (Seq<char>, Seq<char>)|
            #[trigger] pending_css_of(comps, rendered, names).contains(p) <==> exists|k: int|
                0 <= k < names.len() && #[trigger] names[k] == p.0 && !rendered.contains(p.0) && lookup_component(
                    comps,
                    p.0,
                ) is Some && lookup_component(comps, p.0)->Some_0.css@ == p.1 && p.1.len() > 0,
    decreases names.len(),
{
    broadcast use vstd::seq_lib::lemma_seq_contains_after_push;

    if names.len() > 0 {
        let init = names.drop_last();
        let n = names.len() - 1;
        lemma_pending_css_members(comps, rendered, init);
        assert forall|k: int| 0 <= k < init.len() implies init[k] == names[k] by {}
        assert(names.last() == names[n]);
        assert forall|p: (Seq<char>, Seq<char>)|
            #[trigger] pending_css_of(comps, rendered, names).contains(p) <==> exists|k: int|
                0 <= k < names.len() && #[trigger] names[k] == p.0 && !rendered.contains(p.0) && lookup_component(
                    comps,
                    p.0,
                ) is Some && lookup_component(comps, p.0)->Some_0.css@ == p.1 && p.1.len() > 0 by {
            let cond = !rendered.contains(p.0) && lookup_component(comps, p.0) is Some && lookup_component(
                comps,
                p.0,
            )->Some_0.css@ == p.1 && p.1.len() > 0;
            if exists|k: int| 0 <= k < names.len() && #[trigger] names[k] == p.0 && cond {
                let k = choose|k: int| 0 <= k < names.len() && #[trigger] names[k] == p.0 && cond;
                if k < n {
                    assert(init[k] == p.0);
                }
            }
            if exists|k: int| 0 <= k < init.len() && #[trigger] init[k] == p.0 && cond {
                let k = choose|k: int| 0 <= k < init.len() && #[trigger] init[k] == p.0 && cond;
                assert(names[k] == p.0);
            }
            let prev = pending_css_of(comps, rendered, init);
            match css_module_due(comps, rendered, names[n]) {
                Some(css) => {
                    assert(pending_css_of(comps, rendered, names) == prev.push((names[n], css)));
                    if p == (names[n], css) {
                        assert(names[n] == p.0 && cond);
                    }
                    if names[n] == p.0 && cond {
                        assert(p == (names[n], css));
                    }
                },
                None => {
                    assert(pending_css_of(comps, rendered, names) == prev);
                    assert(!(names[n] == p.0 && cond));
                },
            }
        }
    }
}

/// The stylesheet hrefs of the named components are exactly the non-empty
/// hrefs of named components that are in the catalog, and the module
/// specifiers are exactly the names of named components with non-empty
/// CSS.
pub proof fn lemma_component_styles_members(comps: Seq<ComponentMeta>, names: Seq<Seq<char>>)
    ensures
        forall|h: Seq<char>|
            #[trigger] css_hrefs_of(comps, names).contains(h) <==> exists|k: int|
                0 <= k < names.len() && #[trigger] lookup_component(comps, names[k]) is Some && lookup_component(
                    comps,
                    names[k],
                )->Some_0.css_href@ == h && h.len() > 0,
        forall|s: Seq<char>|
            #[trigger] style_specs_of(comps, names).contains(s) <==> exists|k: int|
                0 <= k < names.len() && #[trigger] names[k] == s && lookup_component(comps, s) is Some
                    && lookup_component(comps, s)->Some_0.css@.len() > 0,
    decreases names.len(),
{
    broadcast use vstd::seq_lib::lemma_seq_contains_after_push;

    if names.len() > 0 {
        let init = names.drop_last();
        let n = names.len() - 1;
        lemma_component_styles_members(comps, init);
        assert forall|k: int| 0 <= k < init.len() implies init[k] == names[k] by {}
        assert(names.last() == names[n]);
        assert forall|h: Seq<char>|
            #[trigger] css_hrefs_of(comps, names).contains(h) <==> exists|k: int|
                0 <= k < names.len() && #[trigger] lookup_component(comps, names[k]) is Some && lookup_component(
                    comps,
                    names[k],
                )->Some_0.css_href@ == h && h.len() > 0 by {
            if exists|k: int|
                0 <= k < names.len() && #[trigger] lookup_component(comps, names[k]) is Some && lookup_component(
                    comps,
                    names[k],
                )->Some_0.css_href@ == h && h.len() > 0 {
                let k = choose|k: int|
                    0 <= k < names.len() && #[trigger] lookup_component(comps, names[k]) is Some && lookup_component(
                        comps,
                        names[k],
                    )->Some_0.css_href@ == h && h.len() > 0;
                if k < n {
                    assert(lookup_component(comps, init[k]) is Some);
                }
            }
            if exists|k: int|
                0 <= k < init.len() && #[trigger] lookup_component(comps, init[k]) is Some && lookup_component(
                    comps,
                    init[k],
                )->Some_0.css_href@ == h && h.len() > 0 {
                let k = choose|k: int|
                    0 <= k < init.len() && #[trigger] lookup_component(comps, init[k]) is Some && lookup_component(
                        comps,
                        init[k],
                    )->Some_0.css_href@ == h && h.len() > 0;
                assert(lookup_component(comps, names[k]) is Some);
            }
            let prev = css_hrefs_of(comps, init);
            match lookup_component(comps, names[n]) {
                Some(meta) => {
                    if meta.css_href@.len() > 0 {
                        assert(css_hrefs_of(comps, names) == prev.push(meta.css_href@));
                    } else {
                        assert(css_hrefs_of(comps, names) == prev);
                    }
                },
                None => {
                    assert(css_hrefs_of(comps, names) == prev);
                },
            }
        }
        assert forall|s: Seq<char>|
            #[trigger] style_specs_of(comps, names).contains(s) <==> exists|k: int|
                0 <= k < names.len() && #[trigger] names[k] == s && lookup_component(comps, s) is Some
                    && lookup_component(comps, s)->Some_0.css@.len() > 0 by {
            let cond = lookup_component(comps, s) is Some && lookup_component(comps, s)->Some_0.css@.len() > 0;
            if exists|k: int| 0 <= k < names.len() && #[trigger] names[k] == s && cond {
                let k = choose|k: int| 0 <= k < names.len() && #[trigger] names[k] == s && cond;
                if k < n {
                    assert(init[k] == s);
                }
            }
            if exists|k: int| 0 <= k < init.len() && #[trigger] init[k] == s && cond {
                let k = choose|k: int| 0 <= k < init.len() && #[trigger] init[k] == s && cond;
                assert(names[k] == s);
            }
            let prev = style_specs_of(comps, init);
            match lookup_component(comps, names[n]) {
                Some(meta) => {
                    if meta.css@.len() > 0 {
                        assert(style_specs_of(comps, names) == prev.push(names[n]));
                    } else {
                        assert(style_specs_of(comps, names) == prev);
                    }
                },
                None => {
                    assert(style_specs_of(comps, names) == prev);
                },
            }
        }
    }
}

} // verus!
