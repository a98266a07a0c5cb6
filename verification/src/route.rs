//! The `<webhub-route>` elements written for routes and outlets.

use vstd::prelude::*;

use crate::writer::{appended, attr_text, decimal, decimal_string, lemma_appended_fail_extends, lemma_appended_then, ResponseWriter};
use crate::HandlerError;

verus! {

pub open spec fn route_open_name() -> Seq<char> {
    "<webhub-route"@
}

/// The start of a route element: its tag and its `path`, `component` and
/// `exact` attributes, each written only when present.
pub open spec fn route_start_text(path: Seq<char>, component: Seq<char>, exact: bool) -> Seq<char> {
    route_open_name() + (if path.len() > 0 {
        attr_text("path"@, path)
    } else {
        Seq::empty()
    }) + (if component.len() > 0 {
        attr_text("component"@, component)
    } else {
        Seq::empty()
    }) + (if exact {
        " exact"@
    } else {
        Seq::empty()
    })
}

/// Write the start of a route element.
pub fn write_route_start<W: ?Sized + ResponseWriter>(writer: &mut W, path: &str, component: &str, exact: bool) -> (r: Result<
    (),
    HandlerError,
>)
    ensures
        old(writer).never_fails() ==> r is Ok,
        appended(old(writer).written(), final(writer).written(), route_start_text(path@, component@, exact), r is Ok),
{
    let mut out = String::new();
    out.append("<webhub-route");
    if !path.is_empty() {
        push_attr(&mut out, "path", path);
    }
    if !component.is_empty() {
        push_attr(&mut out, "component", component);
    }
    if exact {
        out.append(" exact");
    }
    proof {
        let p: Seq<char> = if path@.len() > 0 { attr_text("path"@, path@) } else { Seq::empty() };
        let c: Seq<char> = if component@.len() > 0 { attr_text("component"@, component@) } else { Seq::empty() };
        let e: Seq<char> = if exact { " exact"@ } else { Seq::empty() };
        assert(out@ =~= route_open_name() + p + c + e);
    }
    writer.write(out.as_str())
}

/// Append ` name="value"`.
fn push_attr(out: &mut String, name: &str, value: &str)
    ensures
        final(out)@ == old(out)@ + attr_text(name@, value@),
{
    proof {
        reveal_strlit(" ");
        reveal_strlit("=\"");
        reveal_strlit("\"");
    }
    out.append(" ");
    out.append(name);
    out.append("=\"");
    out.append(value);
    out.append("\"");
    proof {
        assert(final(out)@ =~= old(out)@ + attr_text(name@, value@));
    }
}

/// ` data-ri="N" active>`: the matched route's position in the chain.
pub open spec fn route_active_text(index: nat) -> Seq<char> {
    " data-ri=\""@ + decimal(index) + "\" active>"@
}

/// Close the start tag of a matched route, numbering it with the chain
/// index, which then advances.
pub fn write_route_active<W: ?Sized + ResponseWriter>(writer: &mut W, chain_index: &mut usize) -> (r: Result<(), HandlerError>)
    requires
        *old(chain_index) < usize::MAX,
    ensures
        old(writer).never_fails() ==> r is Ok,
        *final(chain_index) == *old(chain_index) + 1,
        appended(old(writer).written(), final(writer).written(), route_active_text(*old(chain_index) as nat), r is Ok),
{
    let ri = *chain_index;
    *chain_index = ri + 1;
    let mut out = String::new();
    out.append(" data-ri=\"");
    let digits = decimal_string(ri);
    out.append(digits.as_str());
    out.append("\" active>");
    writer.write(out.as_str())
}

/// Close the start tag of a route that did not match, hidden and empty.
pub fn write_route_hidden<W: ?Sized + ResponseWriter>(writer: &mut W) -> (r: Result<(), HandlerError>)
    ensures
        old(writer).never_fails() ==> r is Ok,
        appended(old(writer).written(), final(writer).written(), " style=\"display:none\"></webhub-route>"@, r is Ok),
{
    writer.write(" style=\"display:none\"></webhub-route>")
}

/// Close a route element.
pub fn write_route_end<W: ?Sized + ResponseWriter>(writer: &mut W) -> (r: Result<(), HandlerError>)
    ensures
        old(writer).never_fails() ==> r is Ok,
        appended(old(writer).written(), final(writer).written(), "</webhub-route>"@, r is Ok),
{
    writer.write("</webhub-route>")
}

/// `<tag`: the start of the element of a route's component.
pub fn write_tag_open<W: ?Sized + ResponseWriter>(writer: &mut W, tag: &str) -> (r: Result<(), HandlerError>)
    ensures
        old(writer).never_fails() ==> r is Ok,
        appended(old(writer).written(), final(writer).written(), seq!['<'] + tag@, r is Ok),
{
    let mut out = String::new();
    crate::text::push_char(&mut out, '<');
    out.append(tag);
    writer.write(out.as_str())
}

/// `</tag>`: the end of the element of a route's component.
pub fn write_tag_close<W: ?Sized + ResponseWriter>(writer: &mut W, tag: &str) -> (r: Result<(), HandlerError>)
    ensures
        old(writer).never_fails() ==> r is Ok,
        appended(old(writer).written(), final(writer).written(), seq!['<', '/'] + tag@ + seq!['>'], r is Ok),
{
    let mut out = String::new();
    crate::text::push_char(&mut out, '<');
    crate::text::push_char(&mut out, '/');
    out.append(tag);
    crate::text::push_char(&mut out, '>');
    proof {
        assert(out@ =~= seq!['<', '/'] + tag@ + seq!['>']);
    }
    writer.write(out.as_str())
}

/// The child route an outlet renders: among the children that matched
/// (with their specificity), the first of those with the highest
/// specificity.
pub open spec fn best_match(matches: Seq<Option<usize>>) -> Option<int>
    decreases matches.len(),
{
    if matches.len() == 0 {
        None
    } else {
        let prev = best_match(matches.drop_last());
        match matches.last() {
            None => prev,
            Some(s) => match prev {
                None => Some(matches.len() - 1),
                Some(j) => if s > matches[j]->Some_0 {
                    Some(matches.len() - 1)
                } else {
                    prev
                },
            },
        }
    }
}

/// Pick the child route an outlet renders.
pub fn best_route_match(matches: &[Option<usize>]) -> (r: Option<usize>)
    ensures
        match best_match(matches@) {
            None => r is None,
            Some(j) => r == Some(j as usize),
        },
{
    let mut best: Option<usize> = None;
    let mut i: usize = 0;
    while i < matches.len()
        invariant
            i <= matches.len(),
            match best_match(matches@.take(i as int)) {
                None => best is None,
                Some(j) => best == Some(j as usize) && 0 <= j < i && matches@[j] is Some,
            },
        decreases matches.len() - i,
    {
        proof {
            assert(matches@.take(i + 1).drop_last() == matches@.take(i as int));
            assert(matches@.take(i + 1).last() == matches@[i as int]);
            if let Some(j) = best {
                assert(matches@.take(i + 1)[j as int] == matches@[j as int]);
            }
        }
        if let Some(s) = matches[i] {
            let better = match best {
                None => true,
                Some(j) => match matches[j] {
                    Some(prev) => s > prev,
                    None => true,
                },
            };
            if better {
                best = Some(i);
            }
        }
        i = i + 1;
    }
    proof {
        assert(matches@.take(matches.len() as int) == matches@);
    }
    best
}

/// The children an outlet renders hidden, in order: every child that names
/// a component, except the matched one.
pub open spec fn outlet_hidden(best: Option<int>, has_component: Seq<bool>) -> Seq<usize>
    decreases has_component.len(),
{
    if has_component.len() == 0 {
        Seq::empty()
    } else {
        let n = has_component.len() - 1;
        let prev = outlet_hidden(best, has_component.drop_last());
        if has_component.last() && best != Some(n) {
            prev.push(n as usize)
        } else {
            prev
        }
    }
}

/// What an outlet renders among its child routes.
pub struct OutletPlan {
    /// The matched child, rendered active when it names a component.
    pub matched: Option<usize>,
    /// The other children that name a component, rendered hidden, in order.
    pub hidden: Vec<usize>,
}

/// Plan an outlet: the first most specific matching child is the matched
/// one; every other child that names a component is rendered hidden.
pub fn outlet_plan(matches: &[Option<usize>], has_component: &[bool]) -> (r: OutletPlan)
    requires
        matches.len() == has_component.len(),
    ensures
        match best_match(matches@) {
            None => r.matched is None,
            Some(j) => r.matched == Some(j as usize),
        },
        r.hidden@ == outlet_hidden(best_match(matches@), has_component@),
{
    let matched = best_route_match(matches);
    let ghost best = best_match(matches@);
    proof {
        lemma_best_match_is_first_most_specific(matches@);
    }
    let mut hidden: Vec<usize> = Vec::new();
    let mut i: usize = 0;
    while i < has_component.len()
        invariant
            i <= has_component.len(),
            best == best_match(matches@),
            match best {
                None => matched is None,
                Some(j) => matched == Some(j as usize) && 0 <= j < has_component.len(),
            },
            hidden@ == outlet_hidden(best, has_component@.take(i as int)),
        decreases has_component.len() - i,
    {
        proof {
            assert(has_component@.take(i + 1).drop_last() == has_component@.take(i as int));
            assert(has_component@.take(i + 1).last() == has_component@[i as int]);
        }
        let is_matched = match matched {
            Some(j) => j == i,
            None => false,
        };
        if has_component[i] && !is_matched {
            hidden.push(i);
        }
        i = i + 1;
    }
    proof {
        assert(has_component@.take(has_component.len() as int) == has_component@);
    }
    OutletPlan { matched, hidden }
}

} // verus!

verus! {

/// The outlet renders the first of the most specific matching children: no
/// child when none matched; otherwise a matching child that no other
/// matching child beats on specificity and that every earlier matching
/// child falls short of.
pub proof fn lemma_best_match_is_first_most_specific(matches: Seq<Option<usize>>)
    ensures
        best_match(matches) is None <==> (forall|i: int| 0 <= i < matches.len() ==> #[trigger] matches[i] is None),
        best_match(matches) matches Some(j) ==> {
            &&& 0 <= j < matches.len()
            &&& matches[j] is Some
            &&& forall|i: int|
                0 <= i < matches.len() && #[trigger] matches[i] is Some ==> matches[i]->Some_0 <= matches[j]->Some_0
            &&& forall|i: int| 0 <= i < j && #[trigger] matches[i] is Some ==> matches[i]->Some_0 < matches[j]->Some_0
        },
    decreases matches.len(),
{
    if matches.len() > 0 {
        let p = matches.drop_last();
        lemma_best_match_is_first_most_specific(p);
        assert forall|i: int| 0 <= i < p.len() implies p[i] == matches[i] by {}
        let n = matches.len() - 1;
        if best_match(matches) is None {
            assert forall|i: int| 0 <= i < matches.len() implies #[trigger] matches[i] is None by {
                if i < n {
                    assert(p[i] == matches[i]);
                }
            }
        }
        if (forall|i: int| 0 <= i < matches.len() ==> #[trigger] matches[i] is None) {
            assert(forall|i: int| 0 <= i < p.len() ==> #[trigger] p[i] is None);
            assert(matches[n] is None);
        }
    }
}

} // verus!

verus! {

/// An outlet renders hidden exactly the children that name a component and
/// are not the matched child, each once, in increasing order; the matched
/// child is never among them.
pub proof fn lemma_outlet_hidden_are_the_unmatched(best: Option<int>, has_component: Seq<bool>)
    requires
        has_component.len() <= usize::MAX,
    ensures
        forall|i: int|
            #![trigger has_component[i]]
            0 <= i < has_component.len() ==> (outlet_hidden(best, has_component).contains(i as usize) <==> (
            has_component[i] && best != Some(i))),
        forall|k: int|
            0 <= k < outlet_hidden(best, has_component).len() ==> (#[trigger] outlet_hidden(best, has_component)[k] as int)
                < has_component.len(),
        forall|a: int, b: int|
            0 <= a < b < outlet_hidden(best, has_component).len() ==> #[trigger] outlet_hidden(best, has_component)[a]
                < #[trigger] outlet_hidden(best, has_component)[b],
        forall|j: int|
            best == Some(j) && 0 <= j < has_component.len() ==> !(#[trigger] outlet_hidden(best, has_component).contains(
                j as usize,
            )),
    decreases has_component.len(),
{
    let h = outlet_hidden(best, has_component);
    if has_component.len() > 0 {
        let init = has_component.drop_last();
        let n = has_component.len() - 1;
        let prev = outlet_hidden(best, init);
        lemma_outlet_hidden_are_the_unmatched(best, init);
        assert forall|i: int| 0 <= i < init.len() implies init[i] == has_component[i] by {}
        assert forall|i: int|
            #![trigger has_component[i]]
            0 <= i < has_component.len() implies (h.contains(i as usize) <==> (has_component[i] && best != Some(i))) by {
            if has_component.last() && best != Some(n) {
                assert(h == prev.push(n as usize));
                if i < n {
                    if h.contains(i as usize) {
                        let k = choose|k: int| 0 <= k < h.len() && h[k] == i as usize;
                        if k < prev.len() {
                            assert(prev[k] == i as usize);
                        }
                    }
                    if prev.contains(i as usize) {
                        let k = choose|k: int| 0 <= k < prev.len() && prev[k] == i as usize;
                        assert(h[k] == i as usize);
                    }
                } else {
                    assert(h[h.len() - 1] == n as usize);
                }
            } else {
                assert(h == prev);
                if i == n && prev.contains(i as usize) {
                    let k = choose|k: int| 0 <= k < prev.len() && prev[k] == i as usize;
                    assert((prev[k] as int) < init.len());
                }
            }
        }
        assert forall|j: int| best == Some(j) && 0 <= j < has_component.len() implies !(#[trigger] h.contains(
            j as usize,
        )) by {
            let i = j;
            assert(0 <= i < has_component.len());
            assert(has_component[i] == has_component[j]);
            assert(h.contains(i as usize) <==> (has_component[i] && best != Some(i)));
        }
    }
}

} // verus!
