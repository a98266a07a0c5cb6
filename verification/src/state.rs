//! Selection of the application state that the hydration bootstrap carries.
//!
//! Components declare which top-level state keys they read on the client.
//! For a request, the keys of all reachable components are collected into a
//! sorted allowlist, and the state object is projected down to those keys.

use vstd::prelude::*;

use crate::json::{json_members, json_quote, json_text, member_views, JsonData, JsonValue};
use crate::text::{lemma_seq_less_irreflexive, lemma_seq_less_total, lemma_seq_less_transitive, seq_less, str_equal, str_less};

verus! {

/// How a component's client-side state surface is declared.
#[derive(Debug, Clone, Copy, PartialEq, Eq, Structural)]
pub enum ProjectionMode {
    /// No declared mode (the protocol's `None`); any listed keys still count.
    Undeclared,
    /// Exactly the listed keys.
    Keys,
    /// The whole state.
    All,
    /// A mode this renderer does not know; treated as the whole state.
    Unrecognized,
}

/// What the renderer knows of one component of the protocol.
#[derive(Debug)]
pub struct ComponentMeta {
    pub name: String,
    pub hydration_mode: ProjectionMode,
    pub hydration_keys: Vec<String>,
    pub navigation_mode: ProjectionMode,
    pub navigation_keys: Vec<String>,
    pub css: String,
    pub css_href: String,
}

/// The protocol's component table.
#[derive(Debug)]
pub struct ComponentCatalog {
    /// Whether the protocol asks for initial state per component
    /// (the `Components` initial-state strategy).
    pub initial_state_from_components: bool,
    pub components: Vec<ComponentMeta>,
}

/// Which declared surface of a component to read.
#[derive(Debug, Clone, Copy, PartialEq, Eq, Structural)]
pub enum StateSurface {
    Hydration,
    Navigation,
}

/// Request-scoped state selection derived from reachable component metadata.
#[derive(Debug)]
pub enum StateSelection {
    /// Preserve the complete state value.
    Full,
    /// Project an object to a sorted, deduplicated key allowlist.
    Keys(Vec<String>),
}

/// The characters of each string.
pub open spec fn views(v: Seq<String>) -> Seq<Seq<char>> {
    v.map_values(|s: String| s@)
}

/// Each element sorts strictly before the next: sorted and free of duplicates.
pub open spec fn strictly_sorted(s: Seq<Seq<char>>) -> bool {
    forall|i: int, j: int| 0 <= i < j < s.len() ==> seq_less(#[trigger] s[i], #[trigger] s[j])
}

/// The first component with the given name.
pub open spec fn lookup_component(comps: Seq<ComponentMeta>, name: Seq<char>) -> Option<ComponentMeta>
    decreases comps.len(),
{
    if comps.len() == 0 {
        None
    } else if comps[0].name@ == name {
        Some(comps[0])
    } else {
        lookup_component(comps.drop_first(), name)
    }
}

/// No two components share a name, as in the protocol's component map.
pub open spec fn distinct_component_names(comps: Seq<ComponentMeta>) -> bool {
    forall|i: int, j: int| 0 <= i < j < comps.len() ==> #[trigger] comps[i].name@ != #[trigger] comps[j].name@
}

/// With distinct names, looking a component up by its name finds it.
pub proof fn lemma_lookup_component_unique(comps: Seq<ComponentMeta>, i: int)
    requires
        distinct_component_names(comps),
        0 <= i < comps.len(),
    ensures
        lookup_component(comps, comps[i].name@) == Some(comps[i]),
    decreases i,
{
    if i > 0 {
        let rest = comps.drop_first();
        assert(comps[0].name@ != comps[i].name@);
        assert forall|a: int, b: int| 0 <= a < b < rest.len() implies #[trigger] rest[a].name@ != #[trigger] rest[b].name@ by {
            assert(rest[a] == comps[a + 1] && rest[b] == comps[b + 1]);
        }
        assert(rest[i - 1] == comps[i]);
        lemma_lookup_component_unique(rest, i - 1);
    }
}

/// The mode and keys a component declares for a surface.
pub open spec fn surface_mode(meta: ComponentMeta, surface: StateSurface) -> ProjectionMode {
    match surface {
        StateSurface::Hydration => meta.hydration_mode,
        StateSurface::Navigation => meta.navigation_mode,
    }
}

pub open spec fn surface_keys(meta: ComponentMeta, surface: StateSurface) -> Seq<Seq<char>> {
    match surface {
        StateSurface::Hydration => views(meta.hydration_keys@),
        StateSurface::Navigation => views(meta.navigation_keys@),
    }
}

/// The keys that the named components need, or `None` where one of them needs
/// the whole state (it is unknown, declares `All`, or declares an
/// unrecognized mode).
pub open spec fn collected_keys(comps: Seq<ComponentMeta>, names: Seq<Seq<char>>, surface: StateSurface) -> Option<Seq<Seq<char>>>
    decreases names.len(),
{
    if names.len() == 0 {
        Some(Seq::empty())
    } else {
        match collected_keys(comps, names.drop_last(), surface) {
            None => None,
            Some(acc) => match lookup_component(comps, names.last()) {
                None => None,
                Some(meta) => {
                    let mode = surface_mode(meta, surface);
                    let keys = surface_keys(meta, surface);
                    if mode == ProjectionMode::All {
                        None
                    } else if mode == ProjectionMode::Keys || (mode == ProjectionMode::Undeclared && keys.len() > 0) {
                        Some(acc + keys)
                    } else if mode == ProjectionMode::Undeclared {
                        Some(acc)
                    } else {
                        None
                    }
                },
            },
        }
    }
}

/// The selection that the named components need: the whole state, or the
/// sorted, duplicate-free union of their keys.
pub open spec fn selection_matches(sel: StateSelection, expected: Option<Seq<Seq<char>>>) -> bool {
    match expected {
        None => sel is Full,
        Some(keys) => match sel {
            StateSelection::Full => false,
            StateSelection::Keys(v) => strictly_sorted(views(v@)) && views(v@).to_set() == keys.to_set(),
        },
    }
}

/// Index of the first component with the given name.
pub fn find_component(comps: &Vec<ComponentMeta>, name: &str) -> (r: Option<usize>)
    ensures
        match r {
            Some(i) => i < comps.len() && lookup_component(comps@, name@) == Some(comps@[i as int]),
            None => lookup_component(comps@, name@) is None,
        },
{
    let mut i: usize = 0;
    proof {
        assert(comps@.skip(0) == comps@);
    }
    while i < comps.len()
        invariant
            i <= comps.len(),
            lookup_component(comps@, name@) == lookup_component(comps@.skip(i as int), name@),
        decreases comps.len() - i,
    {
        proof {
            assert(comps@.skip(i as int)[0] == comps@[i as int]);
            assert(comps@.skip(i as int).drop_first() == comps@.skip(i + 1));
        }
        if str_equal(comps[i].name.as_str(), name) {
            return Some(i);
        }
        i = i + 1;
    }
    None
}

proof fn lemma_less_or_equal(a: Seq<char>, b: Seq<char>)
    requires
        !seq_less(a, b),
        a != b,
    ensures
        seq_less(b, a),
{
    lemma_seq_less_total(a, b);
}

/// Insert `key` into a strictly sorted list, keeping it strictly sorted.
pub fn insert_sorted(keys: &mut Vec<String>, key: &String)
    requires
        strictly_sorted(views(old(keys)@)),
    ensures
        strictly_sorted(views(final(keys)@)),
        views(final(keys)@).to_set() == views(old(keys)@).to_set().insert(key@),
{
    let ghost old_views = views(keys@);
    let mut p: usize = 0;
    while p < keys.len() && str_less(keys[p].as_str(), key.as_str())
        invariant
            p <= keys.len(),
            keys@ == old(keys)@,
            forall|i: int| 0 <= i < p ==> seq_less(#[trigger] views(keys@)[i], key@),
        decreases keys.len() - p,
    {
        p = p + 1;
    }
    if p < keys.len() && str_equal(keys[p].as_str(), key.as_str()) {
        proof {
            assert(views(keys@)[p as int] == key@);
            assert(views(keys@).to_set().insert(key@) =~= views(keys@).to_set());
        }
        return;
    }
    proof {
        if p < keys.len() {
            assert(!seq_less(views(keys@)[p as int], key@));
            lemma_less_or_equal(views(keys@)[p as int], key@);
        }
    }
    keys.insert(p, key.clone());
    proof {
        let nv = views(keys@);
        assert(nv =~= old_views.insert(p as int, key@));
        assert forall|i: int, j: int| 0 <= i < j < nv.len() implies seq_less(#[trigger] nv[i], #[trigger] nv[j]) by {
            if j < p {
                assert(nv[i] == old_views[i] && nv[j] == old_views[j]);
            } else if j == p {
                assert(nv[i] == old_views[i]);
            } else if i == p {
                assert(nv[j] == old_views[j - 1]);
                if j - 1 > p {
                    assert(seq_less(old_views[p as int], old_views[j - 1]));
                    lemma_seq_less_transitive(key@, old_views[p as int], old_views[j - 1]);
                }
            } else if i < p {
                assert(nv[i] == old_views[i]);
                assert(nv[j] == old_views[j - 1]);
                assert(seq_less(old_views[i], key@));
                if j - 1 > p {
                    lemma_seq_less_transitive(key@, old_views[p as int], old_views[j - 1]);
                }
                lemma_seq_less_transitive(old_views[i], key@, old_views[j - 1]);
            } else {
                assert(nv[i] == old_views[i - 1]);
                assert(nv[j] == old_views[j - 1]);
            }
        }
        assert forall|x: Seq<char>| nv.to_set().contains(x) <==> old_views.to_set().insert(key@).contains(x) by {
            if nv.to_set().contains(x) {
                let k = choose|k: int| 0 <= k < nv.len() && nv[k] == x;
                if k < p {
                    assert(old_views[k] == x);
                } else if k > p {
                    assert(old_views[k - 1] == x);
                }
            }
            if old_views.to_set().contains(x) && x != key@ {
                let k = choose|k: int| 0 <= k < old_views.len() && old_views[k] == x;
                if k < p {
                    assert(nv[k] == x);
                } else {
                    assert(nv[k + 1] == x);
                }
            }
            if x == key@ {
                assert(nv[p as int] == x);
            }
        }
        assert(nv.to_set() =~= old_views.to_set().insert(key@));
    }
}

} // verus!

verus! {

/// Once some prefix of the names needs the whole state, all of them do.
proof fn lemma_collected_none_extends(comps: Seq<ComponentMeta>, names: Seq<Seq<char>>, k: int, surface: StateSurface)
    requires
        0 <= k <= names.len(),
        collected_keys(comps, names.take(k), surface) is None,
    ensures
        collected_keys(comps, names, surface) is None,
    decreases names.len(),
{
    if k == names.len() {
        assert(names.take(k) == names);
    } else {
        assert(names.drop_last().take(k) == names.take(k));
        lemma_collected_none_extends(comps, names.drop_last(), k, surface);
    }
}

/// Select state for the named components on one surface: the whole state
/// when any of them needs it, else the sorted union of their keys.
pub fn collect_component_state(catalog: &ComponentCatalog, names: &[String], surface: StateSurface) -> (r: StateSelection)
    ensures
        selection_matches(r, collected_keys(catalog.components@, views(names@), surface)),
{
    let ghost comps = catalog.components@;
    let ghost nv = views(names@);
    let mut keys: Vec<String> = Vec::new();
    let mut i: usize = 0;
    while i < names.len()
        invariant
            i <= names.len(),
            comps == catalog.components@,
            nv == views(names@),
            collected_keys(comps, nv.take(i as int), surface) is Some,
            strictly_sorted(views(keys@)),
            views(keys@).to_set() == collected_keys(comps, nv.take(i as int), surface)->Some_0.to_set(),
        decreases names.len() - i,
    {
        proof {
            assert(nv.take(i + 1).drop_last() == nv.take(i as int));
            assert(nv.take(i + 1).last() == names@[i as int]@);
        }
        let ghost acc = collected_keys(comps, nv.take(i as int), surface)->Some_0;
        let found = find_component(&catalog.components, names[i].as_str());
        let idx = match found {
            Some(idx) => idx,
            None => {
                proof {
                    lemma_collected_none_extends(comps, nv, i + 1, surface);
                }
                return StateSelection::Full;
            },
        };
        let meta = &catalog.components[idx];
        let (mode, component_keys) = match surface {
            StateSurface::Hydration => (meta.hydration_mode, &meta.hydration_keys),
            StateSurface::Navigation => (meta.navigation_mode, &meta.navigation_keys),
        };
        proof {
            assert(mode == surface_mode(*meta, surface));
            assert(views(component_keys@) == surface_keys(*meta, surface));
        }
        if mode == ProjectionMode::All {
            proof {
                lemma_collected_none_extends(comps, nv, i + 1, surface);
            }
            return StateSelection::Full;
        }
        if mode == ProjectionMode::Keys || (mode == ProjectionMode::Undeclared && component_keys.len() > 0) {
            let ghost ck = views(component_keys@);
            let mut j: usize = 0;
            while j < component_keys.len()
                invariant
                    j <= component_keys.len(),
                    ck == views(component_keys@),
                    strictly_sorted(views(keys@)),
                    views(keys@).to_set() == (acc + ck.take(j as int)).to_set(),
                decreases component_keys.len() - j,
            {
                insert_sorted(&mut keys, &component_keys[j]);
                proof {
                    assert(acc + ck.take(j + 1) == (acc + ck.take(j as int)).push(ck[j as int]));
                    (acc + ck.take(j as int)).lemma_push_to_set_commute(ck[j as int]);
                }
                j = j + 1;
            }
            proof {
                assert(ck.take(ck.len() as int) == ck);
            }
        } else if mode != ProjectionMode::Undeclared {
            proof {
                lemma_collected_none_extends(comps, nv, i + 1, surface);
            }
            return StateSelection::Full;
        } else {
            proof {
                assert(component_keys.len() == 0);
            }
        }
        i = i + 1;
    }
    proof {
        assert(nv.take(names.len() as int) == nv);
    }
    StateSelection::Keys(keys)
}

/// Select initial state for the components reachable on this request path.
/// Protocols whose initial-state strategy is not per component keep the
/// whole state.
pub fn collect_hydration_state(catalog: &ComponentCatalog, names: &[String]) -> (r: StateSelection)
    ensures
        !catalog.initial_state_from_components ==> r is Full,
        catalog.initial_state_from_components ==> selection_matches(
            r,
            collected_keys(catalog.components@, views(names@), StateSurface::Hydration),
        ),
{
    if !catalog.initial_state_from_components {
        return StateSelection::Full;
    }
    collect_component_state(catalog, names, StateSurface::Hydration)
}

/// Select state for client-created components reachable during navigation.
pub fn collect_navigation_state(catalog: &ComponentCatalog, names: &[String]) -> (r: StateSelection)
    ensures
        selection_matches(r, collected_keys(catalog.components@, views(names@), StateSurface::Navigation)),
{
    collect_component_state(catalog, names, StateSurface::Navigation)
}

} // verus!

verus! {

/// The value of the first member named `key`.
pub open spec fn lookup_member(members: Seq<(Seq<char>, JsonData)>, key: Seq<char>) -> Option<JsonData>
    decreases members.len(),
{
    if members.len() == 0 {
        None
    } else if members[0].0 == key {
        Some(members[0].1)
    } else {
        lookup_member(members.drop_first(), key)
    }
}

/// Projection that walks the allowlist: for each key not repeating the one
/// before it, the member of that name if there is one.
pub open spec fn project_by_keys(keys: Seq<String>, members: Seq<(Seq<char>, JsonData)>) -> Seq<(Seq<char>, JsonData)>
    decreases keys.len(),
{
    if keys.len() == 0 {
        Seq::empty()
    } else {
        let prev = project_by_keys(keys.drop_last(), members);
        let k = keys.last();
        if keys.len() >= 2 && keys[keys.len() - 2]@ == k@ {
            prev
        } else {
            match lookup_member(members, k@) {
                Some(v) => prev.push((k@, v)),
                None => prev,
            }
        }
    }
}

/// Projection that walks the object: its members whose name is listed.
pub open spec fn project_by_members(members: Seq<(Seq<char>, JsonData)>, keys: Seq<String>) -> Seq<(Seq<char>, JsonData)>
    decreases members.len(),
{
    if members.len() == 0 {
        Seq::empty()
    } else {
        let prev = project_by_members(members.drop_last(), keys);
        if views(keys).contains(members.last().0) {
            prev.push(members.last())
        } else {
            prev
        }
    }
}

/// The members of the projected state object. Whichever of the allowlist
/// and the object is shorter is walked; a non-object projects to nothing.
pub open spec fn projected_members(state: JsonData, keys: Seq<String>) -> Seq<(Seq<char>, JsonData)> {
    match state {
        JsonData::Object(members) => if keys.len() < members.len() {
            project_by_keys(keys, members)
        } else {
            project_by_members(members, keys)
        },
        _ => Seq::empty(),
    }
}

/// The JSON text of the projected state object.
pub open spec fn projected_text(state: JsonData, keys: Seq<String>) -> Seq<char> {
    seq!['{'] + json_members(projected_members(state, keys)) + seq!['}']
}

/// Index of the first member named `key`.
pub fn find_member(members: &Vec<(String, JsonValue)>, key: &str) -> (r: Option<usize>)
    ensures
        match r {
            Some(i) => i < members.len() && members@[i as int].0@ == key@ && lookup_member(member_views(members@), key@)
                == Some(members@[i as int].1@),
            None => lookup_member(member_views(members@), key@) is None,
        },
{
    let ghost mv = member_views(members@);
    let mut i: usize = 0;
    proof {
        assert(mv.skip(0) == mv);
    }
    while i < members.len()
        invariant
            i <= members.len(),
            mv == member_views(members@),
            lookup_member(mv, key@) == lookup_member(mv.skip(i as int), key@),
        decreases members.len() - i,
    {
        proof {
            assert(mv.skip(i as int)[0] == (members@[i as int].0@, members@[i as int].1@));
            assert(mv.skip(i as int).drop_first() == mv.skip(i + 1));
        }
        if str_equal(members[i].0.as_str(), key) {
            return Some(i);
        }
        i = i + 1;
    }
    None
}

/// Whether `key` is one of `keys`.
pub fn key_listed(keys: &Vec<String>, key: &str) -> (r: bool)
    ensures
        r == views(keys@).contains(key@),
{
    let mut i: usize = 0;
    while i < keys.len()
        invariant
            i <= keys.len(),
            forall|j: int| 0 <= j < i ==> views(keys@)[j] != key@,
        decreases keys.len() - i,
    {
        if str_equal(keys[i].as_str(), key) {
            proof {
                assert(views(keys@)[i as int] == key@);
            }
            return true;
        }
        i = i + 1;
    }
    false
}

/// Appending one member to a member list.
proof fn lemma_json_members_push(s: Seq<(Seq<char>, JsonData)>, m: (Seq<char>, JsonData))
    ensures
        json_members(s.push(m)) == json_members(s) + (if s.len() > 0 {
            seq![',']
        } else {
            Seq::empty()
        }) + json_quote(m.0) + seq![':'] + json_text(m.1),
{
    assert(s.push(m).drop_last() == s);
    if s.len() == 0 {
        assert(s.push(m)[0] == m);
    }
}

/// Append one member, `,"key":value` or `"key":value` for the first one.
fn push_member(out: &mut String, first: bool, key: &str, value: &JsonValue)
    ensures
        final(out)@ == old(out)@ + (if first {
            Seq::empty()
        } else {
            seq![',']
        }) + json_quote(key@) + seq![':'] + json_text(value@),
{
    if !first {
        crate::text::push_char(out, ',');
    }
    crate::json::push_json_string(out, key);
    crate::text::push_char(out, ':');
    crate::json::push_json_text(out, value);
}

/// Append the JSON text of the state projected to `keys`.
pub fn push_projected_state(out: &mut String, state: &JsonValue, keys: &Vec<String>)
    ensures
        final(out)@ == old(out)@ + projected_text(state@, keys@),
{
    let ghost start = out@;
    crate::text::push_char(out, '{');
    match state {
        JsonValue::Object(members) => {
            let ghost mv = member_views(members@);
            assert(state@ == JsonData::Object(mv)) by {
                assert(state@->Object_0 =~= mv);
            }
            if keys.len() < members.len() {
                let mut i: usize = 0;
                let mut first = true;
                while i < keys.len()
                    invariant
                        i <= keys.len(),
                        first == (project_by_keys(keys@.take(i as int), mv).len() == 0),
                        mv == member_views(members@),
                        out@ == start + seq!['{'] + json_members(project_by_keys(keys@.take(i as int), mv)),
                    decreases keys.len() - i,
                {
                    let ghost prefix = keys@.take(i as int);
                    proof {
                        assert(keys@.take(i + 1).drop_last() == prefix);
                        assert(keys@.take(i + 1).last() == keys@[i as int]);
                        if i >= 1 {
                            assert(keys@.take(i + 1)[i - 1] == keys@[i - 1]);
                        }
                    }
                    let repeated = i > 0 && str_equal(keys[i - 1].as_str(), keys[i].as_str());
                    if !repeated {
                        match find_member(members, keys[i].as_str()) {
                            Some(idx) => {
                                let ghost prev = project_by_keys(prefix, mv);
                                proof {
                                    lemma_json_members_push(prev, (keys@[i as int]@, members@[idx as int].1@));
                                }
                                push_member(out, first, keys[i].as_str(), &members[idx].1);
                                first = false;
                            },
                            None => {},
                        }
                    }
                    i = i + 1;
                }
                proof {
                    assert(keys@.take(keys.len() as int) == keys@);
                }
            } else {
                let mut i: usize = 0;
                let mut first = true;
                while i < members.len()
                    invariant
                        i <= members.len(),
                        mv == member_views(members@),
                        first == (project_by_members(mv.take(i as int), keys@).len() == 0),
                        out@ == start + seq!['{'] + json_members(project_by_members(mv.take(i as int), keys@)),
                    decreases members.len() - i,
                {
                    let ghost prefix = mv.take(i as int);
                    proof {
                        assert(mv.take(i + 1).drop_last() == prefix);
                        assert(mv.take(i + 1).last() == (members@[i as int].0@, members@[i as int].1@));
                    }
                    if key_listed(keys, members[i].0.as_str()) {
                        let ghost prev = project_by_members(prefix, keys@);
                        proof {
                            lemma_json_members_push(prev, (members@[i as int].0@, members@[i as int].1@));
                        }
                        push_member(out, first, members[i].0.as_str(), &members[i].1);
                        first = false;
                    }
                    i = i + 1;
                }
                proof {
                    assert(mv.take(members.len() as int) == mv);
                }
            }
        },
        _ => {},
    }
    crate::text::push_char(out, '}');
}

} // verus!

verus! {

/// The names of an object's members, in order.
pub open spec fn member_names(members: Seq<(Seq<char>, JsonData)>) -> Seq<Seq<char>> {
    members.map_values(|m: (Seq<char>, JsonData)| m.0)
}

/// Sorted ascending; a key may repeat.
pub open spec fn sorted_keys(keys: Seq<Seq<char>>) -> bool {
    forall|i: int, j: int|
        #![trigger keys[i], keys[j]]
        0 <= i < j < keys.len() ==> keys[i] == keys[j] || seq_less(keys[i], keys[j])
}

/// The members that the object walk keeps are the listed ones.
proof fn lemma_by_members_contains(members: Seq<(Seq<char>, JsonData)>, keys: Seq<String>)
    ensures
        forall|x: (Seq<char>, JsonData)|
            #[trigger] project_by_members(members, keys).contains(x) <==> members.contains(x) && views(
                keys,
            ).contains(x.0),
    decreases members.len(),
{
    broadcast use vstd::seq_lib::lemma_seq_contains_after_push;

    if members.len() > 0 {
        let init = members.drop_last();
        lemma_by_members_contains(init, keys);
        assert(members == init.push(members.last()));
        assert forall|x: (Seq<char>, JsonData)|
            #[trigger] project_by_members(members, keys).contains(x) <==> members.contains(x) && views(
                keys,
            ).contains(x.0) by {
            assert(members.contains(x) <==> init.push(members.last()).contains(x));
            let prev = project_by_members(init, keys);
            assert(prev.contains(x) <==> init.contains(x) && views(keys).contains(x.0));
            if views(keys).contains(members.last().0) {
                assert(project_by_members(members, keys) == prev.push(members.last()));
                assert(prev.push(members.last()).contains(x) <==> (x == members.last() || prev.contains(x)));
            } else {
                assert(project_by_members(members, keys) == prev);
            }
        }
    }
}


/// The object walk keeps the members' order, so sorted names stay sorted.
proof fn lemma_by_members_sorted(members: Seq<(Seq<char>, JsonData)>, keys: Seq<String>)
    requires
        strictly_sorted(member_names(members)),
    ensures
        strictly_sorted(member_names(project_by_members(members, keys))),
    decreases members.len(),
{
    if members.len() > 0 {
        let init = members.drop_last();
        let last = members.last();
        assert forall|i: int, j: int| 0 <= i < j < init.len() implies seq_less(
            #[trigger] member_names(init)[i],
            #[trigger] member_names(init)[j],
        ) by {
            assert(member_names(members)[i] == member_names(init)[i]);
            assert(member_names(members)[j] == member_names(init)[j]);
        }
        lemma_by_members_sorted(init, keys);
        lemma_by_members_contains(init, keys);
        let prev = project_by_members(init, keys);
        if views(keys).contains(last.0) {
            let out = prev.push(last);
            assert forall|i: int, j: int| 0 <= i < j < out.len() implies seq_less(
                #[trigger] member_names(out)[i],
                #[trigger] member_names(out)[j],
            ) by {
                if j < prev.len() {
                    assert(member_names(prev)[i] == member_names(out)[i]);
                    assert(member_names(prev)[j] == member_names(out)[j]);
                } else {
                    assert(prev.contains(prev[i]));
                    let t = choose|t: int| 0 <= t < init.len() && init[t] == prev[i];
                    assert(member_names(members)[t] == prev[i].0);
                    assert(member_names(members)[members.len() - 1] == last.0);
                }
            }
        }
    }
}

/// A listed name's value, where the object has a member of that name, is
/// one of its members.
proof fn lemma_lookup_member_contains(members: Seq<(Seq<char>, JsonData)>, key: Seq<char>)
    ensures
        lookup_member(members, key) matches Some(v) ==> members.contains((key, v)),
    decreases members.len(),
{
    if members.len() > 0 {
        if members[0].0 != key {
            lemma_lookup_member_contains(members.drop_first(), key);
            if let Some(v) = lookup_member(members, key) {
                let t = choose|t: int| 0 <= t < members.len() - 1 && members.drop_first()[t] == (key, v);
                assert(members[t + 1] == (key, v));
            }
        } else {
            assert(members[0] == (key, members[0].1));
        }
    }
}

/// With distinct names, looking up a member's name finds that member.
proof fn lemma_lookup_member_unique(members: Seq<(Seq<char>, JsonData)>, x: (Seq<char>, JsonData))
    requires
        strictly_sorted(member_names(members)),
        members.contains(x),
    ensures
        lookup_member(members, x.0) == Some(x.1),
    decreases members.len(),
{
    let t = choose|t: int| 0 <= t < members.len() && members[t] == x;
    if members[0] != x {
        if members[0].0 == x.0 {
            assert(t > 0);
            assert(seq_less(member_names(members)[0], member_names(members)[t]));
            lemma_seq_less_irreflexive(x.0);
        } else {
            let rest = members.drop_first();
            assert(rest[t - 1] == x);
            assert forall|i: int, j: int| 0 <= i < j < rest.len() implies seq_less(
                #[trigger] member_names(rest)[i],
                #[trigger] member_names(rest)[j],
            ) by {
                assert(member_names(members)[i + 1] == member_names(rest)[i]);
                assert(member_names(members)[j + 1] == member_names(rest)[j]);
            }
            lemma_lookup_member_unique(rest, x);
        }
    }
}

/// The allowlist walk keeps exactly the members whose name is listed.
proof fn lemma_by_keys_contains(keys: Seq<String>, members: Seq<(Seq<char>, JsonData)>)
    requires
        strictly_sorted(member_names(members)),
    ensures
        forall|x: (Seq<char>, JsonData)|
            #[trigger] project_by_keys(keys, members).contains(x) <==> members.contains(x) && views(
                keys,
            ).contains(x.0),
    decreases keys.len(),
{
    broadcast use vstd::seq_lib::lemma_seq_contains_after_push;

    if keys.len() > 0 {
        let init = keys.drop_last();
        let k = keys.last();
        lemma_by_keys_contains(init, members);
        let prev = project_by_keys(init, members);
        assert(views(keys) == views(init).push(k@));
        let repeated = keys.len() >= 2 && keys[keys.len() - 2]@ == k@;
        if repeated {
            assert(views(init)[keys.len() - 2] == k@);
        }
        lemma_lookup_member_contains(members, k@);
        assert forall|x: (Seq<char>, JsonData)|
            #[trigger] project_by_keys(keys, members).contains(x) <==> members.contains(x) && views(
                keys,
            ).contains(x.0) by {
            if members.contains(x) {
                lemma_lookup_member_unique(members, x);
            }
            assert(views(keys).contains(x.0) <==> (x.0 == k@ || views(init).contains(x.0)));
        }
    }
}

/// The allowlist walk, on a sorted allowlist, yields names in strictly
/// ascending order.
proof fn lemma_by_keys_sorted(keys: Seq<String>, members: Seq<(Seq<char>, JsonData)>)
    requires
        sorted_keys(views(keys)),
        strictly_sorted(member_names(members)),
    ensures
        strictly_sorted(member_names(project_by_keys(keys, members))),
    decreases keys.len(),
{
    if keys.len() > 0 {
        let init = keys.drop_last();
        let k = keys.last();
        let n = keys.len() as int;
        assert forall|i: int, j: int| 0 <= i < j < init.len() implies (#[trigger] views(init)[i] == #[trigger] views(
            init,
        )[j] || seq_less(views(init)[i], views(init)[j])) by {
            assert(views(keys)[i] == views(init)[i]);
            assert(views(keys)[j] == views(init)[j]);
        }
        lemma_by_keys_sorted(init, members);
        lemma_by_keys_contains(init, members);
        let prev = project_by_keys(init, members);
        let repeated = n >= 2 && keys[n - 2]@ == k@;
        if !repeated {
            if let Some(v) = lookup_member(members, k@) {
                let out = prev.push((k@, v));
                assert forall|i: int, j: int| 0 <= i < j < out.len() implies seq_less(
                    #[trigger] member_names(out)[i],
                    #[trigger] member_names(out)[j],
                ) by {
                    if j < prev.len() {
                        assert(member_names(prev)[i] == member_names(out)[i]);
                        assert(member_names(prev)[j] == member_names(out)[j]);
                    } else {
                        assert(prev.contains(prev[i]));
                        let t = choose|t: int| 0 <= t < init.len() && views(init)[t] == prev[i].0;
                        let a = views(keys)[t];
                        let b = views(keys)[n - 2];
                        assert(a == prev[i].0);
                        assert(views(keys)[n - 1] == k@);
                        assert(b == keys[n - 2]@);
                        assert(b == k@ || seq_less(b, k@));
                        if t < n - 2 {
                            assert(a == b || seq_less(a, b));
                            if seq_less(a, b) {
                                lemma_seq_less_transitive(a, b, k@);
                            }
                        }
                        assert(member_names(out)[i] == a);
                    }
                }
            }
        }
    }
}

/// Dropping the first element of a sequence with strictly ascending names.
proof fn lemma_sorted_drop_first(a: Seq<(Seq<char>, JsonData)>)
    requires
        a.len() > 0,
        strictly_sorted(member_names(a)),
    ensures
        strictly_sorted(member_names(a.drop_first())),
        forall|x: (Seq<char>, JsonData)| #[trigger] a.drop_first().contains(x) <==> a.contains(x) && x != a[0],
{
    let rest = a.drop_first();
    assert forall|i: int, j: int| 0 <= i < j < rest.len() implies seq_less(
        #[trigger] member_names(rest)[i],
        #[trigger] member_names(rest)[j],
    ) by {
        assert(member_names(a)[i + 1] == member_names(rest)[i]);
        assert(member_names(a)[j + 1] == member_names(rest)[j]);
    }
    assert forall|x: (Seq<char>, JsonData)| #[trigger] rest.contains(x) <==> a.contains(x) && x != a[0] by {
        if rest.contains(x) {
            let t = choose|t: int| 0 <= t < rest.len() && rest[t] == x;
            assert(a[t + 1] == x);
            assert(seq_less(member_names(a)[0], member_names(a)[t + 1]));
            lemma_seq_less_irreflexive(a[0].0);
        }
        if a.contains(x) && x != a[0] {
            let t = choose|t: int| 0 <= t < a.len() && a[t] == x;
            assert(rest[t - 1] == x);
        }
    }
}

/// Two sequences with strictly ascending names and the same elements are
/// equal.
proof fn lemma_sorted_same_elements_equal(a: Seq<(Seq<char>, JsonData)>, b: Seq<(Seq<char>, JsonData)>)
    requires
        strictly_sorted(member_names(a)),
        strictly_sorted(member_names(b)),
        forall|x: (Seq<char>, JsonData)| a.contains(x) <==> b.contains(x),
    ensures
        a == b,
    decreases a.len(),
{
    if a.len() == 0 {
        if b.len() > 0 {
            assert(b.contains(b[0]));
        }
        assert(a =~= b);
    } else {
        assert(a.contains(a[0]));
        let j = choose|j: int| 0 <= j < b.len() && b[j] == a[0];
        assert(b.contains(b[0]));
        let i = choose|i: int| 0 <= i < a.len() && a[i] == b[0];
        if j > 0 {
            assert(seq_less(member_names(b)[0], member_names(b)[j]));
            if i > 0 {
                assert(seq_less(member_names(a)[0], member_names(a)[i]));
                lemma_seq_less_transitive(a[0].0, b[0].0, a[0].0);
            }
            lemma_seq_less_irreflexive(a[0].0);
        }
        assert(a[0] == b[0]);
        lemma_sorted_drop_first(a);
        lemma_sorted_drop_first(b);
        lemma_sorted_same_elements_equal(a.drop_first(), b.drop_first());
        assert(a =~= b) by {
            assert forall|t: int| 0 <= t < a.len() implies a[t] == b[t] by {
                if t > 0 {
                    assert(a[t] == a.drop_first()[t - 1]);
                    assert(b[t] == b.drop_first()[t - 1]);
                }
            }
        }
    }
}

/// Walking the allowlist and walking the object project to the same
/// members: for a sorted allowlist (repeats allowed) and an object whose
/// member names are distinct and ascending, both keep exactly the listed
/// members, in ascending name order.
pub proof fn lemma_projection_walks_agree(keys: Seq<String>, members: Seq<(Seq<char>, JsonData)>)
    requires
        sorted_keys(views(keys)),
        strictly_sorted(member_names(members)),
    ensures
        project_by_keys(keys, members) == project_by_members(members, keys),
{
    lemma_by_keys_contains(keys, members);
    lemma_by_keys_sorted(keys, members);
    lemma_by_members_contains(members, keys);
    lemma_by_members_sorted(members, keys);
    lemma_sorted_same_elements_equal(project_by_keys(keys, members), project_by_members(members, keys));
}

/// The projected state keeps exactly the members of the state object whose
/// name is listed, each with its value, in ascending name order; a state
/// that is not an object projects to nothing.
pub proof fn lemma_projection_keeps_listed_members(state: JsonData, keys: Seq<String>)
    requires
        sorted_keys(views(keys)),
        state matches JsonData::Object(members) ==> strictly_sorted(member_names(members)),
    ensures
        strictly_sorted(member_names(projected_members(state, keys))),
        forall|x: (Seq<char>, JsonData)|
            #[trigger] projected_members(state, keys).contains(x) <==> (state matches JsonData::Object(
                members,
            ) && members.contains(x) && views(keys).contains(x.0)),
{
    if let JsonData::Object(members) = state {
        lemma_projection_walks_agree(keys, members);
        lemma_by_members_contains(members, keys);
        lemma_by_members_sorted(members, keys);
    } else {
        assert(projected_members(state, keys) =~= Seq::<(Seq<char>, JsonData)>::empty());
    }
}

} // verus!

verus! {

/// Whether the named component makes a surface need the whole state.
spec fn needs_whole(comps: Seq<ComponentMeta>, name: Seq<char>, surface: StateSurface) -> bool {
    match lookup_component(comps, name) {
        None => true,
        Some(meta) => surface_mode(meta, surface) == ProjectionMode::All || surface_mode(meta, surface)
            == ProjectionMode::Unrecognized,
    }
}

/// Whether the named component contributes the key `x` on a surface.
spec fn contributes(comps: Seq<ComponentMeta>, name: Seq<char>, surface: StateSurface, x: Seq<char>) -> bool {
    match lookup_component(comps, name) {
        None => false,
        Some(meta) => (surface_mode(meta, surface) == ProjectionMode::Keys || surface_mode(meta, surface)
            == ProjectionMode::Undeclared) && surface_keys(meta, surface).contains(x),
    }
}

proof fn lemma_collected_keys_meaning(comps: Seq<ComponentMeta>, names: Seq<Seq<char>>, surface: StateSurface)
    ensures
        collected_keys(comps, names, surface) is None <==> exists|k: int|
            0 <= k < names.len() && #[trigger] needs_whole(comps, names[k], surface),
        collected_keys(comps, names, surface) matches Some(keys) ==> forall|x: Seq<char>|
            keys.contains(x) <==> exists|k: int|
                0 <= k < names.len() && #[trigger] contributes(comps, names[k], surface, x),
    decreases names.len(),
{
    if names.len() > 0 {
        let init = names.drop_last();
        let last = names.last();
        let n = names.len() - 1;
        lemma_collected_keys_meaning(comps, init, surface);
        assert forall|k: int| 0 <= k < init.len() implies init[k] == names[k] by {}
        assert(last == names[n]);
        if exists|k: int| 0 <= k < names.len() && #[trigger] needs_whole(comps, names[k], surface) {
            let k = choose|k: int| 0 <= k < names.len() && #[trigger] needs_whole(comps, names[k], surface);
            if k < n {
                assert(needs_whole(comps, init[k], surface));
            }
        }
        if exists|k: int| 0 <= k < init.len() && #[trigger] needs_whole(comps, init[k], surface) {
            let k = choose|k: int| 0 <= k < init.len() && #[trigger] needs_whole(comps, init[k], surface);
            assert(needs_whole(comps, names[k], surface));
        }
        if needs_whole(comps, last, surface) {
            assert(needs_whole(comps, names[n], surface));
        }
        if let Some(keys) = collected_keys(comps, names, surface) {
            let acc = collected_keys(comps, init, surface)->Some_0;
            let meta = lookup_component(comps, last)->Some_0;
            assert forall|x: Seq<char>| keys.contains(x) <==> exists|k: int|
                0 <= k < names.len() && #[trigger] contributes(comps, names[k], surface, x) by {
                assert(acc.contains(x) <==> exists|k: int|
                    0 <= k < init.len() && #[trigger] contributes(comps, init[k], surface, x));
                let sk = surface_keys(meta, surface);
                if keys.contains(x) {
                    if acc.contains(x) {
                        let k = choose|k: int| 0 <= k < init.len() && #[trigger] contributes(comps, init[k], surface, x);
                        assert(contributes(comps, names[k], surface, x));
                    } else {
                        assert(keys == acc + sk);
                        let t = choose|t: int| 0 <= t < keys.len() && keys[t] == x;
                        assert(sk[t - acc.len()] == x);
                        assert(sk.contains(x));
                        assert(contributes(comps, names[n], surface, x));
                    }
                }
                if exists|k: int| 0 <= k < names.len() && #[trigger] contributes(comps, names[k], surface, x) {
                    let k = choose|k: int| 0 <= k < names.len() && #[trigger] contributes(comps, names[k], surface, x);
                    if k < n {
                        assert(contributes(comps, init[k], surface, x));
                        let t = choose|t: int| 0 <= t < acc.len() && acc[t] == x;
                        if keys == acc + sk {
                            assert(keys[t] == x);
                        } else {
                            assert(keys == acc);
                        }
                    } else {
                        assert(contributes(comps, last, surface, x));
                        let t = choose|t: int| 0 <= t < sk.len() && sk[t] == x;
                        assert(sk.len() > 0);
                        assert(keys == acc + sk);
                        assert(keys[acc.len() + t] == x);
                    }
                }
            }
        }
    }
}

/// Navigation state reads only each reachable component's navigation mode
/// and keys: it is the whole state exactly when some reachable component is
/// unknown, or declares `All` or an unrecognized navigation mode (whatever
/// its hydration mode); otherwise it holds exactly the navigation keys of
/// the components that declare `Keys` or no mode.
pub proof fn lemma_navigation_selection(comps: Seq<ComponentMeta>, names: Seq<Seq<char>>)
    ensures
        collected_keys(comps, names, StateSurface::Navigation) is None <==> exists|k: int|
            0 <= k < names.len() && (#[trigger] lookup_component(comps, names[k]) is None
                || lookup_component(comps, names[k])->Some_0.navigation_mode == ProjectionMode::All
                || lookup_component(comps, names[k])->Some_0.navigation_mode == ProjectionMode::Unrecognized),
        collected_keys(comps, names, StateSurface::Navigation) matches Some(keys) ==> forall|x: Seq<char>|
            keys.contains(x) <==> exists|k: int|
                0 <= k < names.len() && #[trigger] lookup_component(comps, names[k]) is Some && ({
                    let meta = lookup_component(comps, names[k])->Some_0;
                    (meta.navigation_mode == ProjectionMode::Keys || meta.navigation_mode == ProjectionMode::Undeclared)
                        && views(meta.navigation_keys@).contains(x)
                }),
{
    let sf = StateSurface::Navigation;
    lemma_collected_keys_meaning(comps, names, sf);
    if exists|k: int| 0 <= k < names.len() && #[trigger] needs_whole(comps, names[k], sf) {
        let k = choose|k: int| 0 <= k < names.len() && #[trigger] needs_whole(comps, names[k], sf);
        assert(lookup_component(comps, names[k]) is None || lookup_component(comps, names[k])->Some_0.navigation_mode
            == ProjectionMode::All || lookup_component(comps, names[k])->Some_0.navigation_mode == ProjectionMode::Unrecognized);
    }
    if exists|k: int|
        0 <= k < names.len() && (#[trigger] lookup_component(comps, names[k]) is None || lookup_component(
            comps,
            names[k],
        )->Some_0.navigation_mode == ProjectionMode::All || lookup_component(comps, names[k])->Some_0.navigation_mode
            == ProjectionMode::Unrecognized) {
        let k = choose|k: int|
            0 <= k < names.len() && (#[trigger] lookup_component(comps, names[k]) is None || lookup_component(
                comps,
                names[k],
            )->Some_0.navigation_mode == ProjectionMode::All || lookup_component(comps, names[k])->Some_0.navigation_mode
                == ProjectionMode::Unrecognized);
        assert(needs_whole(comps, names[k], sf));
    }
    if let Some(keys) = collected_keys(comps, names, sf) {
        assert forall|x: Seq<char>| keys.contains(x) <==> exists|k: int|
            0 <= k < names.len() && #[trigger] lookup_component(comps, names[k]) is Some && ({
                let meta = lookup_component(comps, names[k])->Some_0;
                (meta.navigation_mode == ProjectionMode::Keys || meta.navigation_mode == ProjectionMode::Undeclared)
                    && views(meta.navigation_keys@).contains(x)
            }) by {
            if exists|k: int| 0 <= k < names.len() && #[trigger] contributes(comps, names[k], sf, x) {
                let k = choose|k: int| 0 <= k < names.len() && #[trigger] contributes(comps, names[k], sf, x);
                assert(lookup_component(comps, names[k]) is Some);
            }
            if exists|k: int|
                0 <= k < names.len() && #[trigger] lookup_component(comps, names[k]) is Some && ({
                    let meta = lookup_component(comps, names[k])->Some_0;
                    (meta.navigation_mode == ProjectionMode::Keys || meta.navigation_mode == ProjectionMode::Undeclared)
                        && views(meta.navigation_keys@).contains(x)
                }) {
                let k = choose|k: int|
                    0 <= k < names.len() && #[trigger] lookup_component(comps, names[k]) is Some && ({
                        let meta = lookup_component(comps, names[k])->Some_0;
                        (meta.navigation_mode == ProjectionMode::Keys || meta.navigation_mode == ProjectionMode::Undeclared)
                            && views(meta.navigation_keys@).contains(x)
                    });
                assert(contributes(comps, names[k], sf, x));
            }
        }
    }
}

/// Hydration state reads only each reachable component's hydration mode and
/// keys: it is the whole state exactly when some reachable component is
/// unknown, or declares `All` or an unrecognized hydration mode (whatever its
/// navigation mode); otherwise it holds exactly the hydration keys of the
/// components that declare `Keys` or no mode.
pub proof fn lemma_hydration_selection(comps: Seq<ComponentMeta>, names: Seq<Seq<char>>)
    ensures
        collected_keys(comps, names, StateSurface::Hydration) is None <==> exists|k: int|
            0 <= k < names.len() && (#[trigger] lookup_component(comps, names[k]) is None
                || lookup_component(comps, names[k])->Some_0.hydration_mode == ProjectionMode::All
                || lookup_component(comps, names[k])->Some_0.hydration_mode == ProjectionMode::Unrecognized),
        collected_keys(comps, names, StateSurface::Hydration) matches Some(keys) ==> forall|x: Seq<char>|
            keys.contains(x) <==> exists|k: int|
                0 <= k < names.len() && #[trigger] lookup_component(comps, names[k]) is Some && ({
                    let meta = lookup_component(comps, names[k])->Some_0;
                    (meta.hydration_mode == ProjectionMode::Keys || meta.hydration_mode == ProjectionMode::Undeclared)
                        && views(meta.hydration_keys@).contains(x)
                }),
{
    let sf = StateSurface::Hydration;
    lemma_collected_keys_meaning(comps, names, sf);
    if exists|k: int| 0 <= k < names.len() && #[trigger] needs_whole(comps, names[k], sf) {
        let k = choose|k: int| 0 <= k < names.len() && #[trigger] needs_whole(comps, names[k], sf);
        assert(lookup_component(comps, names[k]) is None || lookup_component(comps, names[k])->Some_0.hydration_mode
            == ProjectionMode::All || lookup_component(comps, names[k])->Some_0.hydration_mode == ProjectionMode::Unrecognized);
    }
    if exists|k: int|
        0 <= k < names.len() && (#[trigger] lookup_component(comps, names[k]) is None || lookup_component(
            comps,
            names[k],
        )->Some_0.hydration_mode == ProjectionMode::All || lookup_component(comps, names[k])->Some_0.hydration_mode
            == ProjectionMode::Unrecognized) {
        let k = choose|k: int|
            0 <= k < names.len() && (#[trigger] lookup_component(comps, names[k]) is None || lookup_component(
                comps,
                names[k],
            )->Some_0.hydration_mode == ProjectionMode::All || lookup_component(comps, names[k])->Some_0.hydration_mode
                == ProjectionMode::Unrecognized);
        assert(needs_whole(comps, names[k], sf));
    }
    if let Some(keys) = collected_keys(comps, names, sf) {
        assert forall|x: Seq<char>| keys.contains(x) <==> exists|k: int|
            0 <= k < names.len() && #[trigger] lookup_component(comps, names[k]) is Some && ({
                let meta = lookup_component(comps, names[k])->Some_0;
                (meta.hydration_mode == ProjectionMode::Keys || meta.hydration_mode == ProjectionMode::Undeclared)
                    && views(meta.hydration_keys@).contains(x)
            }) by {
            if exists|k: int| 0 <= k < names.len() && #[trigger] contributes(comps, names[k], sf, x) {
                let k = choose|k: int| 0 <= k < names.len() && #[trigger] contributes(comps, names[k], sf, x);
                assert(lookup_component(comps, names[k]) is Some);
            }
            if exists|k: int|
                0 <= k < names.len() && #[trigger] lookup_component(comps, names[k]) is Some && ({
                    let meta = lookup_component(comps, names[k])->Some_0;
                    (meta.hydration_mode == ProjectionMode::Keys || meta.hydration_mode == ProjectionMode::Undeclared)
                        && views(meta.hydration_keys@).contains(x)
                }) {
                let k = choose|k: int|
                    0 <= k < names.len() && #[trigger] lookup_component(comps, names[k]) is Some && ({
                        let meta = lookup_component(comps, names[k])->Some_0;
                        (meta.hydration_mode == ProjectionMode::Keys || meta.hydration_mode == ProjectionMode::Undeclared)
                            && views(meta.hydration_keys@).contains(x)
                    });
                assert(contributes(comps, names[k], sf, x));
            }
        }
    }
}

} // verus!
