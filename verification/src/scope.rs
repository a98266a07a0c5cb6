//! Render-time variable scopes: loop items and component attributes that
//! shadow the global state while a fragment renders.

use vstd::prelude::*;

use crate::json::{JsonData, JsonValue};
use crate::text::str_equal;

verus! {

/// No name occurs twice.
pub open spec fn distinct_keys(s: Seq<(String, JsonValue)>) -> bool {
    forall|i: int, j: int| 0 <= i < j < s.len() ==> #[trigger] s[i].0@ != #[trigger] s[j].0@
}

/// The variables an entry list defines.
pub open spec fn vars_map(s: Seq<(String, JsonValue)>) -> Map<Seq<char>, JsonData>
    decreases s.len(),
{
    if s.len() == 0 {
        Map::empty()
    } else {
        vars_map(s.drop_last()).insert(s.last().0@, s.last().1@)
    }
}

proof fn lemma_vars_map_domain(s: Seq<(String, JsonValue)>, k: Seq<char>)
    ensures
        vars_map(s).contains_key(k) <==> (exists|i: int| 0 <= i < s.len() && s[i].0@ == k),
    decreases s.len(),
{
    if s.len() > 0 {
        lemma_vars_map_domain(s.drop_last(), k);
        if vars_map(s).contains_key(k) && k != s.last().0@ {
            let i = choose|i: int| 0 <= i < s.len() - 1 && s.drop_last()[i].0@ == k;
            assert(s[i].0@ == k);
        }
        if exists|i: int| 0 <= i < s.len() && s[i].0@ == k {
            let i = choose|i: int| 0 <= i < s.len() && s[i].0@ == k;
            if i < s.len() - 1 {
                assert(s.drop_last()[i].0@ == k);
            }
        }
    }
}

proof fn lemma_vars_map_at(s: Seq<(String, JsonValue)>, i: int)
    requires
        distinct_keys(s),
        0 <= i < s.len(),
    ensures
        vars_map(s).contains_key(s[i].0@),
        vars_map(s)[s[i].0@] == s[i].1@,
    decreases s.len(),
{
    if i < s.len() - 1 {
        assert(s.drop_last()[i] == s[i]);
        lemma_vars_map_at(s.drop_last(), i);
        assert(s[i].0@ != s[s.len() - 1].0@);
    }
}

proof fn lemma_vars_map_remove(s: Seq<(String, JsonValue)>, i: int)
    requires
        distinct_keys(s),
        0 <= i < s.len(),
    ensures
        vars_map(s.remove(i)) == vars_map(s).remove(s[i].0@),
        distinct_keys(s.remove(i)),
    decreases s.len(),
{
    let k = s[i].0@;
    if i == s.len() - 1 {
        assert(s.remove(i) == s.drop_last());
        lemma_vars_map_domain(s.drop_last(), k);
        assert(!vars_map(s.drop_last()).contains_key(k));
        assert(vars_map(s).remove(k) =~= vars_map(s.drop_last()));
    } else {
        let p = s.drop_last();
        assert(p[i] == s[i]);
        lemma_vars_map_remove(p, i);
        assert(s.remove(i).drop_last() == p.remove(i));
        assert(s.remove(i).last() == s.last());
        assert(s[i].0@ != s[s.len() - 1].0@);
        assert(vars_map(s.remove(i)) =~= vars_map(s).remove(k));
    }
}

/// A set of named variables.
pub struct Vars {
    entries: Vec<(String, JsonValue)>,
}

impl View for Vars {
    type V = Map<Seq<char>, JsonData>;

    closed spec fn view(&self) -> Map<Seq<char>, JsonData> {
        vars_map(self.entries@)
    }
}

impl Vars {
    /// Every name is bound once.
    pub closed spec fn wf(&self) -> bool {
        distinct_keys(self.entries@)
    }

    /// No variables.
    pub fn new() -> (v: Self)
        ensures
            v.wf(),
            v@ == Map::<Seq<char>, JsonData>::empty(),
    {
        Vars { entries: Vec::new() }
    }

    fn position(&self, name: &str) -> (r: Option<usize>)
        requires
            self.wf(),
        ensures
            match r {
                Some(i) => i < self.entries@.len() && self.entries@[i as int].0@ == name@,
                None => !self@.contains_key(name@),
            },
    {
        let mut i: usize = 0;
        while i < self.entries.len()
            invariant
                i <= self.entries@.len(),
                forall|j: int| 0 <= j < i ==> self.entries@[j].0@ != name@,
            decreases self.entries.len() - i,
        {
            if str_equal(self.entries[i].0.as_str(), name) {
                return Some(i);
            }
            i = i + 1;
        }
        proof {
            lemma_vars_map_domain(self.entries@, name@);
        }
        None
    }

    /// The value bound to `name`.
    pub fn get(&self, name: &str) -> (r: Option<&JsonValue>)
        requires
            self.wf(),
        ensures
            match r {
                Some(v) => self@.contains_key(name@) && self@[name@] == v@,
                None => !self@.contains_key(name@),
            },
    {
        match self.position(name) {
            Some(i) => {
                proof {
                    lemma_vars_map_at(self.entries@, i as int);
                }
                Some(&self.entries[i].1)
            },
            None => None,
        }
    }

    /// Unbind `name`, giving back its value.
    pub fn remove(&mut self, name: &str) -> (r: Option<JsonValue>)
        requires
            old(self).wf(),
        ensures
            final(self).wf(),
            final(self)@ == old(self)@.remove(name@),
            match r {
                Some(v) => old(self)@.contains_key(name@) && old(self)@[name@] == v@,
                None => !old(self)@.contains_key(name@),
            },
    {
        match self.position(name) {
            Some(i) => {
                proof {
                    lemma_vars_map_at(self.entries@, i as int);
                    lemma_vars_map_remove(self.entries@, i as int);
                }
                let (_, v) = self.entries.remove(i);
                Some(v)
            },
            None => {
                proof {
                    assert(old(self)@.remove(name@) =~= old(self)@);
                }
                None
            },
        }
    }

    /// Bind `name` to `value`, replacing any earlier binding.
    pub fn insert(&mut self, name: String, value: JsonValue)
        requires
            old(self).wf(),
        ensures
            final(self).wf(),
            final(self)@ == old(self)@.insert(name@, value@),
    {
        let _ = self.remove(name.as_str());
        let ghost before = self.entries@;
        proof {
            lemma_vars_map_domain(before, name@);
        }
        self.entries.push((name, value));
        proof {
            assert(self.entries@.drop_last() == before);
            assert(old(self)@.insert(name@, value@) =~= old(self)@.remove(name@).insert(name@, value@));
        }
    }

    /// Move the variables out, leaving none.
    pub fn take(&mut self) -> (r: Vars)
        requires
            old(self).wf(),
        ensures
            r.wf(),
            r@ == old(self)@,
            final(self).wf(),
            final(self)@ == Map::<Seq<char>, JsonData>::empty(),
    {
        let mut entries = Vec::new();
        std::mem::swap(&mut entries, &mut self.entries);
        Vars { entries }
    }
}

} // verus!

verus! {

/// `path` split at its first `.`: the first segment and, when there is a
/// dot, the rest after it.
pub open spec fn splits_at_first_dot(path: Seq<char>, first: Seq<char>, rest: Option<Seq<char>>) -> bool {
    &&& forall|i: int| 0 <= i < first.len() ==> first[i] != '.'
    &&& match rest {
        Some(r) => path == first + seq!['.'] + r,
        None => path == first,
    }
}

/// Split a dotted path at its first `.`.
pub fn split_first_segment(path: &str) -> (r: (&str, Option<&str>))
    ensures
        splits_at_first_dot(path@, r.0@, match r.1 {
            Some(x) => Some(x@),
            None => None,
        }),
{
    let n = path.unicode_len();
    let mut i: usize = 0;
    while i < n && path.get_char(i) != '.'
        invariant
            n == path@.len(),
            i <= n,
            forall|j: int| 0 <= j < i ==> path@[j] != '.',
        decreases n - i,
    {
        i = i + 1;
    }
    if i == n {
        proof {
            assert(path@.subrange(0, n as int) == path@);
        }
        (path.substring_char(0, n), None)
    } else {
        let first = path.substring_char(0, i);
        let rest = path.substring_char(i + 1, n);
        proof {
            assert(path@ =~= first@ + seq!['.'] + rest@);
        }
        (first, Some(rest))
    }
}

/// Where a dotted path starts: at a local variable (the whole path, or a
/// variable with a nested path below it), or not at any local variable.
pub enum LocalResolution<'a> {
    Whole(&'a JsonValue),
    Nested(&'a JsonValue, &'a str),
    NotLocal,
}

/// The variables visible while a fragment renders: the local variables
/// (loop items, or a component's attributes) and the attributes being
/// collected for the next component.
pub struct RenderScope {
    pub local_vars: Vars,
    pub component_attrs: Vars,
}

/// The local variables after a loop over `name` ends: the outer binding
/// restored, or the loop binding removed when there was none.
pub open spec fn loop_restored(
    current: Map<Seq<char>, JsonData>,
    name: Seq<char>,
    saved: Option<JsonData>,
) -> Map<Seq<char>, JsonData> {
    match saved {
        Some(v) => current.insert(name, v),
        None => current.remove(name),
    }
}

impl RenderScope {
    pub open spec fn wf(&self) -> bool {
        self.local_vars.wf() && self.component_attrs.wf()
    }

    /// A scope with no variables.
    pub fn new() -> (s: Self)
        ensures
            s.wf(),
            s.local_vars@ == Map::<Seq<char>, JsonData>::empty(),
            s.component_attrs@ == Map::<Seq<char>, JsonData>::empty(),
    {
        RenderScope { local_vars: Vars::new(), component_attrs: Vars::new() }
    }

    /// Enter a component: its collected attributes become its local
    /// variables; the caller's local variables are handed back for
    /// [`exit_component`](Self::exit_component).
    pub fn enter_component(&mut self) -> (saved: Vars)
        requires
            old(self).wf(),
        ensures
            final(self).wf(),
            saved.wf(),
            saved@ == old(self).local_vars@,
            final(self).local_vars@ == old(self).component_attrs@,
            final(self).component_attrs@ == Map::<Seq<char>, JsonData>::empty(),
    {
        let saved_local_vars = self.local_vars.take();
        let saved_component_attrs = self.component_attrs.take();
        self.local_vars = saved_component_attrs;
        saved_local_vars
    }

    /// Leave a component: the caller's local variables come back and no
    /// attributes are pending.
    pub fn exit_component(&mut self, saved: Vars)
        requires
            old(self).wf(),
            saved.wf(),
        ensures
            final(self).wf(),
            final(self).local_vars@ == saved@,
            final(self).component_attrs@ == Map::<Seq<char>, JsonData>::empty(),
    {
        self.local_vars = saved;
        self.component_attrs = Vars::new();
    }

    /// Start a loop over `item_name`: the outer binding of the name (if
    /// any) is handed back, and when the loop has items the name is bound to
    /// a placeholder until the first item.
    pub fn begin_loop(&mut self, item_name: &str, has_items: bool) -> (saved: Option<JsonValue>)
        requires
            old(self).wf(),
        ensures
            final(self).wf(),
            final(self).component_attrs@ == old(self).component_attrs@,
            match saved {
                Some(v) => old(self).local_vars@.contains_key(item_name@) && old(self).local_vars@[item_name@] == v@,
                None => !old(self).local_vars@.contains_key(item_name@),
            },
            final(self).local_vars@ == (if has_items {
                old(self).local_vars@.insert(item_name@, JsonData::Null)
            } else {
                old(self).local_vars@.remove(item_name@)
            }),
    {
        let saved = self.local_vars.remove(item_name);
        if has_items {
            self.local_vars.insert(item_name.to_string(), JsonValue::Null);
            proof {
                assert(old(self).local_vars@.remove(item_name@).insert(item_name@, JsonData::Null)
                    =~= old(self).local_vars@.insert(item_name@, JsonData::Null));
            }
        }
        saved
    }

    /// Bind the loop name to the current item (only while it is bound).
    pub fn set_loop_item(&mut self, item_name: &str, item: JsonValue)
        requires
            old(self).wf(),
        ensures
            final(self).wf(),
            final(self).component_attrs@ == old(self).component_attrs@,
            final(self).local_vars@ == (if old(self).local_vars@.contains_key(item_name@) {
                old(self).local_vars@.insert(item_name@, item@)
            } else {
                old(self).local_vars@
            }),
    {
        if self.local_vars.get(item_name).is_some() {
            self.local_vars.insert(item_name.to_string(), item);
        }
    }

    /// End a loop over `item_name`, restoring the outer binding handed back
    /// by [`begin_loop`](Self::begin_loop).
    pub fn end_loop(&mut self, item_name: &str, saved: Option<JsonValue>)
        requires
            old(self).wf(),
        ensures
            final(self).wf(),
            final(self).component_attrs@ == old(self).component_attrs@,
            final(self).local_vars@ == loop_restored(old(self).local_vars@, item_name@, match saved {
                Some(v) => Some(v@),
                None => None,
            }),
    {
        match saved {
            Some(value) => {
                self.local_vars.insert(item_name.to_string(), value);
            },
            None => {
                let _ = self.local_vars.remove(item_name);
            },
        }
    }

    /// An element with component attributes starts: forget earlier ones.
    pub fn start_component_attrs(&mut self)
        requires
            old(self).wf(),
        ensures
            final(self).wf(),
            final(self).local_vars@ == old(self).local_vars@,
            final(self).component_attrs@ == Map::<Seq<char>, JsonData>::empty(),
    {
        self.component_attrs = Vars::new();
    }

    /// Record a component attribute for the next component.
    pub fn record_component_attr(&mut self, name: String, value: JsonValue)
        requires
            old(self).wf(),
        ensures
            final(self).wf(),
            final(self).local_vars@ == old(self).local_vars@,
            final(self).component_attrs@ == old(self).component_attrs@.insert(name@, value@),
    {
        self.component_attrs.insert(name, value);
    }

    /// Where a dotted path starts among the local variables: its first
    /// segment names a local variable (the whole path, or with the rest of
    /// the path below it), or it does not.
    pub fn resolve_local<'a>(&'a self, path: &'a str) -> (r: LocalResolution<'a>)
        requires
            self.wf(),
        ensures
            exists|first: Seq<char>, rest: Option<Seq<char>>| {
                &&& #[trigger] splits_at_first_dot(path@, first, rest)
                &&& match r {
                    LocalResolution::NotLocal => !self.local_vars@.contains_key(first),
                    LocalResolution::Whole(v) => rest is None && self.local_vars@.contains_key(first)
                        && self.local_vars@[first] == v@,
                    LocalResolution::Nested(v, tail) => rest == Some(tail@) && self.local_vars@.contains_key(first)
                        && self.local_vars@[first] == v@,
                }
            },
    {
        let (first, rest) = split_first_segment(path);
        let ghost rest_view: Option<Seq<char>> = match rest {
            Some(x) => Some(x@),
            None => None,
        };
        match self.local_vars.get(first) {
            Some(value) => match rest {
                Some(tail) => {
                    let r = LocalResolution::Nested(value, tail);
                    assert(splits_at_first_dot(path@, first@, rest_view));
                    r
                },
                None => {
                    let r = LocalResolution::Whole(value);
                    assert(splits_at_first_dot(path@, first@, rest_view));
                    r
                },
            },
            None => {
                assert(splits_at_first_dot(path@, first@, rest_view));
                LocalResolution::NotLocal
            },
        }
    }
}

/// A loop leaves the local variables as it found them: whatever the loop
/// body bound to the item name, restoring the saved outer binding gives back
/// the variables from before the loop, provided the body left every other
/// name as it was.
pub proof fn lemma_loop_scope_restores(
    before: Map<Seq<char>, JsonData>,
    during: Map<Seq<char>, JsonData>,
    name: Seq<char>,
)
    requires
        during.remove(name) == before.remove(name),
    ensures
        loop_restored(
            during,
            name,
            if before.contains_key(name) {
                Some(before[name])
            } else {
                None
            },
        ) == before,
{
    if before.contains_key(name) {
        let m = during.insert(name, before[name]);
        assert forall|k: Seq<char>| #[trigger] m.contains_key(k) == before.contains_key(k) && (m.contains_key(k) ==> m[k]
            == before[k]) by {
            if k != name {
                assert(during.remove(name).contains_key(k) == during.contains_key(k));
                assert(before.remove(name).contains_key(k) == before.contains_key(k));
                if during.contains_key(k) {
                    assert(during.remove(name)[k] == during[k]);
                    assert(before.remove(name)[k] == before[k]);
                }
            }
        }
        assert(m =~= before);
    } else {
        assert(during.remove(name) =~= before) by {
            assert(before.remove(name) =~= before);
        }
    }
}

} // verus!
