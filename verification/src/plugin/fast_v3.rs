//! FAST 3 hydration plugin.
//!
//! Emits FAST 3 HTML comment markers and data attributes that let
//! client-side FAST declarative templates locate and re-hydrate
//! server-rendered dynamic content:
//!
//! - binding start `<!--fe:b-->`, binding end `<!--fe:/b-->`
//! - repeat item start `<!--fe:r-->`, repeat item end `<!--fe:/r-->`
//! - attribute bindings ` data-fe="COUNT"`

use vstd::prelude::*;

use crate::json::{JsonData, JsonValue};
use crate::writer::{appended, decimal, decimal_string, ResponseWriter};
use crate::HandlerError;

verus! {

pub open spec fn binding_start_marker() -> Seq<char> {
    "<!--fe:b-->"@
}

pub open spec fn binding_end_marker() -> Seq<char> {
    "<!--fe:/b-->"@
}

pub open spec fn repeat_start_marker() -> Seq<char> {
    "<!--fe:r-->"@
}

pub open spec fn repeat_end_marker() -> Seq<char> {
    "<!--fe:/r-->"@
}

/// ` data-fe="COUNT"`: the number of attribute bindings on an element.
pub open spec fn attribute_marker(count: nat) -> Seq<char> {
    " data-fe=\""@ + decimal(count) + "\""@
}

/// FAST 3 hydration handler plugin.
///
/// Keeps a stack of binding counters, one per scope. The bottom of the
/// stack is the root scope, which is disabled: markers are only emitted in
/// child scopes (components, for-loop items, if-condition bodies).
pub struct FastV3HydrationPlugin {
    scopes: Vec<usize>,
    buffer: String,
}

impl View for FastV3HydrationPlugin {
    type V = Seq<usize>;

    /// The binding counters of the open scopes, innermost last.
    closed spec fn view(&self) -> Seq<usize> {
        self.scopes@
    }
}

/// Whether markers are emitted: some scope above the root is open.
pub open spec fn scope_active(scopes: Seq<usize>) -> bool {
    scopes.len() > 1
}

/// The counters after the innermost counter advances by `n`.
pub open spec fn advance(scopes: Seq<usize>, n: nat) -> Seq<usize> {
    if scopes.len() > 0 {
        scopes.update(scopes.len() - 1, (scopes.last() + n) as usize)
    } else {
        scopes
    }
}

/// The innermost counter can advance by `n` without overflowing.
pub open spec fn can_advance(scopes: Seq<usize>, n: nat) -> bool {
    scopes.len() > 0 ==> scopes.last() + n <= usize::MAX
}

/// Below the root scope, a child scope is always active, and leaving it
/// gives back the counters of the enclosing scopes unchanged, whatever
/// happened inside it.
pub proof fn lemma_child_scope_restores(scopes: Seq<usize>, inner: usize)
    requires
        scopes.len() > 0,
    ensures
        scope_active(scopes.push(0)),
        scopes.push(inner).drop_last() == scopes,
{
    assert(scopes.push(inner).drop_last() =~= scopes);
}

/// The binding count carried by element data: four bytes, little endian.
pub open spec fn element_binding_count(data: Seq<u8>) -> nat {
    (data[0] + data[1] * 256 + data[2] * 65536 + data[3] * 16777216) as nat
}

/// The error text for element data of the wrong length.
pub open spec fn element_data_error(len: nat) -> Seq<char> {
    "FAST hydration plugin expected 4 bytes of element data: got "@ + decimal(len)
}

/// Read the binding count from element data, which must be exactly four
/// bytes (a little-endian `u32`); otherwise give the length found.
pub fn decode_element_data(data: &[u8]) -> (r: Result<u32, usize>)
    ensures
        data@.len() == 4 ==> r == Ok::<u32, usize>(element_binding_count(data@) as u32),
        data@.len() != 4 ==> r is Err && r->Err_0 == data@.len(),
{
    if data.len() != 4 {
        return Err(data.len());
    }
    let v: u32 = data[0] as u32 + (data[1] as u32) * 256 + (data[2] as u32) * 65536 + (data[3] as u32) * 16777216;
    Ok(v)
}

impl FastV3HydrationPlugin {
    /// Create a new FAST 3 hydration plugin with only the (disabled) root
    /// scope open.
    #[must_use]
    pub fn new() -> (p: Self)
        ensures
            p@ == seq![0usize],
    {
        let mut scopes = Vec::new();
        scopes.push(0);
        FastV3HydrationPlugin { scopes, buffer: String::new() }
    }

    /// Whether the current scope is active (not the root scope).
    fn is_active(&self) -> (b: bool)
        ensures
            b == scope_active(self@),
    {
        self.scopes.len() > 1
    }

    /// The next binding index in the current scope; advances the counter.
    fn next_index(&mut self) -> (index: usize)
        requires
            can_advance(old(self)@, 1),
        ensures
            final(self)@ == advance(old(self)@, 1),
            final(self).buffer@ == old(self).buffer@,
            index == (if old(self)@.len() > 0 { old(self)@.last() } else { 0 }),
    {
        let n = self.scopes.len();
        if n > 0 {
            let index = self.scopes[n - 1];
            self.scopes.set(n - 1, index + 1);
            index
        } else {
            0
        }
    }

    /// The next binding index; advances the counter by `count`.
    fn next_index_n(&mut self, count: u32) -> (index: usize)
        requires
            can_advance(old(self)@, count as nat),
        ensures
            final(self)@ == advance(old(self)@, count as nat),
            final(self).buffer@ == old(self).buffer@,
            index == (if old(self)@.len() > 0 { old(self)@.last() } else { 0 }),
    {
        let n = self.scopes.len();
        if n > 0 {
            let index = self.scopes[n - 1];
            self.scopes.set(n - 1, index + count as usize);
            index
        } else {
            0
        }
    }

    /// Build an attribute binding marker into the reusable buffer.
    fn build_attribute_marker(&mut self, count: u32)
        ensures
            final(self)@ == old(self)@,
            final(self).buffer@ == attribute_marker(count as nat),
    {
        self.buffer = String::new();
        self.buffer.append(" data-fe=\"");
        let digits = decimal_string(count as usize);
        self.buffer.append(digits.as_str());
        self.buffer.append("\"");
    }
}

impl Default for FastV3HydrationPlugin {
    /// The same as [`FastV3HydrationPlugin::new`].
    fn default() -> (p: Self)
        ensures
            p@ == seq![0usize],
    {
        Self::new()
    }
}

impl FastV3HydrationPlugin {
    /// Whether the current scope's binding counter can advance by `n`
    /// without overflowing.
    pub fn can_advance_by(&self, n: u32) -> (r: bool)
        ensures
            r == can_advance(self@, n as nat),
    {
        let len = self.scopes.len();
        if len == 0 {
            true
        } else {
            self.scopes[len - 1] <= usize::MAX - n as usize
        }
    }

    /// Enter a child scope; markers are emitted from here on.
    pub fn push_scope(&mut self)
        ensures
            final(self)@ == old(self)@.push(0),
    {
        self.scopes.push(0);
    }

    /// Leave the current scope.
    pub fn pop_scope(&mut self)
        ensures
            final(self)@ == (if old(self)@.len() > 0 { old(self)@.drop_last() } else { old(self)@ }),
    {
        self.scopes.pop();
    }

    /// Before a dynamic binding: the binding start marker in an active scope.
    pub fn on_binding_start<W: ?Sized + ResponseWriter>(&mut self, name: &str, writer: &mut W) -> (r: Result<(), HandlerError>)
        requires
            can_advance(old(self)@, 1),
        ensures
            old(writer).never_fails() ==> r is Ok,
            !scope_active(old(self)@) ==> r is Ok,
            final(self)@ == (if scope_active(old(self)@) { advance(old(self)@, 1) } else { old(self)@ }),
            appended(
                old(writer).written(),
                final(writer).written(),
                if scope_active(old(self)@) { binding_start_marker() } else { Seq::empty() },
                r is Ok,
            ),
    {
        if !self.is_active() {
            proof { assert(old(writer).written() + Seq::<char>::empty() == old(writer).written()); }
            return Ok(());
        }
        let _ = self.next_index();
        writer.write("<!--fe:b-->")
    }

    /// After a dynamic binding: the binding end marker in an active scope.
    pub fn on_binding_end<W: ?Sized + ResponseWriter>(&mut self, name: &str, writer: &mut W) -> (r: Result<(), HandlerError>)
        ensures
            old(writer).never_fails() ==> r is Ok,
            !scope_active(old(self)@) ==> r is Ok,
            final(self)@ == old(self)@,
            appended(
                old(writer).written(),
                final(writer).written(),
                if scope_active(old(self)@) { binding_end_marker() } else { Seq::empty() },
                r is Ok,
            ),
    {
        if !self.is_active() {
            proof { assert(old(writer).written() + Seq::<char>::empty() == old(writer).written()); }
            return Ok(());
        }
        writer.write("<!--fe:/b-->")
    }

    /// Before each repeat item: the repeat start marker in an active scope.
    pub fn on_repeat_item_start<W: ?Sized + ResponseWriter>(&mut self, index: usize, writer: &mut W) -> (r: Result<(), HandlerError>)
        ensures
            old(writer).never_fails() ==> r is Ok,
            !scope_active(old(self)@) ==> r is Ok,
            final(self)@ == old(self)@,
            appended(
                old(writer).written(),
                final(writer).written(),
                if scope_active(old(self)@) { repeat_start_marker() } else { Seq::empty() },
                r is Ok,
            ),
    {
        if !self.is_active() {
            proof { assert(old(writer).written() + Seq::<char>::empty() == old(writer).written()); }
            return Ok(());
        }
        writer.write("<!--fe:r-->")
    }

    /// After each repeat item: the repeat end marker in an active scope.
    pub fn on_repeat_item_end<W: ?Sized + ResponseWriter>(&mut self, index: usize, writer: &mut W) -> (r: Result<(), HandlerError>)
        ensures
            old(writer).never_fails() ==> r is Ok,
            !scope_active(old(self)@) ==> r is Ok,
            final(self)@ == old(self)@,
            appended(
                old(writer).written(),
                final(writer).written(),
                if scope_active(old(self)@) { repeat_end_marker() } else { Seq::empty() },
                r is Ok,
            ),
    {
        if !self.is_active() {
            proof { assert(old(writer).written() + Seq::<char>::empty() == old(writer).written()); }
            return Ok(());
        }
        writer.write("<!--fe:/r-->")
    }

    /// Element data: in an active scope, the attribute marker for the
    /// element's binding count (nothing for zero); data that is not four
    /// bytes is an error.
    pub fn on_element_data<W: ?Sized + ResponseWriter>(&mut self, data: &[u8], writer: &mut W) -> (r: Result<(), HandlerError>)
        requires
            scope_active(old(self)@) && data@.len() == 4 ==> can_advance(old(self)@, element_binding_count(data@)),
        ensures
            old(writer).never_fails() && data@.len() == 4 ==> r is Ok,
            !scope_active(old(self)@) ==> r is Ok && final(self)@ == old(self)@ && final(writer).written()
                == old(writer).written(),
            scope_active(old(self)@) && data@.len() != 4 ==> final(self)@ == old(self)@ && final(writer).written()
                == old(writer).written() && (r matches Err(HandlerError::PluginData(m)) && m@ == element_data_error(
                data@.len(),
            )),
            scope_active(old(self)@) && data@.len() == 4 && element_binding_count(data@) == 0 ==> r is Ok
                && final(self)@ == old(self)@ && final(writer).written() == old(writer).written(),
            scope_active(old(self)@) && data@.len() == 4 && element_binding_count(data@) > 0 ==> final(self)@
                == advance(old(self)@, element_binding_count(data@)) && appended(
                old(writer).written(),
                final(writer).written(),
                attribute_marker(element_binding_count(data@)),
                r is Ok,
            ),
    {
        if !self.is_active() {
            return Ok(());
        }
        let count = match decode_element_data(data) {
            Ok(count) => count,
            Err(len) => {
                let mut message = String::new();
                message.append("FAST hydration plugin expected 4 bytes of element data: got ");
                let digits = decimal_string(len);
                message.append(digits.as_str());
                proof {
                    assert(len as nat == data@.len());
                    assert(message@ =~= element_data_error(data@.len()));
                }
                return Err(HandlerError::PluginData(message));
            },
        };
        if count > 0 {
            let _ = self.next_index_n(count);
            self.build_attribute_marker(count);
            writer.write(self.buffer.as_str())
        } else {
            Ok(())
        }
    }

    /// Before a for loop: the same as a binding start.
    pub fn on_for_start<W: ?Sized + ResponseWriter>(&mut self, name: &str, writer: &mut W) -> (r: Result<(), HandlerError>)
        requires
            can_advance(old(self)@, 1),
        ensures
            old(writer).never_fails() ==> r is Ok,
            !scope_active(old(self)@) ==> r is Ok,
            final(self)@ == (if scope_active(old(self)@) { advance(old(self)@, 1) } else { old(self)@ }),
            appended(
                old(writer).written(),
                final(writer).written(),
                if scope_active(old(self)@) { binding_start_marker() } else { Seq::empty() },
                r is Ok,
            ),
    {
        self.on_binding_start(name, writer)
    }

    /// After a for loop: the same as a binding end.
    pub fn on_for_end<W: ?Sized + ResponseWriter>(&mut self, name: &str, writer: &mut W) -> (r: Result<(), HandlerError>)
        ensures
            old(writer).never_fails() ==> r is Ok,
            !scope_active(old(self)@) ==> r is Ok,
            final(self)@ == old(self)@,
            appended(
                old(writer).written(),
                final(writer).written(),
                if scope_active(old(self)@) { binding_end_marker() } else { Seq::empty() },
                r is Ok,
            ),
    {
        self.on_binding_end(name, writer)
    }

    /// Before a conditional block: the same as a binding start.
    pub fn on_if_start<W: ?Sized + ResponseWriter>(&mut self, name: &str, writer: &mut W) -> (r: Result<(), HandlerError>)
        requires
            can_advance(old(self)@, 1),
        ensures
            old(writer).never_fails() ==> r is Ok,
            !scope_active(old(self)@) ==> r is Ok,
            final(self)@ == (if scope_active(old(self)@) { advance(old(self)@, 1) } else { old(self)@ }),
            appended(
                old(writer).written(),
                final(writer).written(),
                if scope_active(old(self)@) { binding_start_marker() } else { Seq::empty() },
                r is Ok,
            ),
    {
        self.on_binding_start(name, writer)
    }

    /// After a conditional block: the same as a binding end.
    pub fn on_if_end<W: ?Sized + ResponseWriter>(&mut self, name: &str, writer: &mut W) -> (r: Result<(), HandlerError>)
        ensures
            old(writer).never_fails() ==> r is Ok,
            !scope_active(old(self)@) ==> r is Ok,
            final(self)@ == old(self)@,
            appended(
                old(writer).written(),
                final(writer).written(),
                if scope_active(old(self)@) { binding_end_marker() } else { Seq::empty() },
                r is Ok,
            ),
    {
        self.on_binding_end(name, writer)
    }
}

} // verus!

verus! {

/// The attribute text of a scalar state value: a string as itself, a number
/// as its JSON text, a boolean as `true` or `false`. Null, arrays and
/// objects are not scalars.
pub open spec fn scalar_text(v: JsonData) -> Option<Seq<char>> {
    match v {
        JsonData::String(s) => Some(s),
        JsonData::Number(t) => Some(t),
        JsonData::Bool(b) => Some(if b { seq!['t', 'r', 'u', 'e'] } else { seq!['f', 'a', 'l', 's', 'e'] }),
        _ => None,
    }
}

/// The scalar members of a state object as (key, text) pairs, in order.
pub open spec fn state_scalars(members: Seq<(Seq<char>, JsonData)>) -> Seq<(Seq<char>, Seq<char>)>
    decreases members.len(),
{
    if members.len() == 0 {
        Seq::empty()
    } else {
        let prev = state_scalars(members.drop_last());
        match scalar_text(members.last().1) {
            Some(t) => prev.push((members.last().0, t)),
            None => prev,
        }
    }
}

/// Whether a value is an array or an object.
pub open spec fn is_compound(v: JsonData) -> bool {
    v is Array || v is Object
}

/// Whether a state object has an array or object member.
pub open spec fn has_complex_member(members: Seq<(Seq<char>, JsonData)>) -> bool {
    exists|i: int| 0 <= i < members.len() && #[trigger] is_compound(members[i].1)
}

/// The scalar members of a route component's state, which FAST components
/// read as attributes; empty for a state that is not an object.
pub fn route_state_scalars(state: &JsonValue) -> (r: Vec<(&str, String)>)
    ensures
        r@.map_values(|p: (&str, String)| (p.0@, p.1@)) == match state@ {
            JsonData::Object(members) => state_scalars(members),
            _ => Seq::empty(),
        },
{
    let mut out: Vec<(&str, String)> = Vec::new();
    match state {
        JsonValue::Object(members) => {
            let ghost mv = crate::json::member_views(members@);
            proof {
                crate::json::lemma_json_view(*state);
            }
            let mut i: usize = 0;
            while i < members.len()
                invariant
                    i <= members.len(),
                    mv == crate::json::member_views(members@),
                    out@.map_values(|p: (&str, String)| (p.0@, p.1@)) == state_scalars(mv.take(i as int)),
                decreases members.len() - i,
            {
                proof {
                    assert(mv.take(i + 1).drop_last() == mv.take(i as int));
                    assert(mv.take(i + 1).last() == (members@[i as int].0@, members@[i as int].1@));
                }
                let ghost before = out@;
                let key = members[i].0.as_str();
                let text: Option<String> = match &members[i].1 {
                    JsonValue::String(s) => Some(s.clone()),
                    JsonValue::Number(t) => Some(t.clone()),
                    JsonValue::Bool(b) => {
                        proof {
                            reveal_strlit("true");
                            reveal_strlit("false");
                        }
                        if *b {
                            Some(String::from_str("true"))
                        } else {
                            Some(String::from_str("false"))
                        }
                    },
                    _ => None,
                };
                proof {
                    assert(mv[i as int] == (members@[i as int].0@, members@[i as int].1@));
                    if text is Some {
                        assert(scalar_text(mv[i as int].1) == Some(text->Some_0@));
                    } else {
                        assert(scalar_text(mv[i as int].1) is None);
                    }
                }
                if let Some(t) = text {
                    out.push((key, t));
                    proof {
                        assert(out@.map_values(|p: (&str, String)| (p.0@, p.1@)) =~= before.map_values(
                            |p: (&str, String)| (p.0@, p.1@),
                        ).push((key@, t@)));
                    }
                }
                i = i + 1;
            }
            proof {
                assert(mv.take(members.len() as int) == mv);
            }
        },
        _ => {
            proof {
                assert(out@.map_values(|p: (&str, String)| (p.0@, p.1@)) =~= Seq::<(Seq<char>, Seq<char>)>::empty());
            }
        },
    }
    out
}

/// The JSON of a route component's state when it has an array or object
/// member (written as `data-state`); `None` otherwise or for a state that is
/// not an object.
pub fn route_state_json(state: &JsonValue) -> (r: Option<String>)
    ensures
        match state@ {
            JsonData::Object(members) => if has_complex_member(members) {
                r is Some && r->Some_0@ == crate::json::json_text(state@)
            } else {
                r is None
            },
            _ => r is None,
        },
        state@ matches JsonData::Object(members) ==> (r is Some <==> exists|i: int|
            0 <= i < members.len() && (#[trigger] members[i].1 is Array || members[i].1 is Object)),
{
    proof {
        if let JsonData::Object(members) = state@ {
            lemma_data_state_for_array_or_object_members(members);
        }
    }
    match state {
        JsonValue::Object(members) => {
            let ghost mv = crate::json::member_views(members@);
            proof {
                crate::json::lemma_json_view(*state);
            }
            let mut i: usize = 0;
            while i < members.len()
                invariant
                    i <= members.len(),
                    mv == crate::json::member_views(members@),
                    state@ == JsonData::Object(mv),
                    forall|j: int| 0 <= j < i ==> !#[trigger] is_compound(mv[j].1),
                decreases members.len() - i,
            {
                let complex = match &members[i].1 {
                    JsonValue::Array(_) => true,
                    JsonValue::Object(_) => true,
                    _ => false,
                };
                if complex {
                    proof {
                        assert(is_compound(mv[i as int].1));
                    }
                    return Some(crate::json::json_to_string(state));
                }
                i = i + 1;
            }
            None
        },
        _ => None,
    }
}

} // verus!

verus! {

/// A route component's state is written as `data-state` JSON exactly when
/// the state is an object with a member whose value is an array or an
/// object; it is then the whole state's compact JSON.
pub proof fn lemma_data_state_for_array_or_object_members(members: Seq<(Seq<char>, JsonData)>)
    ensures
        has_complex_member(members) <==> exists|i: int|
            0 <= i < members.len() && (#[trigger] members[i].1 is Array || members[i].1 is Object),
{
    if has_complex_member(members) {
        let i = choose|i: int| 0 <= i < members.len() && #[trigger] is_compound(members[i].1);
        assert(members[i].1 is Array || members[i].1 is Object);
    }
    if exists|i: int| 0 <= i < members.len() && (#[trigger] members[i].1 is Array || members[i].1 is Object) {
        let i = choose|i: int| 0 <= i < members.len() && (#[trigger] members[i].1 is Array || members[i].1 is Object);
        assert(is_compound(members[i].1));
    }
}

} // verus!

verus! {

/// Whether `p` is the attribute a member gives: the member's name with the
/// text of a string, number or boolean value.
pub open spec fn scalar_attribute_of(m: (Seq<char>, JsonData), p: (Seq<char>, Seq<char>)) -> bool {
    &&& p.0 == m.0
    &&& match m.1 {
        JsonData::String(s) => p.1 == s,
        JsonData::Number(t) => p.1 == t,
        JsonData::Bool(true) => p.1 == seq!['t', 'r', 'u', 'e'],
        JsonData::Bool(false) => p.1 == seq!['f', 'a', 'l', 's', 'e'],
        _ => false,
    }
}

/// The scalar attributes of a route component's state are exactly the
/// members whose value is a string, a number or a boolean, each with its
/// text (a boolean as `true` or `false`), and no more than there are
/// members; null, array and object members give none.
pub proof fn lemma_state_scalars_are_the_scalar_members(members: Seq<(Seq<char>, JsonData)>)
    ensures
        state_scalars(members).len() <= members.len(),
        forall|p: (Seq<char>, Seq<char>)|
            #[trigger] state_scalars(members).contains(p) <==> exists|i: int|
                0 <= i < members.len() && scalar_attribute_of(#[trigger] members[i], p),
    decreases members.len(),
{
    broadcast use vstd::seq_lib::lemma_seq_contains_after_push;

    if members.len() > 0 {
        let init = members.drop_last();
        let last = members.last();
        let n = members.len() - 1;
        lemma_state_scalars_are_the_scalar_members(init);
        assert forall|i: int| 0 <= i < init.len() implies init[i] == members[i] by {}
        assert(last == members[n]);
        let prev = state_scalars(init);
        assert forall|p: (Seq<char>, Seq<char>)|
            #[trigger] state_scalars(members).contains(p) <==> exists|i: int|
                0 <= i < members.len() && scalar_attribute_of(#[trigger] members[i], p) by {
            if exists|i: int| 0 <= i < members.len() && scalar_attribute_of(#[trigger] members[i], p) {
                let i = choose|i: int| 0 <= i < members.len() && scalar_attribute_of(#[trigger] members[i], p);
                if i < n {
                    assert(scalar_attribute_of(init[i], p));
                }
            }
            if exists|i: int| 0 <= i < init.len() && scalar_attribute_of(#[trigger] init[i], p) {
                let i = choose|i: int| 0 <= i < init.len() && scalar_attribute_of(#[trigger] init[i], p);
                assert(scalar_attribute_of(members[i], p));
            }
            match scalar_text(last.1) {
                Some(t) => {
                    assert(state_scalars(members) == prev.push((last.0, t)));
                    assert(scalar_attribute_of(last, p) <==> p == (last.0, t));
                    if p == (last.0, t) {
                        assert(scalar_attribute_of(members[n], p));
                    }
                },
                None => {
                    assert(state_scalars(members) == prev);
                    assert(!scalar_attribute_of(last, p));
                },
            }
        }
    }
}

} // verus!
