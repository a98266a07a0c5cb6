//! The streaming output interface and a string-backed implementation.

use vstd::prelude::*;

use crate::HandlerError;
use crate::text::push_char;

verus! {

/// What a streaming write leaves behind: on success exactly `text` was
/// appended to `before`; on failure some prefix of `text` was appended.
pub open spec fn appended(before: Seq<char>, after: Seq<char>, text: Seq<char>, ok: bool) -> bool {
    if ok {
        after == before + text
    } else {
        before.is_prefix_of(after) && after.is_prefix_of(before + text)
    }
}

/// Interface for writing rendered output.
pub trait ResponseWriter {
    /// Everything written so far. Implementations describe their output
    /// here; the default describes nothing.
    open spec fn written(&self) -> Seq<char> {
        Seq::empty()
    }

    /// Whether the writer's writes always succeed. Implementations whose
    /// writes cannot fail say so here; the default claims nothing.
    open spec fn never_fails(&self) -> bool {
        false
    }

    /// Write content to the output.
    fn write(&mut self, content: &str) -> (r: Result<(), HandlerError>)
        ensures
            appended(old(self).written(), final(self).written(), content@, r is Ok),
            final(self).never_fails() == old(self).never_fails(),
            old(self).never_fails() ==> r is Ok,
    ;

    /// Finalize the output.
    fn end(&mut self) -> (r: Result<(), HandlerError>)
        ensures
            final(self).written() == old(self).written(),
            final(self).never_fails() == old(self).never_fails(),
            old(self).never_fails() ==> r is Ok,
    ;
}

/// A writer that collects the rendered output in memory.
pub struct BufferWriter {
    buf: String,
    ended: bool,
}

impl BufferWriter {
    /// Create an empty buffer.
    pub fn new() -> (w: Self)
        ensures
            w.written() == Seq::<char>::empty(),
            !w.is_ended(),
    {
        BufferWriter { buf: String::new(), ended: false }
    }

    /// Whether `end` has been called.
    pub closed spec fn is_ended(&self) -> bool {
        self.ended
    }

    /// The collected output.
    pub fn content(&self) -> (s: &str)
        ensures
            s@ == self.written(),
    {
        self.buf.as_str()
    }

    /// Whether `end` has been called.
    pub fn ended(&self) -> (b: bool)
        ensures
            b == self.is_ended(),
    {
        self.ended
    }
}

impl ResponseWriter for BufferWriter {
    closed spec fn written(&self) -> Seq<char> {
        self.buf@
    }

    /// Appending to a string never fails.
    open spec fn never_fails(&self) -> bool {
        true
    }

    /// Appending to the buffer never fails.
    fn write(&mut self, content: &str) -> (r: Result<(), HandlerError>)
        ensures
            r is Ok,
            final(self).is_ended() == old(self).is_ended(),
    {
        self.buf.append(content);
        Ok(())
    }

    /// Marks the buffer as ended.
    fn end(&mut self) -> (r: Result<(), HandlerError>)
        ensures
            r is Ok,
            final(self).is_ended(),
    {
        self.ended = true;
        Ok(())
    }
}

} // verus!

verus! {

/// The characters of a list of string pieces, one after another.
pub open spec fn concat_strs(pieces: Seq<&str>) -> Seq<char>
    decreases pieces.len(),
{
    if pieces.len() == 0 {
        Seq::empty()
    } else {
        concat_strs(pieces.drop_last()) + pieces.last()@
    }
}

/// A failed write stays a failure whatever was meant to follow it.
pub proof fn lemma_appended_fail_extends(before: Seq<char>, after: Seq<char>, text: Seq<char>, more: Seq<char>)
    requires
        appended(before, after, text, false),
    ensures
        appended(before, after, text + more, false),
{
    assert((before + text).is_prefix_of(before + (text + more)));
    assert((before + text + more) == before + (text + more));
}

/// Two writes in a row: the first succeeded, the second ended with `ok`.
pub proof fn lemma_appended_then(s0: Seq<char>, s1: Seq<char>, s2: Seq<char>, t1: Seq<char>, t2: Seq<char>, ok: bool)
    requires
        s1 == s0 + t1,
        appended(s1, s2, t2, ok),
    ensures
        appended(s0, s2, t1 + t2, ok),
{
    assert(s0 + (t1 + t2) == s0 + t1 + t2);
    if !ok {
        assert(s0.is_prefix_of(s1));
    }
}

/// Write each piece in turn, stopping at the first failure.
pub fn write_pieces<W: ?Sized + ResponseWriter>(writer: &mut W, pieces: &[&str]) -> (r: Result<(), HandlerError>)
    ensures
        appended(old(writer).written(), final(writer).written(), concat_strs(pieces@), r is Ok),
        final(writer).never_fails() == old(writer).never_fails(),
        old(writer).never_fails() ==> r is Ok,
{
    let ghost start = writer.written();
    let mut i: usize = 0;
    while i < pieces.len()
        invariant
            0 <= i <= pieces.len(),
            start == old(writer).written(),
            writer.never_fails() == old(writer).never_fails(),
            writer.written() == start + concat_strs(pieces@.take(i as int)),
        decreases pieces.len() - i,
    {
        let ghost before = writer.written();
        let res = writer.write(pieces[i]);
        proof {
            assert(pieces@.take(i + 1).drop_last() == pieces@.take(i as int));
            assert(pieces@.take(i + 1).last() == pieces@[i as int]);
            assert(concat_strs(pieces@.take(i + 1)) == concat_strs(pieces@.take(i as int)) + pieces@[i as int]@);
            lemma_appended_then(start, before, writer.written(), concat_strs(pieces@.take(i as int)), pieces@[i as int]@, res is Ok);
        }
        if res.is_err() {
            proof {
                let rest = concat_strs(pieces@);
                lemma_concat_strs_prefix(pieces@, i as int + 1);
                let done = concat_strs(pieces@.take(i + 1));
                assert(appended(start, writer.written(), done, false));
                assert(rest =~= done + rest.skip(done.len() as int));
                lemma_appended_fail_extends(start, writer.written(), done, rest.skip(done.len() as int));
                assert(appended(start, writer.written(), rest, false));
            }
            return res;
        }
        i = i + 1;
    }
    proof {
        assert(pieces@.take(pieces@.len() as int) == pieces@);
    }
    Ok(())
}

/// The pieces before index `k` spell a prefix of all the pieces.
pub proof fn lemma_concat_strs_prefix(pieces: Seq<&str>, k: int)
    requires
        0 <= k <= pieces.len(),
    ensures
        concat_strs(pieces.take(k)).is_prefix_of(concat_strs(pieces)),
    decreases pieces.len() - k,
{
    if k < pieces.len() {
        lemma_concat_strs_prefix(pieces, k + 1);
        assert(pieces.take(k + 1).drop_last() == pieces.take(k));
    } else {
        assert(pieces.take(k) == pieces);
    }
}

} // verus!

verus! {

/// The text of an attribute written as ` name="value"`.
pub open spec fn attr_text(name: Seq<char>, value: Seq<char>) -> Seq<char> {
    seq![' '] + name + seq!['=', '"'] + value + seq!['"']
}

/// Write ` name="value"` to the writer.
pub fn write_attr<W: ?Sized + ResponseWriter>(writer: &mut W, name: &str, value: &str) -> (r: Result<(), HandlerError>)
    ensures
        old(writer).never_fails() ==> r is Ok,
        appended(old(writer).written(), final(writer).written(), attr_text(name@, value@), r is Ok),
{
    let pieces: [&str; 5] = [" ", name, "=\"", value, "\""];
    proof {
        reveal_strlit(" ");
        reveal_strlit("=\"");
        reveal_strlit("\"");
        reveal_with_fuel(concat_strs, 6);
        assert(pieces@ == seq![" ", name, "=\"", value, "\""]);
        assert(concat_strs(pieces@) =~= attr_text(name@, value@));
    }
    write_pieces(writer, &pieces)
}

/// The character for a decimal digit.
pub open spec fn digit_char(d: nat) -> char {
    if d == 0 { '0' }
    else if d == 1 { '1' }
    else if d == 2 { '2' }
    else if d == 3 { '3' }
    else if d == 4 { '4' }
    else if d == 5 { '5' }
    else if d == 6 { '6' }
    else if d == 7 { '7' }
    else if d == 8 { '8' }
    else { '9' }
}

/// The decimal digits of `n`, most significant first, with no leading zero.
pub open spec fn decimal(n: nat) -> Seq<char>
    decreases n,
{
    if n < 10 {
        seq![digit_char(n)]
    } else {
        decimal(n / 10).push(digit_char(n % 10))
    }
}

fn digit_to_char(d: usize) -> (c: char)
    requires
        d < 10,
    ensures
        c == digit_char(d as nat),
{
    if d == 0 { '0' }
    else if d == 1 { '1' }
    else if d == 2 { '2' }
    else if d == 3 { '3' }
    else if d == 4 { '4' }
    else if d == 5 { '5' }
    else if d == 6 { '6' }
    else if d == 7 { '7' }
    else if d == 8 { '8' }
    else { '9' }
}

/// The decimal digits of `n` as a string.
pub fn decimal_string(n: usize) -> (s: String)
    ensures
        s@ == decimal(n as nat),
    decreases n,
{
    if n < 10 {
        let mut s = String::new();
        push_char(&mut s, digit_to_char(n));
        proof {
            assert(s@ == seq![digit_char(n as nat)]);
        }
        s
    } else {
        let mut s = decimal_string(n / 10);
        push_char(&mut s, digit_to_char(n % 10));
        s
    }
}

/// Write a usize as decimal digits.
pub fn write_usize<W: ?Sized + ResponseWriter>(writer: &mut W, n: usize) -> (r: Result<(), HandlerError>)
    ensures
        old(writer).never_fails() ==> r is Ok,
        appended(old(writer).written(), final(writer).written(), decimal(n as nat), r is Ok),
{
    let digits = decimal_string(n);
    writer.write(digits.as_str())
}

/// The text of a JSON object member name: an optional separating comma,
/// then `"name":`.
pub open spec fn field_name_text(comma: bool, name: Seq<char>) -> Seq<char> {
    (if comma { seq![','] } else { Seq::empty() }) + seq!['"'] + name + seq!['"', ':']
}

/// Write the name of a JSON object member, preceded by a comma when a member
/// was written before. Afterwards `wrote_field` is set.
pub fn write_json_field_name<W: ?Sized + ResponseWriter>(
    writer: &mut W,
    wrote_field: &mut bool,
    name: &str,
) -> (r: Result<(), HandlerError>)
    ensures
        old(writer).never_fails() ==> r is Ok,
        *final(wrote_field),
        appended(old(writer).written(), final(writer).written(), field_name_text(*old(wrote_field), name@), r is Ok),
{
    proof {
        reveal_strlit(",");
        reveal_strlit("\"");
        reveal_strlit("\":");
    }
    let ghost w0 = writer.written();
    if *wrote_field {
        let res = writer.write(",");
        if res.is_err() {
            proof {
                lemma_appended_fail_extends(w0, writer.written(), seq![','], seq!['"'] + name@ + seq!['"', ':']);
                assert(seq![','] + (seq!['"'] + name@ + seq!['"', ':']) == field_name_text(true, name@));
            }
            return res;
        }
    }
    *wrote_field = true;
    let ghost w1 = writer.written();
    let pieces: [&str; 3] = ["\"", name, "\":"];
    let res = write_pieces(writer, &pieces);
    proof {
        reveal_with_fuel(concat_strs, 4);
        assert(pieces@ == seq!["\"", name, "\":"]);
        assert(concat_strs(pieces@) =~= seq!['"'] + name@ + seq!['"', ':']);
        let comma: Seq<char> = if *old(wrote_field) { seq![','] } else { Seq::empty() };
        assert(w1 == w0 + comma);
        lemma_appended_then(w0, w1, writer.written(), comma, concat_strs(pieces@), res is Ok);
        assert(comma + concat_strs(pieces@) =~= field_name_text(*old(wrote_field), name@));
    }
    res
}

} // verus!
