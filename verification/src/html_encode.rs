//! Minimal HTML escaping for text content and attribute values.

use vstd::prelude::*;

use crate::text::push_char;

verus! {

/// The characters that can break out of HTML text or a quoted attribute.
pub open spec fn is_html_special(c: char) -> bool {
    c == '&' || c == '<' || c == '>' || c == '"' || c == '\'' || c == '/'
}

/// The replacement written for one character.
pub open spec fn html_escape_char(c: char) -> Seq<char> {
    if c == '&' {
        seq!['&', 'a', 'm', 'p', ';']
    } else if c == '<' {
        seq!['&', 'l', 't', ';']
    } else if c == '>' {
        seq!['&', 'g', 't', ';']
    } else if c == '"' {
        seq!['&', 'q', 'u', 'o', 't', ';']
    } else if c == '\'' {
        seq!['&', '#', 'x', '2', '7', ';']
    } else if c == '/' {
        seq!['&', '#', 'x', '2', 'F', ';']
    } else {
        seq![c]
    }
}

/// The escaped form of a whole string: each character replaced in order.
pub open spec fn html_escape(s: Seq<char>) -> Seq<char>
    decreases s.len(),
{
    if s.len() == 0 {
        Seq::empty()
    } else {
        html_escape(s.drop_last()) + html_escape_char(s.last())
    }
}

/// Escape the six XSS-critical characters (`& < > " ' /`) of `s`.
pub fn encode_safe(s: &str) -> (r: String)
    ensures
        r@ == html_escape(s@),
{
    let mut out = String::new();
    for c in it: s.chars()
        invariant
            it.seq() == s@,
            out@ == html_escape(s@.take(it.index() as int)),
    {
        let ghost i = it.index();
        assert(c == s@[i as int]);
        proof {
            reveal_strlit("&amp;");
            reveal_strlit("&lt;");
            reveal_strlit("&gt;");
            reveal_strlit("&quot;");
            reveal_strlit("&#x27;");
            reveal_strlit("&#x2F;");
            assert(s@.take(i + 1).drop_last() == s@.take(i as int));
        }
        if c == '&' {
            out.append("&amp;");
        } else if c == '<' {
            out.append("&lt;");
        } else if c == '>' {
            out.append("&gt;");
        } else if c == '"' {
            out.append("&quot;");
        } else if c == '\'' {
            out.append("&#x27;");
        } else if c == '/' {
            out.append("&#x2F;");
        } else {
            push_char(&mut out, c);
        }
    }
    proof {
        assert(s@.take(s@.len() as int) == s@);
    }
    out
}

} // verus!

verus! {

/// Escaping distributes over concatenation.
pub proof fn lemma_html_escape_concat(a: Seq<char>, b: Seq<char>)
    ensures
        html_escape(a + b) == html_escape(a) + html_escape(b),
    decreases b.len(),
{
    if b.len() == 0 {
        assert(a + b == a);
    } else {
        lemma_html_escape_concat(a, b.drop_last());
        assert((a + b).drop_last() == a + b.drop_last());
        assert((a + b).last() == b.last());
    }
}

/// Escaped output never holds a character that could end a text node, open a
/// tag or close a quoted attribute: of the six special characters only `&`
/// remains, as the start of an entity.
pub proof fn lemma_html_escape_is_inert(s: Seq<char>)
    ensures
        forall|i: int|
            0 <= i < html_escape(s).len() ==> {
                let c = #[trigger] html_escape(s)[i];
                c != '<' && c != '>' && c != '"' && c != '\'' && c != '/'
            },
    decreases s.len(),
{
    if s.len() > 0 {
        lemma_html_escape_is_inert(s.drop_last());
        let prev = html_escape(s.drop_last());
        let tail = html_escape_char(s.last());
        assert forall|i: int| 0 <= i < html_escape(s).len() implies {
            let c = #[trigger] html_escape(s)[i];
            c != '<' && c != '>' && c != '"' && c != '\'' && c != '/'
        } by {
            if i >= prev.len() {
                assert(html_escape(s)[i] == tail[i - prev.len()]);
            } else {
                assert(html_escape(s)[i] == prev[i]);
            }
        }
    }
}

/// A string with none of the six special characters is returned unchanged.
pub proof fn lemma_html_escape_identity(s: Seq<char>)
    requires
        forall|i: int| 0 <= i < s.len() ==> !is_html_special(#[trigger] s[i]),
    ensures
        html_escape(s) == s,
    decreases s.len(),
{
    if s.len() > 0 {
        lemma_html_escape_identity(s.drop_last());
        assert(!is_html_special(s[s.len() - 1]));
        assert(s.drop_last().push(s.last()) == s);
    }
}

} // verus!
