//! Options controlling how a protocol is rendered.

use vstd::prelude::*;

verus! {

/// Options controlling how the handler renders a protocol.
///
/// The handler performs server-side route matching: matched routes are
/// rendered visible with content; non-matched routes are rendered hidden and
/// empty.
pub struct RenderOptions<'a> {
    /// The fragment ID to start rendering from (e.g., `"index.html"`).
    pub entry_id: &'a str,
    /// The URL path to match routes against (e.g., `"/contacts/42"`).
    pub request_path: &'a str,
    /// Optional CSP nonce for inline `<script>` tags.
    pub nonce: Option<&'a str>,
    /// Optional HTML to emit immediately before the document's `</head>`.
    pub head_inject: Option<&'a str>,
    /// Optional HTML to emit immediately before the document's `</body>`.
    pub body_inject: Option<&'a str>,
}

/// An optional setting given as a string, where the empty string means unset.
pub open spec fn non_empty(s: &str) -> Option<&str> {
    if s@.len() == 0 {
        None
    } else {
        Some(s)
    }
}

impl<'a> RenderOptions<'a> {
    /// Create render options for the given entry fragment and request path.
    #[must_use]
    pub fn new(entry_id: &'a str, request_path: &'a str) -> (r: Self)
        ensures
            r.entry_id == entry_id,
            r.request_path == request_path,
            r.nonce is None,
            r.head_inject is None,
            r.body_inject is None,
    {
        RenderOptions { entry_id, request_path, nonce: None, head_inject: None, body_inject: None }
    }

    /// Set the CSP nonce for inline scripts. An empty string disables it.
    #[must_use]
    pub fn with_nonce(self, nonce: &'a str) -> (r: Self)
        ensures
            r.nonce == non_empty(nonce),
            r.entry_id == self.entry_id,
            r.request_path == self.request_path,
            r.head_inject == self.head_inject,
            r.body_inject == self.body_inject,
    {
        let mut s = self;
        s.nonce = if nonce.is_empty() { None } else { Some(nonce) };
        s
    }

    /// Set HTML to emit immediately before `</head>`. An empty string
    /// disables it. The HTML is written verbatim, without escaping: it must
    /// be trusted content (escape untrusted text with
    /// [`encode_safe`](crate::encode_safe) first).
    #[must_use]
    pub fn with_head_inject(self, html: &'a str) -> (r: Self)
        ensures
            r.head_inject == non_empty(html),
            r.entry_id == self.entry_id,
            r.request_path == self.request_path,
            r.nonce == self.nonce,
            r.body_inject == self.body_inject,
    {
        let mut s = self;
        s.head_inject = if html.is_empty() { None } else { Some(html) };
        s
    }

    /// Set HTML to emit immediately before `</body>`. An empty string
    /// disables it. Same trust requirement as
    /// [`with_head_inject`](Self::with_head_inject).
    #[must_use]
    pub fn with_body_inject(self, html: &'a str) -> (r: Self)
        ensures
            r.body_inject == non_empty(html),
            r.entry_id == self.entry_id,
            r.request_path == self.request_path,
            r.nonce == self.nonce,
            r.head_inject == self.head_inject,
    {
        let mut s = self;
        s.body_inject = if html.is_empty() { None } else { Some(html) };
        s
    }
}

} // verus!
