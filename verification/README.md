# webhub_handler

Server-side rendering building blocks for webhub protocol documents,
verified with Verus.

- `src/` is the verified library: HTML escaping, the JSON model and its
  compact serialization, `</`-safe embedding of JSON in `<script>`, the
  hydration bootstrap block, component state selection and projection,
  render scopes, attribute and signal rendering, route markup, document
  hooks and the FAST 3 hydration plugin. Each function states what it
  writes or returns in its `ensures`; the laws that span functions are
  public proof functions (`lemma_*`).
- `tests/` exercises the library on concrete values.
- `app/` holds the fragment walk of the renderer, the `HandlerPlugin`
  trait, the error type with its `Display` implementation, and the
  conversions from `serde_json` and protocol values. It calls the library
  for every step that writes output or decides what to write.
