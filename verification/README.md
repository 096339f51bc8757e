# axum_httpbin

An HTTP request-inspection service in the style of httpbin.org, whose
request-handling logic is specified and proved with Verus.

- `src/` — the verified library: header lookup, client address, cookie,
  form and multipart parsing, the raw HTTP/1.1 head reader, Basic and
  Bearer authentication, and the parameter checks of the response-control
  endpoints. Each public function states in its contract what it returns;
  the `lemma_*` proof functions state the laws that relate several calls.
  Calls into `http`, `cookie`, `base64`, `serde_json`, `uuid` and std
  string decoding go through small trusted wrappers whose doc comments say
  what is assumed of them.
- `tests/` — tests of the library on concrete values.
- `app/` — the axum server around the library: routing, extractors,
  middleware, JSON serialization, server-sent events, the OpenAPI
  description and startup.
