# rest_mocker

The request-matching and registry logic of a REST API mock server, verified
with Verus, and the server around it.

- `src/` — the verified library:
  - `model` — mocks, conditions, request records, configuration;
  - `text` — splitting, comparison, trimming, decimal reading and writing;
  - `pattern` — path patterns with `:name` wildcards and their parameters;
  - `query` — query strings as multimaps;
  - `regex_match` — regex conditions through the `regex` crate;
  - `matching` — condition evaluation and the choice of the answering mock;
  - `registry` — the control API's operations on the list of mocks;
  - `editor` — the logic of the mock editor and listings;
  - `settings` — the ports read from the environment.
- `app/` — the Rocket servers (public mock server, internal control API with
  OpenAPI docs, static UI), which read requests and hand plain values to the library.
- `tests/` — tests of the library.
