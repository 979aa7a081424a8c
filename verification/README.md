# Bokfell

A documentation site generator for AsciiDoc with a spec-coverage engine,
written in Verus: the content model, the coverage engine, the page diff,
the search index, the theme's markup and the site's generated pages are
verified against their contracts; the command line around them is
ordinary Rust.

## Layout

- `src/` — the verified library.
  - `model/` — resource references, version ordering, the content
    catalog, playbook and descriptor configuration, navigation trees.
  - `coverage/` — claims, coverage maps (sidecars), resolution of every
    block of every measured page to one state, rollups, reports, the
    legacy per-line data and the Codecov projection, and the laws the
    resolution keeps (`coverage/laws.rs`).
  - `diff.rs`, `render.rs` — block-level page diffs over the parsed block
    tree, word-level edit markup, overlay blocks and section IDs.
  - `search.rs` — the search index entries of a rendered page.
  - `theme/` — HTML escaping, navigation and version-selector markup,
    code highlighting of test functions.
  - `site.rs`, `dashboard.rs`, `overlay.rs` — the what-changed index, the
    coverage dashboard, badge views, claim links and the client overlay
    payload.
  - `aggregate.rs` — git ref selection, cache names and export paths.
  - `serve.rs` — the dev server's lookup rules and reload-client
    injection.
- `app/` — the `bokfell` command: YAML and JSON, the file system, git,
  the AsciiDoc parser and renderer, templates, and the dev server.
- `tests/` — tests of the library.
