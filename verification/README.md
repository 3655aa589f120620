# vendor_cleanup

A verified library, with a thin command-line front end, for a campaign tool
that opens `.gitattributes` `export-ignore` pull requests against PHP /
Composer packages that still ship development files in their dist.

## Layout

- `src/` — the library, written in Verus; every function carries a contract
  and is proved against it.
  - `text.rs` — the character-level model: `str::lines`, whitespace tokens,
    slash trimming, UTF-8 byte lengths, code-point order.
  - `style.rs` — the `.gitattributes` line grammar, style detection
    (sortedness, alignment column), removing stale lines and appending
    entries; the laws on sortedness, alignment, deduplication and
    idempotence of appending.
  - `config.rs` — the campaign configuration and its defaults.
  - `checks.rs` — the denylist, the commit trailer, the upstream existence
    filter and the rejection-history scan (a state machine driven by the
    application).
  - `pr.rs` — the PR body, the per-target state machine (`TargetRun`, which
    leaves denylisted and skip-listed repositories alone) and the pacing
    between opened PRs (`RunProgress`).
  - `builder.rs` — base64 decoding of GitHub contents, the set of excluded
    paths, stale-entry detection, GitHub slugs, commit summaries and target
    assembly for the `build` subcommand.
  - `savings.rs` — reading added paths from diffs and summing tree sizes for
    the `enrich-savings` subcommand.
  - `github.rs` — reading the closer of a PR from its timeline.
  - `outside.rs` — the trusted items: the calls into std, rand and regex,
    each with the contract the proofs rely on.
- `tests/` — tests of the library on concrete values.
- `app/` — the command line, the YAML files, the `gh` and `git` processes and
  the file system; it performs what the library's state machines ask for.
