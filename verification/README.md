# dependency_drift

Reads a Gradle version catalog (`gradle/libs.versions.toml`) at each tag of a
git repository and builds a timeline of dependency versions, embedded into a
self-contained HTML report.

- `src/` is the library, verified with Verus:
  - `text`: whitespace trimming, prefixes, lexicographic order, replacement;
  - `catalog`: parsing the `[versions]` section (names, versions, categories);
  - `drift`: the per-tag snapshots and the positional timeline;
  - `html`: escaping the JSON payload and embedding it into the template;
  - `tags`: choosing the semver tags the report covers, in version order;
  - `blob`: what a file read from a commit yields.
- `app/` is the command-line program: argument parsing, git access, JSON
  serialization and file output. The report page in `app/report.rs` is a
  minimal stand-in that only carries the data in its `<script>` element; the
  full interactive viewer page is not part of this repository.
- `tests/` runs the library on concrete catalogs, payloads and tag lists.
