//! Parse Gradle version catalogs (`libs.versions.toml`).
//!
//! Extracts `(name, version, category)` triples from the `[versions]`
//! section. Version strings come in these shapes:
//!
//! - exact: `"3.2.0"` gives `"3.2.0"`
//! - range: `"[2.28, 2.29)"` gives the lower bound `"2.28"`
//! - dynamic: `"1.7.+"` gives `"1.7"` (trailing `+`, then a trailing `.`, dropped)
//! - anything else, such as `"latest.release"`, is kept as it is.
//!
//! Categories come from `#` comment headers inside `[versions]`: lines
//! before any comment are `"internal"`; a comment starting with
//! `external`, `test` or `plugin` (any case) gives that word; any other
//! comment gives its lower-cased text, and an empty one `"internal"`.

use vstd::prelude::*;

use crate::text::{
    chars_eq, ends_with, find_char, from_chars, has_prefix, has_suffix, starts_with, sub_chars,
    to_chars, trim, trim_chars,
};

verus! {

/// A parsed version entry from the catalog.
#[derive(Debug, Clone, PartialEq, Eq)]
pub struct VersionEntry {
    /// Human-readable name (key with `_version` stripped, underscores turned to hyphens).
    pub name: String,
    /// Normalized version string.
    pub version: String,
    /// Category inferred from comment headers.
    pub category: String,
}

/// What a [`VersionEntry`] holds, as character sequences.
pub struct EntryView {
    pub name: Seq<char>,
    pub version: Seq<char>,
    pub category: Seq<char>,
}

impl View for VersionEntry {
    type V = EntryView;

    open spec fn view(&self) -> EntryView {
        EntryView { name: self.name@, version: self.version@, category: self.category@ }
    }
}

/// The views of a sequence of entries.
pub open spec fn entries_view(v: Seq<VersionEntry>) -> Seq<EntryView> {
    v.map_values(|e: VersionEntry| e@)
}

// ───────────────────────────── specifications ─────────────────────────────

/// Name of the lower-case mapping of `str::to_lowercase` (Unicode's
/// `Lowercase` derived property, locale independent).
pub uninterp spec fn lowercase(s: Seq<char>) -> Seq<char>;

/// Position of the first `c` in `s`.
pub open spec fn first_index(s: Seq<char>, c: char) -> Option<int>
    decreases s.len(),
{
    if s.len() == 0 {
        None
    } else if s[0] == c {
        Some(0)
    } else {
        match first_index(s.drop_first(), c) {
            Some(i) => Some(i + 1),
            None => None,
        }
    }
}

/// `s` without its leading `#` characters (`trim_start_matches('#')`).
pub open spec fn strip_hashes(s: Seq<char>) -> Seq<char>
    decreases s.len(),
{
    if s.len() > 0 && s[0] == '#' {
        strip_hashes(s.drop_first())
    } else {
        s
    }
}

/// The category that a lower-cased comment text stands for.
pub open spec fn spec_category_from_text(text: Seq<char>) -> Seq<char> {
    if has_prefix(text, "external"@) {
        "external"@
    } else if has_prefix(text, "test"@) {
        "test"@
    } else if has_prefix(text, "plugin"@) {
        "plugin"@
    } else if text.len() == 0 {
        "internal"@
    } else {
        text
    }
}

/// The category that a `# ...` comment line starts.
pub open spec fn spec_categorize_comment(comment: Seq<char>) -> Seq<char> {
    spec_category_from_text(lowercase(trim(strip_hashes(comment))))
}

/// A TOML key made into a dependency name: a trailing `_version` dropped,
/// then every `_` turned into `-`.
pub open spec fn spec_clean_key(key: Seq<char>) -> Seq<char> {
    let stripped = if has_suffix(key, "_version"@) {
        key.take(key.len() - "_version"@.len())
    } else {
        key
    };
    stripped.map_values(|c: char|
        if c == '_' {
            '-'
        } else {
            c
        })
}

/// A `key = "value"` line split at its first `=`: the trimmed key, and the
/// text between the quotes that open and close the trimmed rest.
pub open spec fn spec_parse_version_line(line: Seq<char>) -> Option<(Seq<char>, Seq<char>)> {
    match first_index(line, '=') {
        None => None,
        Some(i) => {
            let key = trim(line.take(i));
            let rest = trim(line.skip(i + 1));
            if rest.len() >= 2 && rest[0] == '"' && rest.last() == '"' {
                Some((key, rest.subrange(1, rest.len() - 1)))
            } else {
                None
            }
        },
    }
}

/// A raw version string made into the version that the report shows.
pub open spec fn spec_normalize_version(raw: Seq<char>) -> Seq<char> {
    let t = trim(raw);
    if t.len() > 0 && (t[0] == '[' || t[0] == '(') {
        match first_index(t, ',') {
            Some(c) => trim(t.subrange(1, c)),
            None => t,
        }
    } else if t.len() > 0 && t.last() == '+' {
        let s = t.drop_last();
        if s.len() > 0 && s.last() == '.' {
            s.drop_last()
        } else {
            s
        }
    } else {
        t
    }
}

/// The pieces of `s` between `\n` separators (one more than there are
/// separators). `str::lines` gives the same pieces but for a last empty
/// one, and drops a `\r` before each `\n`; neither changes what the
/// parser yields, since it trims every line and skips empty ones.
pub open spec fn split_lines(s: Seq<char>) -> Seq<Seq<char>>
    decreases s.len(),
{
    if s.len() == 0 {
        seq![Seq::<char>::empty()]
    } else {
        let p = split_lines(s.drop_last());
        if s.last() == '\n' {
            p.push(Seq::<char>::empty())
        } else {
            p.update(p.len() - 1, p.last().push(s.last()))
        }
    }
}

/// Where the parser stands between two lines.
pub struct ScanState {
    /// Inside the `[versions]` section.
    pub in_versions: bool,
    /// The category that the next entry gets.
    pub category: Seq<char>,
    /// The entries found so far, in order.
    pub entries: Seq<EntryView>,
}

pub open spec fn initial_scan() -> ScanState {
    ScanState { in_versions: false, category: "internal"@, entries: Seq::empty() }
}

/// What one line does to the parser's state.
pub open spec fn scan_line(st: ScanState, line: Seq<char>) -> ScanState {
    let t = trim(line);
    if t.len() > 0 && t[0] == '[' {
        ScanState { in_versions: t == "[versions]"@, ..st }
    } else if !st.in_versions {
        st
    } else if t.len() > 0 && t[0] == '#' {
        ScanState { category: spec_categorize_comment(t), ..st }
    } else if t.len() == 0 {
        st
    } else {
        match spec_parse_version_line(t) {
            Some((k, v)) => ScanState {
                entries: st.entries.push(
                    EntryView {
                        name: spec_clean_key(k),
                        version: spec_normalize_version(v),
                        category: st.category,
                    },
                ),
                ..st
            },
            None => st,
        }
    }
}

/// The parser's state after the given lines, in order.
pub open spec fn scan_lines(lines: Seq<Seq<char>>) -> ScanState
    decreases lines.len(),
{
    if lines.len() == 0 {
        initial_scan()
    } else {
        scan_line(scan_lines(lines.drop_last()), lines.last())
    }
}

/// The entries of the `[versions]` section of a catalog.
pub open spec fn spec_parse_versions(content: Seq<char>) -> Seq<EntryView> {
    scan_lines(split_lines(content)).entries
}

// ───────────────────────────────── lemmas ─────────────────────────────────

pub proof fn lemma_first_index(s: Seq<char>, c: char, i: int)
    requires
        0 <= i < s.len(),
        s[i] == c,
        forall|k: int| 0 <= k < i ==> s[k] != c,
    ensures
        first_index(s, c) == Some(i),
    decreases i,
{
    if i > 0 {
        lemma_first_index(s.drop_first(), c, i - 1);
    }
}

proof fn lemma_first_index_none(s: Seq<char>, c: char)
    requires
        forall|k: int| 0 <= k < s.len() ==> s[k] != c,
    ensures
        first_index(s, c) is None,
    decreases s.len(),
{
    if s.len() > 0 {
        lemma_first_index_none(s.drop_first(), c);
    }
}

proof fn lemma_split_lines_len(s: Seq<char>)
    ensures
        split_lines(s).len() >= 1,
    decreases s.len(),
{
    if s.len() > 0 {
        lemma_split_lines_len(s.drop_last());
    }
}

// ────────────────────────────────── laws ──────────────────────────────────

/// The category a comment yields is never empty.
proof fn lemma_category_nonempty(text: Seq<char>)
    ensures
        spec_category_from_text(text).len() > 0,
{
    reveal_strlit("external");
    reveal_strlit("test");
    reveal_strlit("plugin");
    reveal_strlit("internal");
}

/// A cleaned name holds no `_`.
proof fn lemma_clean_key_no_underscore(key: Seq<char>)
    ensures
        !spec_clean_key(key).contains('_'),
{
    let c = spec_clean_key(key);
    if c.contains('_') {
        let i = choose|i: int| 0 <= i < c.len() && c[i] == '_';
        assert(c[i] == '_');
    }
}

proof fn lemma_scan_entries_clean(lines: Seq<Seq<char>>)
    ensures
        scan_lines(lines).category.len() > 0,
        forall|i: int|
            0 <= i < scan_lines(lines).entries.len() ==> !(#[trigger] scan_lines(lines).entries[i]).name.contains(
                '_',
            ) && scan_lines(lines).entries[i].category.len() > 0,
    decreases lines.len(),
{
    reveal_strlit("internal");
    if lines.len() > 0 {
        lemma_scan_entries_clean(lines.drop_last());
        let t = trim(lines.last());
        if t.len() > 0 && t[0] == '#' {
            lemma_category_nonempty(lowercase(trim(strip_hashes(t))));
        }
        match spec_parse_version_line(t) {
            Some((k, v)) => {
                lemma_clean_key_no_underscore(k);
            },
            None => {},
        }
    }
}

/// Every entry of a parsed catalog has a name without `_` (underscores
/// become hyphens) and a non-empty category.
pub proof fn parsed_entries_are_clean(content: Seq<char>)
    ensures
        forall|i: int|
            0 <= i < spec_parse_versions(content).len() ==> !(#[trigger] spec_parse_versions(
                content,
            )[i]).name.contains('_') && spec_parse_versions(content)[i].category.len() > 0,
{
    lemma_scan_entries_clean(split_lines(content));
}

/// Cleaning a key twice gives what cleaning it once does.
pub proof fn clean_key_idempotent(key: Seq<char>)
    ensures
        spec_clean_key(spec_clean_key(key)) == spec_clean_key(key),
{
    reveal_strlit("_version");
    let c = spec_clean_key(key);
    lemma_clean_key_no_underscore(key);
    if has_suffix(c, "_version"@) {
        assert(c.skip(c.len() - 8)[0] == '_');
        assert(c[c.len() - 8] == '_');
    }
    assert(spec_clean_key(c) =~= c);
}

proof fn lemma_scan_outside_versions(lines: Seq<Seq<char>>)
    requires
        forall|i: int| 0 <= i < lines.len() ==> trim(#[trigger] lines[i]) != "[versions]"@,
    ensures
        !scan_lines(lines).in_versions,
        scan_lines(lines).entries.len() == 0,
    decreases lines.len(),
{
    if lines.len() > 0 {
        lemma_scan_outside_versions(lines.drop_last());
        assert(trim(lines[lines.len() - 1]) != "[versions]"@);
    }
}

/// A catalog none of whose lines is a `[versions]` header yields no entry.
pub proof fn no_versions_section_no_entries(content: Seq<char>)
    requires
        forall|i: int|
            0 <= i < split_lines(content).len() ==> trim(#[trigger] split_lines(content)[i])
                != "[versions]"@,
    ensures
        spec_parse_versions(content).len() == 0,
{
    lemma_scan_outside_versions(split_lines(content));
}

/// A final line ending changes nothing: a catalog with a `\n` appended
/// yields the same entries.
pub proof fn final_newline_changes_nothing(content: Seq<char>)
    ensures
        spec_parse_versions(content.push('\n')) == spec_parse_versions(content),
{
    let s = content.push('\n');
    assert(s.drop_last() =~= content);
    let ls = split_lines(content).push(Seq::<char>::empty());
    assert(split_lines(s) == ls);
    assert(ls.drop_last() =~= split_lines(content));
    assert(trim(Seq::<char>::empty()) == Seq::<char>::empty());
}

/// Whether the lines leave the parser inside a `[versions]` section: the
/// last line whose trimmed text opens with `[` is exactly `[versions]`.
pub open spec fn in_versions_after(lines: Seq<Seq<char>>) -> bool
    decreases lines.len(),
{
    if lines.len() == 0 {
        false
    } else {
        let t = trim(lines.last());
        if t.len() > 0 && t[0] == '[' {
            t == "[versions]"@
        } else {
            in_versions_after(lines.drop_last())
        }
    }
}

/// The category in force after the lines: that of the last comment line
/// that stood inside a `[versions]` section, or `internal` where there is
/// none. Comments outside the section change nothing, and the category
/// carries over into a later `[versions]` section.
pub open spec fn comment_category(lines: Seq<Seq<char>>) -> Seq<char>
    decreases lines.len(),
{
    if lines.len() == 0 {
        "internal"@
    } else {
        let t = trim(lines.last());
        if in_versions_after(lines.drop_last()) && t.len() > 0 && t[0] == '#' {
            spec_categorize_comment(t)
        } else {
            comment_category(lines.drop_last())
        }
    }
}

/// The entry that `line` yields after the lines `before`, if any: a
/// `key = "value"` line inside a `[versions]` section, with the category
/// in force.
pub open spec fn line_entry(before: Seq<Seq<char>>, line: Seq<char>) -> Option<EntryView> {
    let t = trim(line);
    if in_versions_after(before) && t.len() > 0 && t[0] != '[' && t[0] != '#' {
        match spec_parse_version_line(t) {
            Some((k, v)) => Some(
                EntryView {
                    name: spec_clean_key(k),
                    version: spec_normalize_version(v),
                    category: comment_category(before),
                },
            ),
            None => None,
        }
    } else {
        None
    }
}

/// The entries of the lines, one per line that yields one, in line order.
pub open spec fn entries_of_lines(lines: Seq<Seq<char>>) -> Seq<EntryView>
    decreases lines.len(),
{
    if lines.len() == 0 {
        Seq::empty()
    } else {
        let rest = entries_of_lines(lines.drop_last());
        match line_entry(lines.drop_last(), lines.last()) {
            Some(e) => rest.push(e),
            None => rest,
        }
    }
}

/// The parser's state, described line by line: inside `[versions]` exactly
/// after a `[versions]` header, the category of the last comment there, and
/// one entry for each `key = "value"` line inside the section, in order.
pub proof fn scan_is_line_by_line(lines: Seq<Seq<char>>)
    ensures
        scan_lines(lines) == (ScanState {
            in_versions: in_versions_after(lines),
            category: comment_category(lines),
            entries: entries_of_lines(lines),
        }),
    decreases lines.len(),
{
    if lines.len() > 0 {
        scan_is_line_by_line(lines.drop_last());
    }
}

/// The entries of a catalog, line by line: for each line of a `[versions]`
/// section (the nearest header above it being `[versions]`) that is a
/// `key = "value"` line, in order, the entry of its cleaned key, normalized
/// value and the category of the nearest comment above it in a `[versions]`
/// section (`internal` where there is none).
pub proof fn parse_versions_line_by_line(content: Seq<char>)
    ensures
        spec_parse_versions(content) == entries_of_lines(split_lines(content)),
{
    scan_is_line_by_line(split_lines(content));
}

/// The parser's state after the lines, starting from `st`.
pub open spec fn scan_from(st: ScanState, lines: Seq<Seq<char>>) -> ScanState
    decreases lines.len(),
{
    if lines.len() == 0 {
        st
    } else {
        scan_line(scan_from(st, lines.drop_last()), lines.last())
    }
}

proof fn lemma_scan_from_initial(lines: Seq<Seq<char>>)
    ensures
        scan_lines(lines) == scan_from(initial_scan(), lines),
    decreases lines.len(),
{
    if lines.len() > 0 {
        lemma_scan_from_initial(lines.drop_last());
    }
}

proof fn lemma_scan_from_concat(st: ScanState, a: Seq<Seq<char>>, b: Seq<Seq<char>>)
    ensures
        scan_from(st, a + b) == scan_from(scan_from(st, a), b),
    decreases b.len(),
{
    if b.len() == 0 {
        assert(a + b =~= a);
    } else {
        lemma_scan_from_concat(st, a, b.drop_last());
        assert((a + b).drop_last() =~= a + b.drop_last());
        assert((a + b).last() == b.last());
    }
}

/// A line is a section header: its trimmed text opens with `[`.
pub open spec fn is_header(line: Seq<char>) -> bool {
    trim(line).len() > 0 && trim(line)[0] == '['
}

proof fn lemma_scan_outside_unchanged(st: ScanState, extra: Seq<Seq<char>>)
    requires
        !st.in_versions,
        forall|i: int| 0 <= i < extra.len() ==> !is_header(#[trigger] extra[i]),
    ensures
        scan_from(st, extra) == st,
    decreases extra.len(),
{
    if extra.len() > 0 {
        lemma_scan_outside_unchanged(st, extra.drop_last());
        assert(!is_header(extra[extra.len() - 1]));
    }
}

/// Lines inserted outside every `[versions]` section change nothing: where
/// the lines `before` leave the parser outside the section and no inserted
/// line is a header, the entries are those without the inserted lines.
pub proof fn lines_outside_versions_ignored(
    before: Seq<Seq<char>>,
    extra: Seq<Seq<char>>,
    after: Seq<Seq<char>>,
)
    requires
        !in_versions_after(before),
        forall|i: int| 0 <= i < extra.len() ==> !is_header(#[trigger] extra[i]),
    ensures
        scan_lines(before + extra + after).entries == scan_lines(before + after).entries,
{
    scan_is_line_by_line(before);
    lemma_scan_from_initial(before + extra + after);
    lemma_scan_from_initial(before + after);
    lemma_scan_from_initial(before);
    lemma_scan_from_concat(initial_scan(), before + extra, after);
    lemma_scan_from_concat(initial_scan(), before, extra);
    lemma_scan_from_concat(initial_scan(), before, after);
    lemma_scan_outside_unchanged(scan_from(initial_scan(), before), extra);
}

/// The lines of `a`, a line ending, then `b` are the lines of `a` followed
/// by those of `b`.
pub proof fn split_lines_concat(a: Seq<char>, b: Seq<char>)
    ensures
        split_lines(a.push('\n') + b) == split_lines(a) + split_lines(b),
    decreases b.len(),
{
    let s = a.push('\n') + b;
    if b.len() == 0 {
        assert(s =~= a.push('\n'));
        assert(s.drop_last() =~= a);
        assert(split_lines(a).push(Seq::<char>::empty()) =~= split_lines(a) + split_lines(b));
    } else {
        split_lines_concat(a, b.drop_last());
        lemma_split_lines_len(b.drop_last());
        assert(s.drop_last() =~= a.push('\n') + b.drop_last());
        assert(s.last() == b.last());
        let pa = split_lines(a);
        let pb = split_lines(b.drop_last());
        if b.last() == '\n' {
            assert((pa + pb).push(Seq::<char>::empty()) =~= pa + pb.push(Seq::<char>::empty()));
        } else {
            assert((pa + pb).update(pa.len() + pb.len() - 1, (pa + pb).last().push(b.last())) =~= pa
                + pb.update(pb.len() - 1, pb.last().push(b.last())));
        }
    }
}

/// Lines inserted into a catalog outside every `[versions]` section change
/// nothing: where the text `a` leaves the parser outside the section and no
/// line of `extra` is a header, the catalog with `extra` inserted as whole
/// lines after `a` yields the entries of the catalog without them.
pub proof fn catalog_lines_outside_versions_ignored(a: Seq<char>, extra: Seq<char>, b: Seq<char>)
    requires
        !in_versions_after(split_lines(a)),
        forall|i: int|
            0 <= i < split_lines(extra).len() ==> !is_header(#[trigger] split_lines(extra)[i]),
    ensures
        spec_parse_versions(a.push('\n') + extra.push('\n') + b) == spec_parse_versions(
            a.push('\n') + b,
        ),
{
    let la = split_lines(a);
    let le = split_lines(extra);
    let lb = split_lines(b);
    assert(a.push('\n') + extra.push('\n') + b =~= (a.push('\n') + extra).push('\n') + b);
    split_lines_concat(a.push('\n') + extra, b);
    split_lines_concat(a, extra);
    split_lines_concat(a, b);
    lines_outside_versions_ignored(la, le, lb);
    assert(la + le + lb =~= (la + le) + lb);
}

/// A range version gives its lower bound: where the trimmed text is an
/// opening `[` or `(`, then a text without a comma, then a comma and
/// anything, the version is that text between bracket and comma, trimmed,
/// whatever follows the comma (`[1.0,2.0)` and `[1.0, 2.0)` both give
/// `1.0`).
pub proof fn range_version_is_lower_bound(
    raw: Seq<char>,
    open: char,
    lower: Seq<char>,
    rest: Seq<char>,
)
    requires
        open == '[' || open == '(',
        trim(raw) == seq![open] + lower + seq![','] + rest,
        !lower.contains(','),
    ensures
        spec_normalize_version(raw) == trim(lower),
{
    let t = trim(raw);
    let c = lower.len() + 1;
    assert(t[c as int] == ',');
    assert forall|k: int| 0 <= k < c implies t[k] != ',' by {
        if k > 0 {
            assert(t[k] == lower[k - 1]);
            assert(!(lower[k - 1] == ','));
        }
    }
    lemma_first_index(t, ',', c as int);
    assert(t.subrange(1, c as int) =~= lower);
}

/// A dynamic version drops its trailing `+`, then a `.` that ends what is
/// left (`1.7.+` gives `1.7`, `1+` gives `1`), where the trimmed text does
/// not open with a bracket.
pub proof fn dynamic_version_drops_plus(raw: Seq<char>, body: Seq<char>)
    requires
        trim(raw) == body.push('+'),
        body.len() == 0 || (body[0] != '[' && body[0] != '('),
    ensures
        spec_normalize_version(raw) == if body.len() > 0 && body.last() == '.' {
            body.drop_last()
        } else {
            body
        },
{
    let t = trim(raw);
    assert(t.drop_last() =~= body);
    if body.len() == 0 {
        assert(t[0] == '+');
    } else {
        assert(t[0] == body[0]);
    }
}

/// Any other version is kept, trimmed: one whose trimmed text neither opens
/// with a bracket nor ends with `+`.
pub proof fn exact_version_kept(raw: Seq<char>)
    requires
        trim(raw).len() == 0 || (trim(raw)[0] != '[' && trim(raw)[0] != '(' && trim(raw).last()
            != '+'),
    ensures
        spec_normalize_version(raw) == trim(raw),
{
}

/// The well-known categories: a lower-cased comment text that starts with
/// `external`, `test` or `plugin` gives exactly that word; an empty one
/// gives `internal`; any other text is its own category.
pub proof fn well_known_categories(text: Seq<char>)
    ensures
        has_prefix(text, "external"@) ==> spec_category_from_text(text) == "external"@,
        has_prefix(text, "test"@) ==> spec_category_from_text(text) == "test"@,
        has_prefix(text, "plugin"@) ==> spec_category_from_text(text) == "plugin"@,
        text.len() == 0 ==> spec_category_from_text(text) == "internal"@,
        !has_prefix(text, "external"@) && !has_prefix(text, "test"@) && !has_prefix(
            text,
            "plugin"@,
        ) && text.len() > 0 ==> spec_category_from_text(text) == text,
{
    reveal_strlit("external");
    reveal_strlit("test");
    reveal_strlit("plugin");
    reveal_strlit("internal");
    if has_prefix(text, "test"@) {
        assert(text.take(4)[0] == 't');
        assert(text[0] == 't');
        assert(!has_prefix(text, "external"@)) by {
            if has_prefix(text, "external"@) {
                assert(text.take(8)[0] == 'e');
            }
        }
    }
    if has_prefix(text, "plugin"@) {
        assert(text.take(6)[0] == 'p');
        assert(text[0] == 'p');
        assert(!has_prefix(text, "external"@)) by {
            if has_prefix(text, "external"@) {
                assert(text.take(8)[0] == 'e');
            }
        }
        assert(!has_prefix(text, "test"@)) by {
            if has_prefix(text, "test"@) {
                assert(text.take(4)[0] == 't');
            }
        }
    }
}

/// A comment header's category: with its `#`s and surrounding whitespace
/// removed and lower-cased, a text that starts with `external`, `test` or
/// `plugin` gives exactly that word (`# Plugin dependencies` gives
/// `plugin`), an empty one `internal`, and any other text itself.
pub proof fn comment_categories(comment: Seq<char>)
    ensures
        ({
            let text = lowercase(trim(strip_hashes(comment)));
            &&& has_prefix(text, "external"@) ==> spec_categorize_comment(comment) == "external"@
            &&& has_prefix(text, "test"@) ==> spec_categorize_comment(comment) == "test"@
            &&& has_prefix(text, "plugin"@) ==> spec_categorize_comment(comment) == "plugin"@
            &&& text.len() == 0 ==> spec_categorize_comment(comment) == "internal"@
            &&& !has_prefix(text, "external"@) && !has_prefix(text, "test"@) && !has_prefix(
                text,
                "plugin"@,
            ) && text.len() > 0 ==> spec_categorize_comment(comment) == text
        }),
{
    well_known_categories(lowercase(trim(strip_hashes(comment))));
}

/// A `key = "value"` line splits at its first `=`: where the text before
/// the first `=` is `key` and the rest, trimmed, is a quoted `value`, the
/// result is the trimmed key and the value, whatever the key holds.
pub proof fn quoted_version_line(line: Seq<char>, key: Seq<char>, rest: Seq<char>, value: Seq<char>)
    requires
        line == key + seq!['='] + rest,
        !key.contains('='),
        trim(rest) == seq!['"'] + value + seq!['"'],
    ensures
        spec_parse_version_line(line) == Some((trim(key), value)),
{
    lemma_first_equals(line, key, rest);
    let r = trim(rest);
    assert(r.subrange(1, r.len() - 1) =~= value);
}

proof fn lemma_first_equals(line: Seq<char>, key: Seq<char>, rest: Seq<char>)
    requires
        line == key + seq!['='] + rest,
        !key.contains('='),
    ensures
        first_index(line, '=') == Some(key.len() as int),
        line.take(key.len() as int) == key,
        line.skip(key.len() as int + 1) == rest,
{
    assert(line[key.len() as int] == '=');
    assert forall|k: int| 0 <= k < key.len() implies line[k] != '=' by {
        assert(line[k] == key[k]);
        assert(!(key[k] == '='));
    }
    lemma_first_index(line, '=', key.len() as int);
    assert(line.take(key.len() as int) =~= key);
    assert(line.skip(key.len() as int + 1) =~= rest);
}

/// A line with an `=` yields a pair exactly when the text after its first
/// `=`, trimmed, is a quoted string; a line without `=` yields none.
pub proof fn version_line_needs_quotes(line: Seq<char>, key: Seq<char>, rest: Seq<char>)
    requires
        line == key + seq!['='] + rest,
        !key.contains('='),
    ensures
        spec_parse_version_line(line) is Some <==> (trim(rest).len() >= 2 && trim(rest)[0] == '"'
            && trim(rest).last() == '"'),
{
    lemma_first_equals(line, key, rest);
}

/// A line without `=` yields no pair.
pub proof fn version_line_without_equals(line: Seq<char>)
    requires
        !line.contains('='),
    ensures
        spec_parse_version_line(line) is None,
{
    assert forall|k: int| 0 <= k < line.len() implies line[k] != '=' by {
        assert(!(line[k] == '='));
    }
    lemma_first_index_none(line, '=');
}

/// Every `key = "value"` line inside a `[versions]` section yields an entry:
/// its cleaned trimmed key, its normalized value, and the category in
/// force; the entries of the lines so far gain exactly that entry.
pub proof fn quoted_line_in_section_yields_entry(
    before: Seq<Seq<char>>,
    line: Seq<char>,
    key: Seq<char>,
    rest: Seq<char>,
    value: Seq<char>,
)
    requires
        in_versions_after(before),
        trim(line) == key + seq!['='] + rest,
        trim(line)[0] != '[',
        trim(line)[0] != '#',
        !key.contains('='),
        trim(rest) == seq!['"'] + value + seq!['"'],
    ensures
        entries_of_lines(before.push(line)) == entries_of_lines(before).push(
            EntryView {
                name: spec_clean_key(trim(key)),
                version: spec_normalize_version(value),
                category: comment_category(before),
            },
        ),
{
    quoted_version_line(trim(line), key, rest, value);
    assert(before.push(line).drop_last() =~= before);
}

// ─────────────────────────────── executables ───────────────────────────────

/// `str::find` for one character, as the spec's `first_index`.
fn find_first(v: &[char], c: char) -> (r: Option<usize>)
    ensures
        match r {
            Some(i) => first_index(v@, c) == Some(i as int) && i < v@.len() && v@[i as int] == c
                && forall|k: int| 0 <= k < i ==> v@[k] != c,
            None => first_index(v@, c) is None,
        },
{
    let r = find_char(v, c);
    proof {
        match r {
            Some(i) => lemma_first_index(v@, c, i as int),
            None => lemma_first_index_none(v@, c),
        }
    }
    r
}

/// `str::to_lowercase`: the lower-case equivalent of `s`.
#[verifier::external_body]
fn to_lowercase(s: &str) -> (r: String)
    ensures
        r@ == lowercase(s@),
{
    s.to_lowercase()
}

fn category_from_text_chars(text: &[char]) -> (r: Vec<char>)
    ensures
        r@ == spec_category_from_text(text@),
{
    let external = to_chars("external");
    let test = to_chars("test");
    let plugin = to_chars("plugin");
    if starts_with(text, &external) {
        external
    } else if starts_with(text, &test) {
        test
    } else if starts_with(text, &plugin) {
        plugin
    } else if text.len() == 0 {
        to_chars("internal")
    } else {
        sub_chars(text, 0, text.len())
    }
}

/// The category that a lower-cased comment text (the `#`s and the
/// surrounding whitespace already gone) stands for: `external`, `test` or
/// `plugin` where the text starts with that word, `internal` where it is
/// empty, and else the text itself.
pub fn category_from_text(text: &str) -> (r: String)
    ensures
        r@ == spec_category_from_text(text@),
{
    let v = to_chars(text);
    let r = category_from_text_chars(&v);
    from_chars(&r)
}

fn categorize_comment_chars(comment: &[char]) -> (r: Vec<char>)
    ensures
        r@ == spec_categorize_comment(comment@),
{
    let n = comment.len();
    let mut i: usize = 0;
    assert(comment@.subrange(0, n as int) =~= comment@);
    while i < n && comment[i] == '#'
        invariant
            i <= n == comment@.len(),
            strip_hashes(comment@) == strip_hashes(comment@.subrange(i as int, n as int)),
        decreases n - i,
    {
        assert(comment@.subrange(i as int, n as int).drop_first() =~= comment@.subrange(
            i + 1,
            n as int,
        ));
        i = i + 1;
    }
    let rest = sub_chars(comment, i, n);
    let text = trim_chars(&rest);
    let lower = to_lowercase(from_chars(&text).as_str());
    let lower_chars = to_chars(lower.as_str());
    category_from_text_chars(&lower_chars)
}

/// Map a `# Comment` header to a category slug.
pub fn categorize_comment(comment: &str) -> (r: String)
    ensures
        r@ == spec_categorize_comment(comment@),
{
    let v = to_chars(comment);
    let r = categorize_comment_chars(&v);
    from_chars(&r)
}

fn clean_key_chars(key: &[char]) -> (r: Vec<char>)
    ensures
        r@ == spec_clean_key(key@),
{
    let suffix = to_chars("_version");
    let end = if ends_with(key, &suffix) {
        key.len() - suffix.len()
    } else {
        key.len()
    };
    let ghost stripped = key@.take(end as int);
    assert(!has_suffix(key@, "_version"@) ==> stripped =~= key@);
    let mut r: Vec<char> = Vec::new();
    let mut i: usize = 0;
    while i < end
        invariant
            end <= key@.len(),
            i <= end,
            stripped == key@.take(end as int),
            r@ =~= stripped.take(i as int).map_values(
                |c: char|
                    if c == '_' {
                        '-'
                    } else {
                        c
                    },
            ),
        decreases end - i,
    {
        let c = key[i];
        if c == '_' {
            r.push('-');
        } else {
            r.push(c);
        }
        assert(stripped.take(i + 1) =~= stripped.take(i as int).push(c));
        i = i + 1;
    }
    assert(stripped.take(end as int) =~= stripped);
    r
}

/// Clean a TOML key into a dependency name: strip a `_version` suffix, then
/// turn underscores into hyphens (`hello_world_version` gives `hello-world`).
pub fn clean_key(key: &str) -> (r: String)
    ensures
        r@ == spec_clean_key(key@),
{
    let v = to_chars(key);
    let r = clean_key_chars(&v);
    from_chars(&r)
}

fn parse_version_line_chars(line: &[char]) -> (r: Option<(Vec<char>, Vec<char>)>)
    ensures
        match r {
            Some((k, v)) => spec_parse_version_line(line@) == Some((k@, v@)),
            None => spec_parse_version_line(line@) is None,
        },
{
    let n = line.len();
    match find_first(line, '=') {
        None => None,
        Some(i) => {
            let key_raw = sub_chars(line, 0, i);
            assert(key_raw@ =~= line@.take(i as int));
            let key = trim_chars(&key_raw);
            let rest_raw = sub_chars(line, i + 1, n);
            assert(rest_raw@ =~= line@.skip(i + 1));
            let rest = trim_chars(&rest_raw);
            if rest.len() >= 2 && rest[0] == '"' && rest[rest.len() - 1] == '"' {
                let value = sub_chars(&rest, 1, rest.len() - 1);
                Some((key, value))
            } else {
                None
            }
        },
    }
}

/// Parse a single `key = "value"` line, returning `(key, raw_value)`.
pub fn parse_version_line(line: &str) -> (r: Option<(String, String)>)
    ensures
        match r {
            Some((k, v)) => spec_parse_version_line(line@) == Some((k@, v@)),
            None => spec_parse_version_line(line@) is None,
        },
{
    let v = to_chars(line);
    match parse_version_line_chars(&v) {
        Some((k, val)) => Some((from_chars(&k), from_chars(&val))),
        None => None,
    }
}

fn normalize_version_chars(raw: &[char]) -> (r: Vec<char>)
    ensures
        r@ == spec_normalize_version(raw@),
{
    let t = trim_chars(raw);
    let n = t.len();
    if n > 0 && (t[0] == '[' || t[0] == '(') {
        match find_first(&t, ',') {
            Some(c) => {
                let lower = sub_chars(&t, 1, c);
                trim_chars(&lower)
            },
            None => t,
        }
    } else if n > 0 && t[n - 1] == '+' {
        if n > 1 && t[n - 2] == '.' {
            sub_chars(&t, 0, n - 2)
        } else {
            sub_chars(&t, 0, n - 1)
        }
    } else {
        t
    }
}

/// Normalize a version string: a range `[2.28, 2.29)` gives its lower
/// bound `2.28`; a dynamic `1.7.+` gives `1.7`; anything else, trimmed, is
/// kept.
pub fn normalize_version(raw: &str) -> (r: String)
    ensures
        r@ == spec_normalize_version(raw@),
{
    let v = to_chars(raw);
    let r = normalize_version_chars(&v);
    from_chars(&r)
}

/// The effect of one line on the parser's state.
fn scan_one_line(
    in_versions: &mut bool,
    category: &mut Vec<char>,
    result: &mut Vec<VersionEntry>,
    line: &[char],
)
    ensures
        ({
            let before = ScanState {
                in_versions: *old(in_versions),
                category: old(category)@,
                entries: entries_view(old(result)@),
            };
            let after = ScanState {
                in_versions: *final(in_versions),
                category: final(category)@,
                entries: entries_view(final(result)@),
            };
            after == scan_line(before, line@)
        }),
{
    let ghost before = ScanState {
        in_versions: *in_versions,
        category: category@,
        entries: entries_view(result@),
    };
    let t = trim_chars(line);
    if t.len() > 0 && t[0] == '[' {
        let header = to_chars("[versions]");
        *in_versions = chars_eq(&t, &header);
        return ;
    }
    if !*in_versions {
        return ;
    }
    if t.len() > 0 && t[0] == '#' {
        *category = categorize_comment_chars(&t);
        return ;
    }
    if t.len() == 0 {
        return ;
    }
    match parse_version_line_chars(&t) {
        Some((key, value)) => {
            let name = clean_key_chars(&key);
            let version = normalize_version_chars(&value);
            let entry = VersionEntry {
                name: from_chars(&name),
                version: from_chars(&version),
                category: from_chars(category),
            };
            result.push(entry);
            assert(entries_view(result@) =~= before.entries.push(entry@));
        },
        None => {},
    }
}

/// Parse the `[versions]` section of a Gradle version catalog.
///
/// Returns [`VersionEntry`] values with cleaned-up names and comment-based
/// categories, in the order of the catalog.
pub fn parse_versions(content: &str) -> (r: Vec<VersionEntry>)
    ensures
        entries_view(r@) == spec_parse_versions(content@),
{
    let chars = to_chars(content);
    let n = chars.len();
    let mut in_versions = false;
    let mut category = to_chars("internal");
    let mut result: Vec<VersionEntry> = Vec::new();
    let mut line: Vec<char> = Vec::new();
    let ghost mut done: Seq<Seq<char>> = Seq::empty();
    assert(chars@.take(0) =~= Seq::<char>::empty());
    assert(entries_view(result@) =~= Seq::<EntryView>::empty());
    assert(done.push(line@) =~= seq![Seq::<char>::empty()]);
    for i in 0..n
        invariant
            n == chars@.len(),
            split_lines(chars@.take(i as int)) == done.push(line@),
            scan_lines(done) == (ScanState {
                in_versions,
                category: category@,
                entries: entries_view(result@),
            }),
    {
        let c = chars[i];
        assert(chars@.take(i + 1).drop_last() =~= chars@.take(i as int));
        if c == '\n' {
            scan_one_line(&mut in_versions, &mut category, &mut result, &line);
            proof {
                assert(done.push(line@).drop_last() =~= done);
                done = done.push(line@);
            }
            line = Vec::new();
            assert(done.push(line@).drop_last() =~= done);
        } else {
            let ghost old_line = line@;
            line.push(c);
            assert(done.push(old_line).update(done.len() as int, old_line.push(c)) =~= done.push(
                line@,
            ));
        }
    }
    scan_one_line(&mut in_versions, &mut category, &mut result, &line);
    assert(chars@.take(n as int) =~= chars@);
    assert(done.push(line@).drop_last() =~= done);
    result
}

} // verus!
