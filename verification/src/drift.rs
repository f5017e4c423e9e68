//! The drift timeline: for each dependency named in any tag's catalog, the
//! version it had at each tag, positionally, and its latest category.

use vstd::prelude::*;

use crate::catalog::{entries_view, parse_versions, spec_parse_versions, EntryView, VersionEntry};
use crate::text::{chars_lt, lemma_seq_lt_irreflexive, lemma_seq_lt_total,
    lemma_seq_lt_transitive, seq_lt, to_chars};

verus! {

/// The full payload injected into the HTML template.
#[derive(Debug)]
pub struct DriftPayload {
    /// Tag names in chronological order (oldest first).
    pub tags: Vec<String>,
    /// One entry per dependency, with positional version arrays.
    pub dependencies: Vec<Dependency>,
}

/// A single dependency tracked across tags.
#[derive(Debug)]
pub struct Dependency {
    /// Human-readable name (key with `_version` stripped, underscores turned to hyphens).
    pub name: String,
    /// Category from the comment headers of the latest tag that has the dependency.
    pub category: Option<String>,
    /// `versions[i]` is the version at `tags[i]`, or `None` where the
    /// dependency was absent at that tag.
    pub versions: Vec<Option<String>>,
}

/// What a [`Dependency`] holds, as character sequences.
pub struct DependencyView {
    pub name: Seq<char>,
    pub category: Option<Seq<char>>,
    pub versions: Seq<Option<Seq<char>>>,
}

/// What a [`DriftPayload`] holds, as character sequences.
pub struct DriftView {
    pub tags: Seq<Seq<char>>,
    pub dependencies: Seq<DependencyView>,
}

pub open spec fn opt_view(o: Option<String>) -> Option<Seq<char>> {
    match o {
        Some(s) => Some(s@),
        None => None,
    }
}

pub open spec fn strings_view(v: Seq<String>) -> Seq<Seq<char>> {
    v.map_values(|s: String| s@)
}

impl View for Dependency {
    type V = DependencyView;

    open spec fn view(&self) -> DependencyView {
        DependencyView {
            name: self.name@,
            category: opt_view(self.category),
            versions: self.versions@.map_values(|o: Option<String>| opt_view(o)),
        }
    }
}

impl View for DriftPayload {
    type V = DriftView;

    open spec fn view(&self) -> DriftView {
        DriftView {
            tags: strings_view(self.tags@),
            dependencies: self.dependencies@.map_values(|d: Dependency| d@),
        }
    }
}

/// A catalog at one tag: each dependency name mapped to its version and
/// category. Where a name occurs more than once, the last entry counts.
#[derive(Debug)]
pub struct CatalogSnapshot {
    /// The parsed entries, in catalog order.
    pub entries: Vec<VersionEntry>,
}

/// Name, then version and category, of each dependency in `entries`, the
/// last entry winning for a repeated name (what collecting the entries
/// into a map does).
pub open spec fn snapshot_of(entries: Seq<EntryView>) -> Map<Seq<char>, (Seq<char>, Seq<char>)>
    decreases entries.len(),
{
    if entries.len() == 0 {
        Map::empty()
    } else {
        snapshot_of(entries.drop_last()).insert(
            entries.last().name,
            (entries.last().version, entries.last().category),
        )
    }
}

impl View for CatalogSnapshot {
    type V = Map<Seq<char>, (Seq<char>, Seq<char>)>;

    open spec fn view(&self) -> Map<Seq<char>, (Seq<char>, Seq<char>)> {
        snapshot_of(entries_view(self.entries@))
    }
}

pub open spec fn snapshots_view(s: Seq<CatalogSnapshot>) -> Seq<Map<Seq<char>, (Seq<char>, Seq<char>)>> {
    s.map_values(|c: CatalogSnapshot| c@)
}

/// `name` is a dependency of at least one snapshot.
pub open spec fn in_some_snapshot(
    snaps: Seq<Map<Seq<char>, (Seq<char>, Seq<char>)>>,
    name: Seq<char>,
) -> bool {
    exists|t: int| 0 <= t < snaps.len() && #[trigger] snaps[t].contains_key(name)
}

/// The version of `name` in `snap`, if it is there.
pub open spec fn version_in(snap: Map<Seq<char>, (Seq<char>, Seq<char>)>, name: Seq<char>) -> Option<
    Seq<char>,
> {
    if snap.contains_key(name) {
        Some(snap[name].0)
    } else {
        None
    }
}

/// The category of `name` in the last snapshot that has it.
pub open spec fn last_category(
    snaps: Seq<Map<Seq<char>, (Seq<char>, Seq<char>)>>,
    name: Seq<char>,
) -> Option<Seq<char>>
    decreases snaps.len(),
{
    if snaps.len() == 0 {
        None
    } else if snaps.last().contains_key(name) {
        Some(snaps.last()[name].1)
    } else {
        last_category(snaps.drop_last(), name)
    }
}

/// The row of the timeline for `name`.
pub open spec fn dependency_row(
    snaps: Seq<Map<Seq<char>, (Seq<char>, Seq<char>)>>,
    name: Seq<char>,
) -> DependencyView {
    DependencyView {
        name,
        category: last_category(snaps, name),
        versions: Seq::new(snaps.len(), |t: int| version_in(snaps[t], name)),
    }
}

/// Strictly increasing names.
pub open spec fn strictly_sorted(names: Seq<Seq<char>>) -> bool {
    forall|i: int, j: int| 0 <= i < j < names.len() ==> seq_lt(names[i], names[j])
}

/// `deps` is the timeline of `snaps`: one row per name that some snapshot
/// has, in increasing name order, each row as `dependency_row` says.
pub open spec fn is_timeline(
    snaps: Seq<Map<Seq<char>, (Seq<char>, Seq<char>)>>,
    deps: Seq<DependencyView>,
) -> bool {
    &&& strictly_sorted(deps.map_values(|d: DependencyView| d.name))
    &&& forall|i: int|
        0 <= i < deps.len() ==> in_some_snapshot(snaps, #[trigger] deps[i].name) && deps[i]
            == dependency_row(snaps, deps[i].name)
    &&& forall|name: Seq<char>|
        in_some_snapshot(snaps, name) ==> exists|i: int|
            0 <= i < deps.len() && #[trigger] deps[i].name == name
}

/// The snapshot of a tag's catalog text, or an empty one where the tag had
/// no catalog.
pub open spec fn catalog_snapshot(catalog: Option<Seq<char>>) -> Map<
    Seq<char>,
    (Seq<char>, Seq<char>),
> {
    match catalog {
        Some(c) => snapshot_of(spec_parse_versions(c)),
        None => Map::empty(),
    }
}

// ───────────────────────────────── lemmas ─────────────────────────────────

/// In a snapshot, a name maps to the version and category of the last
/// entry that has that name.
pub proof fn snapshot_keeps_last_entry(entries: Seq<EntryView>, k: Seq<char>, j: int)
    requires
        0 <= j < entries.len(),
        entries[j].name == k,
        forall|m: int| j < m < entries.len() ==> entries[m].name != k,
    ensures
        snapshot_of(entries).contains_key(k),
        snapshot_of(entries)[k] == (entries[j].version, entries[j].category),
    decreases entries.len(),
{
    if j < entries.len() - 1 {
        snapshot_keeps_last_entry(entries.drop_last(), k, j);
    }
}

proof fn lemma_snapshot_absent(entries: Seq<EntryView>, k: Seq<char>)
    requires
        forall|m: int| 0 <= m < entries.len() ==> entries[m].name != k,
    ensures
        !snapshot_of(entries).contains_key(k),
    decreases entries.len(),
{
    if entries.len() > 0 {
        lemma_snapshot_absent(entries.drop_last(), k);
    }
}

proof fn lemma_snapshot_has(entries: Seq<EntryView>, m: int)
    requires
        0 <= m < entries.len(),
    ensures
        snapshot_of(entries).contains_key(entries[m].name),
    decreases entries.len(),
{
    if m < entries.len() - 1 {
        lemma_snapshot_has(entries.drop_last(), m);
    }
}

proof fn lemma_snapshot_key_source(entries: Seq<EntryView>, k: Seq<char>)
    requires
        snapshot_of(entries).contains_key(k),
    ensures
        exists|m: int| 0 <= m < entries.len() && entries[m].name == k,
    decreases entries.len(),
{
    if entries.len() > 0 && entries.last().name != k {
        lemma_snapshot_key_source(entries.drop_last(), k);
        let m = choose|m: int| 0 <= m < entries.len() - 1 && entries.drop_last()[m].name == k;
        assert(entries[m].name == k);
    }
}

/// Inserting `x` where it belongs keeps a strictly sorted sequence sorted.
proof fn lemma_insert_sorted(s: Seq<Seq<char>>, p: int, x: Seq<char>)
    requires
        strictly_sorted(s),
        0 <= p <= s.len(),
        forall|k: int| 0 <= k < p ==> seq_lt(s[k], x),
        p < s.len() ==> seq_lt(x, s[p]),
    ensures
        strictly_sorted(s.insert(p, x)),
{
    let t = s.insert(p, x);
    assert forall|i: int, j: int| 0 <= i < j < t.len() implies seq_lt(t[i], t[j]) by {
        if j < p {
        } else if j == p {
        } else if i < p {
            lemma_seq_lt_transitive(s[i], x, s[p]);
            if j - 1 > p {
                lemma_seq_lt_transitive(s[i], s[p], s[j - 1]);
            }
        } else if i == p {
            if j - 1 > p {
                lemma_seq_lt_transitive(x, s[p], s[j - 1]);
            }
        } else {
        }
    }
}

proof fn lemma_last_category_found(
    snaps: Seq<Map<Seq<char>, (Seq<char>, Seq<char>)>>,
    name: Seq<char>,
    t: int,
)
    requires
        0 <= t < snaps.len(),
        snaps[t].contains_key(name),
        forall|u: int| t < u < snaps.len() ==> !snaps[u].contains_key(name),
    ensures
        last_category(snaps, name) == Some(snaps[t][name].1),
    decreases snaps.len(),
{
    if t < snaps.len() - 1 {
        lemma_last_category_found(snaps.drop_last(), name, t);
    }
}

proof fn lemma_last_category_none(snaps: Seq<Map<Seq<char>, (Seq<char>, Seq<char>)>>, name: Seq<char>)
    requires
        forall|u: int| 0 <= u < snaps.len() ==> !snaps[u].contains_key(name),
    ensures
        last_category(snaps, name) is None,
    decreases snaps.len(),
{
    if snaps.len() > 0 {
        lemma_last_category_none(snaps.drop_last(), name);
    }
}

// ────────────────────────────────── laws ──────────────────────────────────

/// The rows of a timeline: each has one version per tag; a row's version
/// at a tag is present exactly where that tag's snapshot has the
/// dependency; each row has a version at some tag and a category; and no
/// two rows share a name.
pub proof fn timeline_rows_are_positional(
    snaps: Seq<Map<Seq<char>, (Seq<char>, Seq<char>)>>,
    deps: Seq<DependencyView>,
)
    requires
        is_timeline(snaps, deps),
    ensures
        forall|i: int| 0 <= i < deps.len() ==> (#[trigger] deps[i]).versions.len() == snaps.len(),
        forall|i: int, t: int|
            0 <= i < deps.len() && 0 <= t < snaps.len() ==> ((#[trigger] deps[i].versions[t]) is Some
                <==> snaps[t].contains_key(deps[i].name)),
        forall|i: int|
            #![trigger deps[i]]
            0 <= i < deps.len() ==> exists|t: int|
                0 <= t < snaps.len() && (#[trigger] deps[i].versions[t]) is Some,
        forall|i: int| 0 <= i < deps.len() ==> (#[trigger] deps[i]).category is Some,
        forall|i: int, j: int| 0 <= i < j < deps.len() ==> deps[i].name != deps[j].name,
{
    assert forall|i: int| 0 <= i < deps.len() implies (#[trigger] deps[i]).versions.len()
        == snaps.len() && deps[i] == dependency_row(snaps, deps[i].name) by {
        assert(in_some_snapshot(snaps, deps[i].name));
    }
    assert forall|i: int| #![trigger deps[i]] 0 <= i < deps.len() implies exists|t: int|
        0 <= t < snaps.len() && (#[trigger] deps[i].versions[t]) is Some by {
        assert(in_some_snapshot(snaps, deps[i].name));
        let t = choose|t: int| 0 <= t < snaps.len() && #[trigger] snaps[t].contains_key(deps[i].name);
        assert(deps[i].versions[t] is Some);
    }
    assert forall|i: int| 0 <= i < deps.len() implies (#[trigger] deps[i]).category is Some by {
        let name = deps[i].name;
        assert(in_some_snapshot(snaps, name));
        lemma_last_category_some(snaps, name);
    }
    assert forall|i: int, j: int| 0 <= i < j < deps.len() implies deps[i].name != deps[j].name by {
        let names = deps.map_values(|d: DependencyView| d.name);
        assert(seq_lt(names[i], names[j]));
        lemma_seq_lt_irreflexive(names[i]);
    }
}

proof fn lemma_last_category_some(snaps: Seq<Map<Seq<char>, (Seq<char>, Seq<char>)>>, name: Seq<char>)
    requires
        in_some_snapshot(snaps, name),
    ensures
        last_category(snaps, name) is Some,
    decreases snaps.len(),
{
    if !snaps.last().contains_key(name) {
        let t = choose|t: int| 0 <= t < snaps.len() && #[trigger] snaps[t].contains_key(name);
        assert(snaps.drop_last()[t].contains_key(name));
        lemma_last_category_some(snaps.drop_last(), name);
    }
}

// ─────────────────────────────── executables ───────────────────────────────

/// A copy of a string.
fn copy_string(s: &String) -> (r: String)
    ensures
        r@ == s@,
{
    s.clone()
}

/// Whether `a` comes strictly before `b` in `String` order.
fn string_lt(a: &String, b: &String) -> (r: bool)
    ensures
        r == seq_lt(a@, b@),
{
    let ca = to_chars(a.as_str());
    let cb = to_chars(b.as_str());
    chars_lt(&ca, &cb)
}

/// Convert parsed version entries into a snapshot.
pub fn entries_to_snapshot(entries: Vec<VersionEntry>) -> (r: CatalogSnapshot)
    ensures
        r@ == snapshot_of(entries_view(entries@)),
{
    CatalogSnapshot { entries }
}

impl CatalogSnapshot {
    /// A snapshot with no dependency.
    pub fn empty() -> (r: CatalogSnapshot)
        ensures
            r@ == Map::<Seq<char>, (Seq<char>, Seq<char>)>::empty(),
    {
        let r = CatalogSnapshot { entries: Vec::new() };
        assert(entries_view(r.entries@) =~= Seq::<EntryView>::empty());
        r
    }

    /// The version and category of `name`, if the snapshot has it.
    pub fn get(&self, name: &String) -> (r: Option<(String, String)>)
        ensures
            match r {
                Some((v, c)) => self@.contains_key(name@) && self@[name@] == (v@, c@),
                None => !self@.contains_key(name@),
            },
    {
        let ghost ev = entries_view(self.entries@);
        let mut j = self.entries.len();
        while j > 0
            invariant
                j <= self.entries@.len(),
                ev == entries_view(self.entries@),
                forall|m: int| j <= m < ev.len() ==> ev[m].name != name@,
            decreases j,
        {
            let e = &self.entries[j - 1];
            if e.name == *name {
                proof {
                    snapshot_keeps_last_entry(ev, name@, j - 1);
                }
                return Some((copy_string(&e.version), copy_string(&e.category)));
            }
            j = j - 1;
        }
        proof {
            lemma_snapshot_absent(ev, name@);
        }
        None
    }
}

/// Add `name` to a strictly sorted list of names, where it is not there yet.
fn insert_name(names: &mut Vec<String>, name: &String)
    requires
        strictly_sorted(strings_view(old(names)@)),
    ensures
        strictly_sorted(strings_view(final(names)@)),
        forall|k: Seq<char>|
            strings_view(final(names)@).contains(k) <==> (strings_view(old(names)@).contains(k)
                || k == name@),
{
    let ghost old_view = strings_view(names@);
    let n = names.len();
    let mut p: usize = 0;
    while p < n && string_lt(&names[p], name)
        invariant
            p <= n == names@.len(),
            old_view == strings_view(names@),
            forall|k: int| 0 <= k < p ==> seq_lt(old_view[k], name@),
        decreases n - p,
    {
        p = p + 1;
    }
    if p < n && names[p] == *name {
        assert(old_view[p as int] == name@);
        assert(old_view.contains(name@));
        return ;
    }
    if p < n {
        proof {
            lemma_seq_lt_total(old_view[p as int], name@);
        }
    }
    proof {
        lemma_insert_sorted(old_view, p as int, name@);
    }
    names.insert(p, copy_string(name));
    assert(strings_view(names@) =~= old_view.insert(p as int, name@));
    assert forall|k: Seq<char>|
        strings_view(names@).contains(k) <==> (old_view.contains(k) || k == name@) by {
        let nv = strings_view(names@);
        if nv.contains(k) {
            let i = choose|i: int| 0 <= i < nv.len() && nv[i] == k;
            if i < p {
                assert(old_view[i] == k);
            } else if i > p {
                assert(old_view[i - 1] == k);
            }
        }
        if old_view.contains(k) {
            let i = choose|i: int| 0 <= i < old_view.len() && old_view[i] == k;
            if i < p {
                assert(nv[i] == k);
            } else {
                assert(nv[i + 1] == k);
            }
        }
        if k == name@ {
            assert(nv[p as int] == k);
        }
    }
    assert(old_view == strings_view(old(names)@));
    assert(forall|k: Seq<char>|
        strings_view(names@).contains(k) <==> (strings_view(old(names)@).contains(k) || k
            == name@));
}

/// Every dependency name of every snapshot, sorted, each once.
fn collect_names(snaps: &[CatalogSnapshot]) -> (r: Vec<String>)
    ensures
        strictly_sorted(strings_view(r@)),
        forall|k: Seq<char>|
            strings_view(r@).contains(k) <==> in_some_snapshot(snapshots_view(snaps@), k),
{
    let ghost sv = snapshots_view(snaps@);
    let mut names: Vec<String> = Vec::new();
    let mut t: usize = 0;
    while t < snaps.len()
        invariant
            t <= snaps@.len(),
            sv == snapshots_view(snaps@),
            strictly_sorted(strings_view(names@)),
            forall|k: Seq<char>|
                strings_view(names@).contains(k) <==> exists|u: int|
                    0 <= u < t && #[trigger] sv[u].contains_key(k),
        decreases snaps.len() - t,
    {
        let entries = &snaps[t].entries;
        let ghost ev = entries_view(entries@);
        let ghost before = strings_view(names@);
        let mut m: usize = 0;
        while m < entries.len()
            invariant
                t < snaps@.len(),
                m <= entries@.len(),
                entries == snaps@[t as int].entries,
                ev == entries_view(entries@),
                sv == snapshots_view(snaps@),
                strictly_sorted(strings_view(names@)),
                forall|k: Seq<char>|
                    before.contains(k) <==> exists|u: int|
                        0 <= u < t && #[trigger] sv[u].contains_key(k),
                forall|k: Seq<char>|
                    strings_view(names@).contains(k) <==> (before.contains(k) || exists|q: int|
                        0 <= q < m && #[trigger] ev[q].name == k),
            decreases entries.len() - m,
        {
            let ghost prev = strings_view(names@);
            assert(forall|k: Seq<char>|
                prev.contains(k) <==> (before.contains(k) || exists|q: int|
                    0 <= q < m && #[trigger] ev[q].name == k));
            insert_name(&mut names, &entries[m].name);
            proof {
                assert(ev[m as int].name == entries@[m as int].name@);
                assert forall|k: Seq<char>|
                    strings_view(names@).contains(k) <==> (before.contains(k) || exists|q: int|
                        0 <= q < m + 1 && #[trigger] ev[q].name == k) by {
                    if k == ev[m as int].name {
                        assert(ev[m as int].name == k);
                    }
                    if exists|q: int| 0 <= q < m + 1 && #[trigger] ev[q].name == k {
                        let q = choose|q: int| 0 <= q < m + 1 && #[trigger] ev[q].name == k;
                        if q < m {
                            assert(prev.contains(k));
                        }
                    }
                    if prev.contains(k) {
                        assert(before.contains(k) || exists|q: int|
                            0 <= q < m && #[trigger] ev[q].name == k);
                    }
                }
            }
            m = m + 1;
        }
        proof {
            assert forall|k: Seq<char>|
                strings_view(names@).contains(k) <==> exists|u: int|
                    0 <= u < t + 1 && #[trigger] sv[u].contains_key(k) by {
                if exists|q: int| 0 <= q < ev.len() && #[trigger] ev[q].name == k {
                    let q = choose|q: int| 0 <= q < ev.len() && #[trigger] ev[q].name == k;
                    lemma_snapshot_has(ev, q);
                    assert(sv[t as int].contains_key(k));
                }
                if sv[t as int].contains_key(k) {
                    lemma_snapshot_key_source(ev, k);
                    let q = choose|q: int| 0 <= q < ev.len() && ev[q].name == k;
                    assert(ev[q].name == k);
                }
                if exists|u: int| 0 <= u < t + 1 && #[trigger] sv[u].contains_key(k) {
                    let u = choose|u: int| 0 <= u < t + 1 && #[trigger] sv[u].contains_key(k);
                    if u < t {
                        assert(before.contains(k));
                    }
                }
                if before.contains(k) {
                    let u = choose|u: int| 0 <= u < t && #[trigger] sv[u].contains_key(k);
                    assert(sv[u].contains_key(k));
                }
            }
        }
        t = t + 1;
    }
    proof {
        assert forall|k: Seq<char>|
            strings_view(names@).contains(k) <==> in_some_snapshot(sv, k) by {
            if in_some_snapshot(sv, k) {
                let u = choose|u: int| 0 <= u < sv.len() && #[trigger] sv[u].contains_key(k);
                assert(sv[u].contains_key(k));
            }
        }
    }
    names
}

/// The row of the timeline for `name`.
fn build_row(snaps: &[CatalogSnapshot], name: &String) -> (r: Dependency)
    ensures
        r@ == dependency_row(snapshots_view(snaps@), name@),
{
    let ghost sv = snapshots_view(snaps@);
    let mut versions: Vec<Option<String>> = Vec::new();
    let mut t: usize = 0;
    while t < snaps.len()
        invariant
            t <= snaps@.len(),
            sv == snapshots_view(snaps@),
            versions@.len() == t,
            forall|u: int|
                0 <= u < t ==> opt_view(#[trigger] versions@[u]) == version_in(sv[u], name@),
        decreases snaps.len() - t,
    {
        let v = match snaps[t].get(name) {
            Some((ver, _)) => Some(ver),
            None => None,
        };
        versions.push(v);
        t = t + 1;
    }
    let mut category: Option<String> = None;
    let mut u = snaps.len();
    while u > 0 && category.is_none()
        invariant
            u <= snaps@.len(),
            sv == snapshots_view(snaps@),
            category is None ==> forall|w: int| u <= w < sv.len() ==> !sv[w].contains_key(name@),
            category is Some ==> opt_view(category) == last_category(sv, name@),
        decreases u,
    {
        match snaps[u - 1].get(name) {
            Some((_, c)) => {
                proof {
                    lemma_last_category_found(sv, name@, u - 1);
                }
                category = Some(c);
            },
            None => {},
        }
        u = u - 1;
    }
    proof {
        if category is None {
            lemma_last_category_none(sv, name@);
        }
    }
    let r = Dependency { name: copy_string(name), category, versions };
    assert(r@.versions =~= dependency_row(sv, name@).versions);
    assert(r@.category == dependency_row(sv, name@).category);
    r
}

/// Build the timeline from one snapshot per tag.
pub fn build_drift(tags: &[String], snaps: &[CatalogSnapshot]) -> (r: DriftPayload)
    requires
        tags@.len() == snaps@.len(),
    ensures
        r@.tags == strings_view(tags@),
        is_timeline(snapshots_view(snaps@), r@.dependencies),
{
    let ghost sv = snapshots_view(snaps@);
    let names = collect_names(snaps);
    let ghost nv = strings_view(names@);
    let mut deps: Vec<Dependency> = Vec::new();
    let mut i: usize = 0;
    while i < names.len()
        invariant
            i <= names@.len(),
            nv == strings_view(names@),
            sv == snapshots_view(snaps@),
            deps@.len() == i,
            forall|j: int| 0 <= j < i ==> (#[trigger] deps@[j])@ == dependency_row(sv, nv[j]),
        decreases names.len() - i,
    {
        let d = build_row(snaps, &names[i]);
        deps.push(d);
        i = i + 1;
    }
    let mut tag_copy: Vec<String> = Vec::new();
    let mut k: usize = 0;
    while k < tags.len()
        invariant
            k <= tags@.len(),
            strings_view(tag_copy@) =~= strings_view(tags@).take(k as int),
        decreases tags.len() - k,
    {
        let ghost before = tag_copy@;
        tag_copy.push(copy_string(&tags[k]));
        assert(strings_view(tags@).take(k + 1) =~= strings_view(tags@).take(k as int).push(
            tags@[k as int]@,
        ));
        assert(strings_view(tag_copy@) =~= strings_view(before).push(tags@[k as int]@));
        k = k + 1;
    }
    let r = DriftPayload { tags: tag_copy, dependencies: deps };
    let ghost dv = r@.dependencies;
    assert(dv.map_values(|d: DependencyView| d.name) =~= nv);
    assert(r@.tags =~= strings_view(tags@));
    assert forall|j: int| 0 <= j < dv.len() implies in_some_snapshot(sv, #[trigger] dv[j].name)
        && dv[j] == dependency_row(sv, dv[j].name) by {
        assert(nv.contains(nv[j]));
    }
    assert forall|name: Seq<char>| in_some_snapshot(sv, name) implies exists|j: int|
        0 <= j < dv.len() && #[trigger] dv[j].name == name by {
        assert(nv.contains(name));
        let j = choose|j: int| 0 <= j < nv.len() && nv[j] == name;
        assert(dv[j].name == name);
    }
    r
}

/// Extract the drift timeline from the catalog text of each tag (`None`
/// where a tag had no catalog): each catalog's `[versions]` section is
/// parsed into a snapshot, and the timeline is built from the snapshots.
pub fn drift_from_catalogs(tags: &[String], catalogs: &[Option<String>]) -> (r: DriftPayload)
    requires
        tags@.len() == catalogs@.len(),
    ensures
        r@.tags == strings_view(tags@),
        is_timeline(
            catalogs@.map_values(|c: Option<String>| catalog_snapshot(opt_view(c))),
            r@.dependencies,
        ),
{
    let mut snaps: Vec<CatalogSnapshot> = Vec::new();
    let mut t: usize = 0;
    while t < catalogs.len()
        invariant
            t <= catalogs@.len(),
            snaps@.len() == t,
            forall|u: int|
                0 <= u < t ==> (#[trigger] snaps@[u])@ == catalog_snapshot(opt_view(catalogs@[u])),
        decreases catalogs.len() - t,
    {
        let snap = match &catalogs[t] {
            Some(content) => entries_to_snapshot(parse_versions(content.as_str())),
            None => CatalogSnapshot::empty(),
        };
        snaps.push(snap);
        t = t + 1;
    }
    let r = build_drift(tags, &snaps);
    assert(snapshots_view(snaps@) =~= catalogs@.map_values(
        |c: Option<String>| catalog_snapshot(opt_view(c)),
    ));
    r
}

} // verus!
