//! Choosing which tags the report covers: the tags that parse as semantic
//! versions (after dropping a leading `v`), in version order, the last
//! `last` of them (all where `last` is 0).

use vstd::prelude::*;

use crate::catalog::first_index;
use crate::drift::strings_view;
use crate::text::{from_chars, sub_chars, to_chars};

verus! {

/// Name of whether `semver::Version::parse` accepts `s`.
pub uninterp spec fn semver_valid(s: Seq<char>) -> bool;

/// Name of the order of the versions that `semver::Version::parse` makes of
/// `a` and `b`: `-1` (before), `0` (equal) or `1` (after).
pub uninterp spec fn semver_order(a: Seq<char>, b: Seq<char>) -> int;

/// A version number as semver reads one: decimal digits, without a
/// leading zero unless it is `0` itself.
pub open spec fn is_numeral(s: Seq<char>) -> bool {
    &&& s.len() > 0
    &&& forall|i: int| 0 <= i < s.len() ==> '0' <= #[trigger] s[i] <= '9'
    &&& s.len() > 1 ==> s[0] != '0'
}

/// The value of a decimal numeral.
pub open spec fn numeral_value(s: Seq<char>) -> nat
    decreases s.len(),
{
    if s.len() == 0 {
        0
    } else {
        numeral_value(s.drop_last()) * 10 + ((s.last() as int) - ('0' as int)) as nat
    }
}

/// A plain version `MAJOR.MINOR.PATCH`: three numerals that fit in a `u64`,
/// separated by dots, with no pre-release or build part, and its numbers.
pub open spec fn plain_version(s: Seq<char>) -> Option<(nat, nat, nat)> {
    match first_index(s, '.') {
        None => None,
        Some(i) => {
            let rest = s.skip(i + 1);
            match first_index(rest, '.') {
                None => None,
                Some(j) => {
                    let a = s.take(i);
                    let b = rest.take(j);
                    let c = rest.skip(j + 1);
                    if is_numeral(a) && is_numeral(b) && is_numeral(c) && numeral_value(a)
                        <= u64::MAX && numeral_value(b) <= u64::MAX && numeral_value(c)
                        <= u64::MAX {
                        Some((numeral_value(a), numeral_value(b), numeral_value(c)))
                    } else {
                        None
                    }
                },
            }
        },
    }
}

/// Semantic-version precedence of two plain versions: by major, then
/// minor, then patch number: `-1`, `0` or `1`.
pub open spec fn triple_order(x: (nat, nat, nat), y: (nat, nat, nat)) -> int {
    if x.0 != y.0 {
        if x.0 < y.0 {
            -1
        } else {
            1
        }
    } else if x.1 != y.1 {
        if x.1 < y.1 {
            -1
        } else {
            1
        }
    } else if x.2 != y.2 {
        if x.2 < y.2 {
            -1
        } else {
            1
        }
    } else {
        0
    }
}

/// Every `MAJOR.MINOR.PATCH` made of three numerals that fit in a `u64`
/// is a plain version with those numbers, `0` as a major number included.
pub proof fn numerals_make_plain_version(a: Seq<char>, b: Seq<char>, c: Seq<char>)
    requires
        is_numeral(a),
        is_numeral(b),
        is_numeral(c),
        numeral_value(a) <= u64::MAX,
        numeral_value(b) <= u64::MAX,
        numeral_value(c) <= u64::MAX,
    ensures
        plain_version(a + seq!['.'] + b + seq!['.'] + c) == Some(
            (numeral_value(a), numeral_value(b), numeral_value(c)),
        ),
{
    let s = a + seq!['.'] + b + seq!['.'] + c;
    assert(s[a.len() as int] == '.');
    assert forall|k: int| 0 <= k < a.len() implies s[k] != '.' by {
        assert(s[k] == a[k]);
        assert('0' <= a[k] <= '9');
    }
    crate::catalog::lemma_first_index(s, '.', a.len() as int);
    let rest = s.skip(a.len() as int + 1);
    assert(rest =~= b + seq!['.'] + c);
    assert(rest[b.len() as int] == '.');
    assert forall|k: int| 0 <= k < b.len() implies rest[k] != '.' by {
        assert(rest[k] == b[k]);
        assert('0' <= b[k] <= '9');
    }
    crate::catalog::lemma_first_index(rest, '.', b.len() as int);
    assert(s.take(a.len() as int) =~= a);
    assert(rest.take(b.len() as int) =~= b);
    assert(rest.skip(b.len() as int + 1) =~= c);
}

/// Whether `semver::Version::parse` accepts `s`. The contract claims that
/// the answer is the named function of the text, and that every plain
/// `MAJOR.MINOR.PATCH` version (`0.1.0` among them) is accepted.
#[verifier::external_body]
fn parses_as_semver(s: &str) -> (r: bool)
    ensures
        r == semver_valid(s@),
        plain_version(s@) is Some ==> r,
{
    semver::Version::parse(s).is_ok()
}

/// `Ord::cmp` of `semver::Version` on the two versions that
/// `semver::Version::parse` makes of `a` and `b` (the parses convert the
/// arguments), as `-1`, `0` or `1`. The contract claims that the order is
/// the named function of the two texts, and the antisymmetry that `Ord`
/// documents: swapping the arguments negates the result. It also claims
/// the transitivity that `Ord` documents, with the order just computed as
/// one link: where `a <= b`, every version text `c` with `c <= a` has
/// `c <= b`. For two plain versions, the order is by major, minor, then
/// patch number (`Version::new` leaves the pre-release and build parts
/// empty, and they compare equal).
#[verifier::external_body]
fn semver_precedence(a: &str, b: &str) -> (r: i8)
    requires
        semver_valid(a@),
        semver_valid(b@),
    ensures
        r == semver_order(a@, b@),
        -1 <= r <= 1,
        semver_order(b@, a@) == -r,
        forall|c: Seq<char>|
            semver_valid(c) && #[trigger] semver_order(c, a@) <= 0 && r <= 0 ==> semver_order(
                c,
                b@,
            ) <= 0,
        plain_version(a@) is Some && plain_version(b@) is Some ==> r == triple_order(
            plain_version(a@)->0,
            plain_version(b@)->0,
        ),
{
    match (semver::Version::parse(a), semver::Version::parse(b)) {
        (Ok(x), Ok(y)) => match x.cmp(&y) {
            std::cmp::Ordering::Less => -1,
            std::cmp::Ordering::Equal => 0,
            std::cmp::Ordering::Greater => 1,
        },
        _ => 0,
    }
}

/// The text of a tag that is read as a version: the tag without one
/// leading `v`.
pub open spec fn version_text(tag: Seq<char>) -> Seq<char> {
    if tag.len() > 0 && tag[0] == 'v' {
        tag.drop_first()
    } else {
        tag
    }
}

/// The order of two tags' versions: `-1`, `0` or `1`.
pub open spec fn tag_order(a: Seq<char>, b: Seq<char>) -> int {
    semver_order(version_text(a), version_text(b))
}

/// A tag whose version text is a plain version.
pub open spec fn is_plain_tag(tag: Seq<char>) -> bool {
    plain_version(version_text(tag)) is Some
}

/// The numbers of a plain tag's version.
pub open spec fn tag_triple(tag: Seq<char>) -> (nat, nat, nat) {
    plain_version(version_text(tag))->0
}

/// The tags of `s` are in increasing order of their plain versions.
pub open spec fn plain_sorted(s: Seq<Seq<char>>) -> bool {
    forall|i: int, j: int|
        0 <= i < j < s.len() ==> triple_order(tag_triple(#[trigger] s[i]), tag_triple(#[trigger] s[j]))
            <= 0
}

proof fn lemma_triple_order(x: (nat, nat, nat), y: (nat, nat, nat), z: (nat, nat, nat))
    ensures
        triple_order(y, x) == -triple_order(x, y),
        triple_order(x, y) <= 0 && triple_order(y, z) <= 0 ==> triple_order(x, z) <= 0,
{
}

/// A tag that reads as a semantic version.
pub open spec fn is_semver_tag(tag: Seq<char>) -> bool {
    semver_valid(version_text(tag))
}

/// The semver tags of `tags`, in their order.
pub open spec fn spec_semver_tags(tags: Seq<Seq<char>>) -> Seq<Seq<char>> {
    tags.filter(|t: Seq<char>| is_semver_tag(t))
}

/// `out` is `input` sorted by version, stably: `out[i] == input[p[i]]` for
/// a permutation `p`, every earlier tag's version is at most every later
/// one's, and tags of equal version keep their order from `input`.
pub open spec fn sorted_by_version_with(
    input: Seq<Seq<char>>,
    out: Seq<Seq<char>>,
    p: Seq<int>,
) -> bool {
    &&& out.len() == input.len()
    &&& p.len() == input.len()
    &&& forall|i: int| 0 <= i < p.len() ==> 0 <= #[trigger] p[i] < input.len()
    &&& forall|i: int| 0 <= i < out.len() ==> #[trigger] out[i] == input[p[i]]
    &&& forall|i: int, j: int| 0 <= i < j < p.len() ==> p[i] != p[j]
    &&& forall|i: int, j: int|
        0 <= i < j < out.len() ==> {
            let o = tag_order(#[trigger] out[i], #[trigger] out[j]);
            o <= 0 && (o == 0 ==> p[i] < p[j])
        }
}

pub open spec fn sorted_by_version(input: Seq<Seq<char>>, out: Seq<Seq<char>>) -> bool {
    exists|p: Seq<int>| sorted_by_version_with(input, out, p)
}

/// How many of `n` sorted tags the report keeps.
pub open spec fn kept(last: nat, n: nat) -> nat {
    if last == 0 || last > n {
        n
    } else {
        last
    }
}

/// The tag `input[j]` stands in `out` at a position `i` with `p[i] == j`.
pub open spec fn tag_kept(input: Seq<Seq<char>>, out: Seq<Seq<char>>, p: Seq<int>, j: int) -> bool {
    exists|i: int| 0 <= i < out.len() && p[i] == j && #[trigger] out[i] == input[j]
}

/// Sorting by version keeps every tag: each tag of the input stands in the
/// output, at a position that no other input tag takes.
pub proof fn sorting_keeps_every_tag(input: Seq<Seq<char>>, out: Seq<Seq<char>>, p: Seq<int>)
    requires
        sorted_by_version_with(input, out, p),
    ensures
        forall|j: int| 0 <= j < input.len() ==> #[trigger] tag_kept(input, out, p, j),
{
    let n = input.len() as int;
    assert(p.no_duplicates()) by {
        assert forall|a: int, b: int| 0 <= a < p.len() && 0 <= b < p.len() && a != b implies p[a]
            != p[b] by {
            if a > b {
                assert(p[b] != p[a]);
            }
        }
    }
    p.unique_seq_to_set();
    vstd::set_lib::lemma_int_range(0, n);
    let range = vstd::set_lib::set_int_range(0, n);
    assert(p.to_set().subset_of(range)) by {
        assert forall|x: int| p.to_set().contains(x) implies range.contains(x) by {
            let i = choose|i: int| 0 <= i < p.len() && p[i] == x;
            assert(0 <= p[i] < n);
        }
    }
    vstd::set_lib::lemma_subset_equality(p.to_set(), range);
    assert forall|j: int| 0 <= j < input.len() implies #[trigger] tag_kept(input, out, p, j) by {
        assert(range.contains(j));
        assert(p.to_set().contains(j));
        assert(p.contains(j));
        let i = choose|i: int| 0 <= i < p.len() && p[i] == j;
        assert(out[i] == input[p[i]]);
    }
}

/// The version order is antisymmetric on the tags of `input`, as `Ord`
/// documents.
pub open spec fn antisymmetric_on(input: Seq<Seq<char>>) -> bool {
    forall|a: int, b: int|
        0 <= a < input.len() && 0 <= b < input.len() ==> #[trigger] tag_order(input[a], input[b])
            == -tag_order(input[b], input[a])
}

proof fn lemma_sortings_agree_at(
    input: Seq<Seq<char>>,
    out1: Seq<Seq<char>>,
    p1: Seq<int>,
    out2: Seq<Seq<char>>,
    p2: Seq<int>,
    k: int,
)
    requires
        sorted_by_version_with(input, out1, p1),
        sorted_by_version_with(input, out2, p2),
        antisymmetric_on(input),
        0 <= k < input.len(),
        forall|m: int| 0 <= m < k ==> p1[m] == p2[m],
    ensures
        p1[k] == p2[k],
{
    let u = p1[k];
    let v = p2[k];
    if u != v {
        sorting_keeps_every_tag(input, out1, p1);
        sorting_keeps_every_tag(input, out2, p2);
        assert(tag_kept(input, out1, p1, v));
        let i1 = choose|i: int| 0 <= i < out1.len() && p1[i] == v && #[trigger] out1[i] == input[v];
        assert(tag_kept(input, out2, p2, u));
        let i2 = choose|i: int| 0 <= i < out2.len() && p2[i] == u && #[trigger] out2[i] == input[u];
        if i1 < k {
            assert(p2[i1] == v);
            assert(p2[i1] != p2[k]);
        }
        if i2 < k {
            assert(p1[i2] == u);
            assert(p1[i2] != p1[k]);
        }
        assert(i1 > k && i2 > k);
        assert(out1[k] == input[u]);
        assert(out2[k] == input[v]);
        let o1 = tag_order(out1[k], out1[i1]);
        let o2 = tag_order(out2[k], out2[i2]);
        assert(o1 <= 0 && (o1 == 0 ==> p1[k] < p1[i1]));
        assert(o2 <= 0 && (o2 == 0 ==> p2[k] < p2[i2]));
        assert(tag_order(input[u], input[v]) == -tag_order(input[v], input[u]));
    }
}

proof fn lemma_sortings_agree_upto(
    input: Seq<Seq<char>>,
    out1: Seq<Seq<char>>,
    p1: Seq<int>,
    out2: Seq<Seq<char>>,
    p2: Seq<int>,
    k: int,
)
    requires
        sorted_by_version_with(input, out1, p1),
        sorted_by_version_with(input, out2, p2),
        antisymmetric_on(input),
        0 <= k <= input.len(),
    ensures
        forall|m: int| 0 <= m < k ==> p1[m] == p2[m],
    decreases k,
{
    if k > 0 {
        lemma_sortings_agree_upto(input, out1, p1, out2, p2, k - 1);
        lemma_sortings_agree_at(input, out1, p1, out2, p2, k - 1);
    }
}

/// A stable sort by version is unique: two sortings of the same tags, where
/// the version order is antisymmetric on them, are the same sequence.
pub proof fn version_sorting_is_unique(
    input: Seq<Seq<char>>,
    out1: Seq<Seq<char>>,
    out2: Seq<Seq<char>>,
)
    requires
        sorted_by_version(input, out1),
        sorted_by_version(input, out2),
        antisymmetric_on(input),
    ensures
        out1 == out2,
{
    let p1 = choose|p: Seq<int>| sorted_by_version_with(input, out1, p);
    let p2 = choose|p: Seq<int>| sorted_by_version_with(input, out2, p);
    lemma_sortings_agree_upto(input, out1, p1, out2, p2, input.len() as int);
    assert forall|i: int| 0 <= i < out1.len() implies out1[i] == out2[i] by {
        assert(out1[i] == input[p1[i]]);
        assert(out2[i] == input[p2[i]]);
    }
    assert(out1 =~= out2);
}

/// Asking for at least as many tags as there are gives the same choice as
/// asking for all of them (`last == 0`): with the version order
/// antisymmetric on the semver tags, any two sortings of them agree, and
/// both keep every tag.
pub proof fn covering_last_is_all(
    st: Seq<Seq<char>>,
    sorted1: Seq<Seq<char>>,
    sorted2: Seq<Seq<char>>,
    last: nat,
)
    requires
        sorted_by_version(st, sorted1),
        sorted_by_version(st, sorted2),
        antisymmetric_on(st),
        last >= st.len(),
    ensures
        sorted1.skip(sorted1.len() - kept(last, sorted1.len())) == sorted2.skip(
            sorted2.len() - kept(0, sorted2.len()),
        ),
{
    version_sorting_is_unique(st, sorted1, sorted2);
    assert(sorted1.skip(0) =~= sorted1);
}

/// Of the sorted semver tags, the report keeps a non-empty tail: at most
/// `last` tags where `last` is not 0, and all of them where it is.
pub proof fn selection_is_nonempty_tail(sorted: Seq<Seq<char>>, last: nat)
    requires
        sorted.len() > 0,
    ensures
        ({
            let chosen = sorted.skip(sorted.len() - kept(last, sorted.len()));
            &&& chosen.len() > 0
            &&& last > 0 ==> chosen.len() <= last
            &&& last == 0 ==> chosen == sorted
            &&& chosen.len() > 0 ==> chosen.last() == sorted.last()
        }),
{
    let chosen = sorted.skip(sorted.len() - kept(last, sorted.len()));
    if last == 0 {
        assert(chosen =~= sorted);
    }
}

/// Why no tag can be chosen.
#[derive(Debug, PartialEq, Eq)]
pub enum TagSelectError {
    /// The repository has no tag at all.
    NoTags,
    /// Tags exist, but none parses as a semantic version.
    NoSemverTags {
        total: usize,
    },
}

/// The tags a report covers.
#[derive(Debug)]
pub struct TagSelection {
    /// How many tags parse as semantic versions.
    pub semver_count: usize,
    /// The chosen tags, oldest version first.
    pub tags: Vec<String>,
}

/// The tag without one leading `v`.
pub fn strip_v(tag: &str) -> (r: String)
    ensures
        r@ == version_text(tag@),
{
    let c = to_chars(tag);
    if c.len() > 0 && c[0] == 'v' {
        let rest = sub_chars(&c, 1, c.len());
        assert(rest@ =~= c@.drop_first());
        from_chars(&rest)
    } else {
        from_chars(&c)
    }
}

/// Whether a tag reads as a semantic version.
pub fn is_semver(tag: &str) -> (r: bool)
    ensures
        r == is_semver_tag(tag@),
        is_plain_tag(tag@) ==> r,
{
    let t = strip_v(tag);
    parses_as_semver(t.as_str())
}

/// The tags that read as semantic versions, in their order.
pub fn semver_tags(tags: &[String]) -> (r: Vec<String>)
    ensures
        strings_view(r@) == spec_semver_tags(strings_view(tags@)),
        forall|i: int|
            0 <= i < tags@.len() && is_plain_tag(#[trigger] tags@[i]@) ==> is_semver_tag(tags@[i]@),
{
    let ghost tv = strings_view(tags@);
    let mut r: Vec<String> = Vec::new();
    let mut i: usize = 0;
    while i < tags.len()
        invariant
            i <= tags@.len(),
            tv == strings_view(tags@),
            forall|k: int|
                0 <= k < i && is_plain_tag(#[trigger] tags@[k]@) ==> is_semver_tag(tags@[k]@),
            strings_view(r@) == tv.take(i as int).filter(|t: Seq<char>| is_semver_tag(t)),
        decreases tags.len() - i,
    {
        proof {
            reveal_with_fuel(Seq::<_>::filter, 1);
            assert(tv.take(i + 1).drop_last() =~= tv.take(i as int));
        }
        if is_semver(tags[i].as_str()) {
            let ghost before = r@;
            r.push(tags[i].clone());
            assert(strings_view(r@) =~= strings_view(before).push(tv[i as int]));
        }
        i = i + 1;
    }
    assert(tv.take(tags@.len() as int) =~= tv);
    r
}

/// Order of two semver tags' versions.
fn tag_precedence(a: &String, b: &String) -> (r: i8)
    requires
        is_semver_tag(a@),
        is_semver_tag(b@),
    ensures
        r == tag_order(a@, b@),
        -1 <= r <= 1,
        tag_order(b@, a@) == -r,
        forall|c: Seq<char>|
            is_semver_tag(c) && #[trigger] tag_order(c, a@) <= 0 && r <= 0 ==> tag_order(c, b@)
                <= 0,
        is_plain_tag(a@) && is_plain_tag(b@) ==> r == triple_order(tag_triple(a@), tag_triple(b@)),
{
    let ka = strip_v(a.as_str());
    let kb = strip_v(b.as_str());
    semver_precedence(ka.as_str(), kb.as_str())
}

/// Sort semver tags by version, stably (tags of equal version keep their
/// order).
pub fn sort_by_version(tags: &[String]) -> (r: Vec<String>)
    requires
        forall|i: int| 0 <= i < tags@.len() ==> is_semver_tag(#[trigger] tags@[i]@),
    ensures
        sorted_by_version(strings_view(tags@), strings_view(r@)),
        (forall|i: int| 0 <= i < tags@.len() ==> is_plain_tag(#[trigger] tags@[i]@)) ==> plain_sorted(
            strings_view(r@),
        ),
{
    let ghost input = strings_view(tags@);
    let ghost all_plain = forall|i: int| 0 <= i < tags@.len() ==> is_plain_tag(#[trigger] tags@[i]@);
    let mut out: Vec<String> = Vec::new();
    let ghost mut p: Seq<int> = Seq::empty();
    let mut t: usize = 0;
    while t < tags.len()
        invariant
            t <= tags@.len(),
            input == strings_view(tags@),
            forall|i: int| 0 <= i < tags@.len() ==> is_semver_tag(#[trigger] tags@[i]@),
            sorted_by_version_with(input.take(t as int), strings_view(out@), p),
            forall|k: int| 0 <= k < out@.len() ==> is_semver_tag(#[trigger] out@[k]@),
            all_plain == forall|i: int| 0 <= i < tags@.len() ==> is_plain_tag(#[trigger] tags@[i]@),
            all_plain ==> forall|k: int| 0 <= k < out@.len() ==> is_plain_tag(#[trigger] out@[k]@),
            all_plain ==> plain_sorted(strings_view(out@)),
        decreases tags.len() - t,
    {
        let x = &tags[t];
        let n = out.len();
        let mut j = n;
        let mut placed = false;
        while j > 0 && !placed
            invariant
                j <= n == out@.len(),
                t < tags@.len(),
                x == tags@[t as int],
                input == strings_view(tags@),
                forall|i: int| 0 <= i < tags@.len() ==> is_semver_tag(#[trigger] tags@[i]@),
                sorted_by_version_with(input.take(t as int), strings_view(out@), p),
                forall|k: int| 0 <= k < out@.len() ==> is_semver_tag(#[trigger] out@[k]@),
                forall|k: int| j <= k < n ==> tag_order(x@, #[trigger] out@[k]@) < 0,
                placed ==> j > 0 && tag_order(out@[j - 1]@, x@) <= 0,
                all_plain == forall|i: int|
                    0 <= i < tags@.len() ==> is_plain_tag(#[trigger] tags@[i]@),
                all_plain ==> forall|k: int| 0 <= k < out@.len() ==> is_plain_tag(#[trigger] out@[k]@),
                all_plain ==> plain_sorted(strings_view(out@)),
                all_plain ==> forall|k: int|
                    j <= k < n ==> triple_order(tag_triple(x@), tag_triple(#[trigger] out@[k]@)) < 0,
                placed && all_plain ==> triple_order(tag_triple(out@[j - 1]@), tag_triple(x@)) <= 0,
                placed ==> forall|c: Seq<char>|
                    is_semver_tag(c) && #[trigger] tag_order(c, out@[j - 1]@) <= 0 ==> tag_order(
                        c,
                        x@,
                    ) <= 0,
            decreases j + if placed {
                0int
            } else {
                1int
            },
        {
            let r = tag_precedence(&out[j - 1], x);
            proof {
                if all_plain {
                    assert(is_plain_tag(out@[j - 1]@));
                    assert(is_plain_tag(tags@[t as int]@));
                    lemma_triple_order(tag_triple(out@[j - 1]@), tag_triple(x@), tag_triple(x@));
                }
            }
            if r > 0 {
                j = j - 1;
            } else {
                placed = true;
            }
        }
        proof {
            let ov = strings_view(out@);
            let prev = input.take(t as int);
            let next = input.take(t + 1);
            let ghost np = p.insert(j as int, t as int);
            let nov = ov.insert(j as int, x@);
            assert forall|i: int| 0 <= i < prev.len() implies next[i] == prev[i] by {}
            assert(next[t as int] == x@);
            assert forall|k: int| 0 <= k < ov.len() implies ov[k] == out@[k]@ && is_semver_tag(
                #[trigger] ov[k],
            ) by {
                assert(is_semver_tag(out@[k]@));
            }
            assert(sorted_by_version_with(next, nov, np)) by {
                assert forall|i: int| 0 <= i < np.len() implies 0 <= #[trigger] np[i] < next.len() by {
                    if i < j {
                    } else if i > j {
                        assert(np[i] == p[i - 1]);
                    }
                }
                assert forall|i: int| 0 <= i < nov.len() implies #[trigger] nov[i] == next[np[i]] by {
                    if i < j {
                        assert(nov[i] == ov[i]);
                        assert(ov[i] == prev[p[i]]);
                    } else if i > j {
                        assert(nov[i] == ov[i - 1]);
                        assert(ov[i - 1] == prev[p[i - 1]]);
                    }
                }
                assert forall|a: int, b: int| 0 <= a < b < np.len() implies np[a] != np[b] by {
                    if a < j && b < j {
                    } else if a < j && b == j {
                    } else if a < j && b > j {
                        assert(np[b] == p[b - 1]);
                    } else if a == j {
                        assert(np[b] == p[b - 1]);
                    } else {
                        assert(np[a] == p[a - 1]);
                        assert(np[b] == p[b - 1]);
                    }
                }
                assert forall|a: int, b: int| 0 <= a < b < nov.len() implies {
                    let o = tag_order(#[trigger] nov[a], #[trigger] nov[b]);
                    o <= 0 && (o == 0 ==> np[a] < np[b])
                } by {
                    if b < j {
                        assert(nov[a] == ov[a] && nov[b] == ov[b]);
                        assert(tag_order(ov[a], ov[b]) <= 0);
                    } else if b == j {
                        assert(nov[a] == ov[a] && nov[b] == x@);
                        assert(np[a] == p[a]);
                        assert(0 <= p[a] < t);
                        if a < j - 1 {
                            assert(tag_order(ov[a], ov[j - 1]) <= 0);
                            assert(is_semver_tag(ov[a]));
                        }
                    } else if a == j {
                        assert(nov[a] == x@ && nov[b] == ov[b - 1]);
                        assert(tag_order(x@, out@[b - 1]@) < 0);
                    } else if a < j {
                        assert(nov[a] == ov[a] && nov[b] == ov[b - 1]);
                        assert(tag_order(ov[a], ov[b - 1]) <= 0);
                    } else {
                        assert(nov[a] == ov[a - 1] && nov[b] == ov[b - 1]);
                        assert(tag_order(ov[a - 1], ov[b - 1]) <= 0);
                    }
                }
            }
            if all_plain {
                assert(is_plain_tag(x@)) by {
                    assert(is_plain_tag(tags@[t as int]@));
                }
                assert(plain_sorted(nov)) by {
                    assert forall|a: int, b: int| 0 <= a < b < nov.len() implies triple_order(
                        tag_triple(#[trigger] nov[a]),
                        tag_triple(#[trigger] nov[b]),
                    ) <= 0 by {
                        if b < j {
                            assert(nov[a] == ov[a] && nov[b] == ov[b]);
                        } else if b == j {
                            assert(nov[a] == ov[a] && nov[b] == x@);
                            if a < j - 1 {
                                assert(triple_order(tag_triple(ov[a]), tag_triple(ov[j - 1])) <= 0);
                                lemma_triple_order(
                                    tag_triple(ov[a]),
                                    tag_triple(ov[j - 1]),
                                    tag_triple(x@),
                                );
                            }
                        } else if a == j {
                            assert(nov[a] == x@ && nov[b] == ov[b - 1]);
                            assert(triple_order(tag_triple(x@), tag_triple(out@[b - 1]@)) < 0);
                        } else if a < j {
                            assert(nov[a] == ov[a] && nov[b] == ov[b - 1]);
                        } else {
                            assert(nov[a] == ov[a - 1] && nov[b] == ov[b - 1]);
                        }
                    }
                }
            }
            p = np;
        }
        let ghost before = out@;
        out.insert(j, x.clone());
        assert(strings_view(out@) =~= strings_view(before).insert(j as int, x@));
        assert forall|k: int| 0 <= k < out@.len() implies is_semver_tag(#[trigger] out@[k]@) && (
        all_plain ==> is_plain_tag(out@[k]@)) by {
            if k < j {
                assert(out@[k] == before[k]);
            } else if k > j {
                assert(out@[k] == before[k - 1]);
            } else if all_plain {
                assert(is_plain_tag(tags@[t as int]@));
            }
        }
        t = t + 1;
    }
    assert(input.take(tags@.len() as int) =~= input);
    out
}

/// Choose the tags a report covers: the tags that parse as semantic
/// versions (a leading `v` dropped), sorted by version, and of those the
/// last `last` (all of them where `last` is 0 or more than there are).
pub fn select_tags(raw: &[String], last: usize) -> (r: Result<TagSelection, TagSelectError>)
    ensures
        r matches Err(TagSelectError::NoTags) <==> raw@.len() == 0,
        r matches Err(TagSelectError::NoSemverTags { .. }) <==> (raw@.len() > 0
            && spec_semver_tags(strings_view(raw@)).len() == 0),
        r matches Err(TagSelectError::NoSemverTags { total }) ==> total == raw@.len(),
        (exists|i: int| 0 <= i < raw@.len() && is_plain_tag(#[trigger] raw@[i]@)) ==> !(r matches Err(
            TagSelectError::NoSemverTags { .. },
        )),
        r matches Ok(sel) ==> (forall|k: int|
            0 <= k < spec_semver_tags(strings_view(raw@)).len() ==> is_plain_tag(
                #[trigger] spec_semver_tags(strings_view(raw@))[k],
            )) ==> plain_sorted(strings_view(sel.tags@)),
        r matches Ok(sel) ==> {
            let st = spec_semver_tags(strings_view(raw@));
            &&& sel.semver_count == st.len()
            &&& exists|sorted: Seq<Seq<char>>|
                sorted_by_version(st, sorted) && strings_view(sel.tags@) == sorted.skip(
                    sorted.len() - kept(last as nat, sorted.len()),
                )
        },
{
    if raw.len() == 0 {
        return Err(TagSelectError::NoTags);
    }
    let st = semver_tags(raw);
    proof {
        if exists|i: int| 0 <= i < raw@.len() && is_plain_tag(#[trigger] raw@[i]@) {
            let i = choose|i: int| 0 <= i < raw@.len() && is_plain_tag(#[trigger] raw@[i]@);
            assert(is_semver_tag(raw@[i]@));
            assert(strings_view(raw@)[i] == raw@[i]@);
            strings_view(raw@).lemma_filter_contains(|t: Seq<char>| is_semver_tag(t), i);
            assert(strings_view(st@).len() > 0);
        }
    }
    if st.len() == 0 {
        return Err(TagSelectError::NoSemverTags { total: raw.len() });
    }
    proof {
        assert forall|i: int| 0 <= i < st@.len() implies is_semver_tag(#[trigger] st@[i]@) by {
            let sv = strings_view(st@);
            assert(sv[i] == st@[i]@);
            strings_view(raw@).lemma_filter_pred(|t: Seq<char>| is_semver_tag(t), i);
        }
    }
    let ghost stv = spec_semver_tags(strings_view(raw@));
    proof {
        if forall|k: int| 0 <= k < stv.len() ==> is_plain_tag(#[trigger] stv[k]) {
            assert forall|i: int| 0 <= i < st@.len() implies is_plain_tag(#[trigger] st@[i]@) by {
                assert(strings_view(st@)[i] == st@[i]@);
                assert(is_plain_tag(stv[i]));
            }
        }
    }
    let sorted = sort_by_version(&st);
    let n = sorted.len();
    let keep = if last == 0 || last > n {
        n
    } else {
        last
    };
    let mut tags: Vec<String> = Vec::new();
    let mut i = n - keep;
    while i < n
        invariant
            keep <= n,
            n - keep <= i <= n == sorted@.len(),
            strings_view(tags@) =~= strings_view(sorted@).subrange((n - keep) as int, i as int),
        decreases n - i,
    {
        let ghost before = tags@;
        tags.push(sorted[i].clone());
        assert(strings_view(tags@) =~= strings_view(before).push(sorted@[i as int]@));
        assert(strings_view(sorted@).subrange((n - keep) as int, i + 1) =~= strings_view(
            sorted@,
        ).subrange((n - keep) as int, i as int).push(sorted@[i as int]@));
        i = i + 1;
    }
    assert(strings_view(sorted@).subrange((n - keep) as int, n as int) =~= strings_view(sorted@).skip(
        (n - keep) as int,
    ));
    proof {
        if forall|k: int| 0 <= k < stv.len() ==> is_plain_tag(#[trigger] stv[k]) {
            let sv = strings_view(sorted@);
            let tv = strings_view(tags@);
            assert(plain_sorted(sv));
            assert forall|a: int, b: int| 0 <= a < b < tv.len() implies triple_order(
                tag_triple(#[trigger] tv[a]),
                tag_triple(#[trigger] tv[b]),
            ) <= 0 by {
                assert(tv[a] == sv[(n - keep) + a]);
                assert(tv[b] == sv[(n - keep) + b]);
            }
        }
    }
    Ok(TagSelection { semver_count: st.len(), tags })
}

} // verus!
