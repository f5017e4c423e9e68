//! Embedding the JSON payload into the HTML report template.
//!
//! The template holds a `/*__DATA__*/null/*__END__*/` placeholder inside a
//! `<script>` tag. The JSON text replaces it, after every `</` in the JSON
//! has been written `<\/`, so that no `</script>` inside a string value can
//! close the script early.

use vstd::prelude::*;

use crate::text::{contains_seq, from_chars, has_prefix, replace_all, replace_chars, to_chars};

verus! {

/// The placeholder that the template holds where the payload goes.
pub open spec fn placeholder() -> Seq<char> {
    "/*__DATA__*/null/*__END__*/"@
}

/// `json` with every `</` written `<\/`.
pub open spec fn spec_escape_json(json: Seq<char>) -> Seq<char> {
    replace_all(json, "</"@, "<\\/"@)
}

/// The report: every placeholder of `template` replaced by the escaped JSON.
pub open spec fn spec_embed_json(template: Seq<char>, json: Seq<char>) -> Seq<char> {
    replace_all(template, placeholder(), spec_escape_json(json))
}

/// No `<` directly followed by `/`.
pub open spec fn no_close_tag(s: Seq<char>) -> bool {
    forall|i: int| 0 <= i < s.len() - 1 ==> !(#[trigger] s[i] == '<' && s[i + 1] == '/')
}

/// The first character of an escaped text.
proof fn lemma_escape_first(t: Seq<char>)
    requires
        t.len() > 0,
    ensures
        spec_escape_json(t).len() > 0,
        spec_escape_json(t)[0] == if has_prefix(t, "</"@) {
            '<'
        } else {
            t[0]
        },
{
    reveal_strlit("</");
    reveal_strlit("<\\/");
}

proof fn lemma_escape_no_close(s: Seq<char>)
    ensures
        no_close_tag(spec_escape_json(s)),
    decreases s.len(),
{
    reveal_strlit("</");
    reveal_strlit("<\\/");
    let pat = "</"@;
    let rep = "<\\/"@;
    if s.len() == 0 {
    } else if has_prefix(s, pat) {
        let r = spec_escape_json(s.skip(2));
        lemma_escape_no_close(s.skip(2));
        let out = rep + r;
        assert(spec_escape_json(s) == out);
        assert forall|i: int| 0 <= i < out.len() - 1 implies !(#[trigger] out[i] == '<' && out[i
            + 1] == '/') by {
            if i >= 3 {
                assert(out[i] == r[i - 3]);
                assert(out[i + 1] == r[i - 2]);
            } else {
                assert(rep[0] == '<' && rep[1] == '\\' && rep[2] == '/');
            }
        }
    } else {
        let t = s.drop_first();
        let r = spec_escape_json(t);
        lemma_escape_no_close(t);
        let out = seq![s[0]] + r;
        assert(spec_escape_json(s) == out);
        if t.len() > 0 {
            lemma_escape_first(t);
            if s[0] == '<' && s.len() >= 2 {
                assert(s[1] != '/') by {
                    if s[1] == '/' {
                        assert(s.take(2) =~= pat);
                    }
                }
            }
        }
        assert forall|i: int| 0 <= i < out.len() - 1 implies !(#[trigger] out[i] == '<' && out[i
            + 1] == '/') by {
            if i >= 1 {
                assert(out[i] == r[i - 1]);
                assert(out[i + 1] == r[i]);
            } else {
                assert(out[1] == r[0]);
            }
        }
    }
}

/// Escaped JSON never holds `</`: whatever the payload's strings contain,
/// the embedded data cannot close the `<script>` element.
pub proof fn escaped_json_has_no_close_tag(json: Seq<char>)
    ensures
        !contains_seq(spec_escape_json(json), "</"@),
{
    lemma_escape_no_close(json);
    reveal_strlit("</");
    let e = spec_escape_json(json);
    if contains_seq(e, "</"@) {
        let i = choose|i: int| 0 <= i <= e.len() - 2 && #[trigger] e.subrange(i, i + 2) == "</"@;
        assert(e.subrange(i, i + 2)[0] == '<');
        assert(e.subrange(i, i + 2)[1] == '/');
        assert(e[i + 1] == '/');
    }
}

/// Escape `</` sequences in JSON text as `<\/`.
pub fn escape_json(json: &str) -> (r: String)
    ensures
        r@ == spec_escape_json(json@),
{
    let s = to_chars(json);
    let pat = to_chars("</");
    let rep = to_chars("<\\/");
    proof {
        reveal_strlit("</");
    }
    let out = replace_chars(&s, &pat, &rep);
    from_chars(&out)
}

/// Inject the serialized payload into the report template: each
/// placeholder is replaced by the JSON with its `</` escaped.
pub fn embed_json(template: &str, json: &str) -> (r: String)
    ensures
        r@ == spec_embed_json(template@, json@),
{
    let escaped = escape_json(json);
    let t = to_chars(template);
    let pat = to_chars("/*__DATA__*/null/*__END__*/");
    let rep = to_chars(escaped.as_str());
    proof {
        reveal_strlit("/*__DATA__*/null/*__END__*/");
    }
    let out = replace_chars(&t, &pat, &rep);
    from_chars(&out)
}

} // verus!
