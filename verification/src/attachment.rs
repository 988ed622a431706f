//! Attachment URIs, and the upgrade of standalone attachment links to
//! attachment nodes.

use vstd::prelude::*;
use crate::json::{entry_views, lemma_array_view, lemma_object_view, views, JsonSpec, JsonValue};
use crate::strs::{chars_of, is_blank, string_from_chars, sub_chars, trim, trim_chars};
use crate::MAX_DEPTH;

verus! {

pub open spec fn is_hex_digit(c: char) -> bool {
    ('0' <= c && c <= '9') || ('a' <= c && c <= 'f') || ('A' <= c && c <= 'F')
}

/// The hyphenated form: 36 characters, hyphens at 8, 13, 18 and 23 and hex
/// digits elsewhere.
pub open spec fn hyphenated_uuid(s: Seq<char>) -> bool {
    &&& s.len() == 36
    &&& forall|i: int|
        0 <= i < 36 ==> if i == 8 || i == 13 || i == 18 || i == 23 {
            #[trigger] s[i] == '-'
        } else {
            is_hex_digit(s[i])
        }
}

/// `c` equals the lower-case ASCII character `t` up to ASCII case.
pub open spec fn ascii_ci_char(c: char, t: char) -> bool {
    c == t || ('a' <= t && t <= 'z' && c as u32 + 32 == t as u32)
}

/// The texts that `uuid::Uuid::parse_str` accepts: 32 hex digits; the
/// hyphenated form; the hyphenated form in braces; or `urn:uuid:`, in any
/// ASCII case, before the hyphenated form.
pub open spec fn uuid_syntax(s: Seq<char>) -> bool {
    ||| (s.len() == 32 && forall|i: int| 0 <= i < 32 ==> is_hex_digit(#[trigger] s[i]))
    ||| hyphenated_uuid(s)
    ||| (s.len() == 38 && s[0] == '{' && s[37] == '}' && hyphenated_uuid(s.subrange(1, 37)))
    ||| (s.len() == 45 && (forall|i: int| 0 <= i < 9 ==> ascii_ci_char(#[trigger] s[i], "urn:uuid:"@[i]))
        && hyphenated_uuid(s.skip(9)))
}

/// Asks `uuid::Uuid::parse_str` whether `s` is a UUID. Its parser works on
/// the UTF-8 bytes, and every byte it accepts is ASCII, so it accepts exactly
/// the texts that `uuid_syntax` describes character by character.
#[verifier::external_body]
fn parses_as_uuid(s: &str) -> (r: bool)
    ensures
        r == uuid_syntax(s@),
{
    uuid::Uuid::parse_str(s).is_ok()
}

/// The characters of `s` before its first `?` or `#`.
pub open spec fn before_query(s: Seq<char>) -> Seq<char>
    decreases s.len(),
{
    if s.len() == 0 || s[0] == '?' || s[0] == '#' {
        Seq::empty()
    } else {
        seq![s[0]] + before_query(s.drop_first())
    }
}

/// The attachment id that `uri` names under `scheme`: what follows the
/// scheme, up to any query or fragment, trimmed; none where the scheme is
/// empty, does not start `uri`, or leaves no id.
pub open spec fn spec_attachment_id(uri: Seq<char>, scheme: Seq<char>) -> Option<Seq<char>> {
    if scheme.len() == 0 || !scheme.is_prefix_of(uri) {
        None
    } else {
        let id = trim(before_query(uri.skip(scheme.len() as int)));
        if id.len() == 0 {
            None
        } else {
            Some(id)
        }
    }
}

proof fn lemma_before_query_step(s: Seq<char>, i: int)
    requires
        0 <= i < s.len(),
        forall|j: int| 0 <= j < i ==> s[j] != '?' && s[j] != '#',
        s[i] != '?' && s[i] != '#',
    ensures
        before_query(s.skip(i)) == seq![s[i]] + before_query(s.skip(i + 1)),
{
    assert(s.skip(i).drop_first() =~= s.skip(i + 1));
}

proof fn lemma_before_query_prefix(s: Seq<char>, i: int)
    requires
        0 <= i <= s.len(),
        forall|j: int| 0 <= j < i ==> s[j] != '?' && s[j] != '#',
    ensures
        before_query(s) == s.take(i) + before_query(s.skip(i)),
    decreases i,
{
    if i > 0 {
        lemma_before_query_prefix(s, i - 1);
        lemma_before_query_step(s, i - 1);
        assert(s.take(i - 1) + seq![s[i - 1]] =~= s.take(i));
    } else {
        assert(s.skip(0) =~= s);
    }
}

/// An attachment URI written as the scheme followed by an id reads back as
/// that id, for a non-empty scheme and an id that is not blank-padded and
/// holds no `?` or `#` (a UUID, for one).
pub proof fn lemma_attachment_uri_round_trip(scheme: Seq<char>, id: Seq<char>)
    requires
        scheme.len() > 0,
        id.len() > 0,
        trim(id) == id,
        forall|i: int| 0 <= i < id.len() ==> #[trigger] id[i] != '?' && id[i] != '#',
    ensures
        spec_attachment_id(scheme + id, scheme) == Some(id),
{
    let uri = scheme + id;
    assert(scheme.is_prefix_of(uri)) by {
        assert(uri.take(scheme.len() as int) =~= scheme);
    }
    assert(uri.skip(scheme.len() as int) =~= id);
    lemma_before_query_prefix(id, id.len() as int);
    assert(id.skip(id.len() as int).len() == 0);
    assert(id.take(id.len() as int) =~= id);
    assert(before_query(id) =~= id);
}

/// The attachment id that `uri` names under `attachment_uri_scheme`.
pub fn attachment_id_from_uri(uri: &str, attachment_uri_scheme: &str) -> (r: Option<String>)
    ensures
        match r {
            Some(id) => spec_attachment_id(uri@, attachment_uri_scheme@) == Some(id@),
            None => spec_attachment_id(uri@, attachment_uri_scheme@) is None,
        },
{
    let u = chars_of(uri);
    let p = chars_of(attachment_uri_scheme);
    if p.len() == 0 || p.len() > u.len() {
        return None;
    }
    let mut i: usize = 0;
    while i < p.len()
        invariant
            i <= p@.len() <= u@.len(),
            u@ == uri@,
            p@ == attachment_uri_scheme@,
            forall|j: int| 0 <= j < i ==> p@[j] == u@[j],
        decreases p.len() - i,
    {
        if p[i] != u[i] {
            assert(u@.subrange(0, p@.len() as int)[i as int] != p@[i as int]);
            return None;
        }
        i += 1;
    }
    assert(p@.is_prefix_of(u@));
    let rest = sub_chars(u.as_slice(), p.len(), u.len());
    let mut k: usize = 0;
    while k < rest.len() && rest[k] != '?' && rest[k] != '#'
        invariant
            k <= rest@.len(),
            forall|j: int| 0 <= j < k ==> rest@[j] != '?' && rest@[j] != '#',
        decreases rest.len() - k,
    {
        k += 1;
    }
    proof {
        lemma_before_query_prefix(rest@, k as int);
        if k < rest@.len() {
            assert(before_query(rest@.skip(k as int)) =~= Seq::empty());
        } else {
            assert(rest@.skip(k as int) =~= Seq::empty());
        }
        assert(rest@.take(k as int) + Seq::<char>::empty() =~= rest@.take(k as int));
    }
    let head = sub_chars(rest.as_slice(), 0, k);
    let id = trim_chars(head.as_slice());
    if id.len() == 0 {
        None
    } else {
        Some(string_from_chars(id.as_slice()))
    }
}

/// The attachment node for `id`, shown as `filename`.
pub open spec fn attachment_node(id: Seq<char>, filename: Seq<char>) -> JsonSpec {
    JsonSpec::Object(
        seq![
            ("type"@, JsonSpec::Str("attachment"@)),
            (
                "attrs"@,
                JsonSpec::Object(
                    seq![
                        ("attachmentId"@, JsonSpec::Str(id)),
                        ("filename"@, JsonSpec::Str(filename)),
                    ],
                ),
            ),
        ],
    )
}

/// The attachment node that `node` stands for: a paragraph whose only content
/// is one non-blank text carrying exactly one mark, a link whose href names a
/// UUID attachment under `scheme`; the text, trimmed, becomes the filename.
pub open spec fn spec_paragraph_as_attachment(node: JsonSpec, scheme: Seq<char>) -> Option<JsonSpec> {
    if node.node_type() != Some("paragraph"@) {
        None
    } else {
        match node.array_field("content"@) {
            Some(content) => if content.len() != 1 {
                None
            } else {
                let t = content[0];
                if t.node_type() != Some("text"@) {
                    None
                } else {
                    match (t.str_field("text"@), t.array_field("marks"@)) {
                        (Some(text), Some(marks)) => if trim(text).len() == 0 || marks.len() != 1
                            || marks[0].node_type() != Some("link"@) {
                            None
                        } else {
                            match marks[0].attr_str("href"@) {
                                Some(href) => match spec_attachment_id(href, scheme) {
                                    Some(id) => if uuid_syntax(id) {
                                        Some(attachment_node(id, trim(text)))
                                    } else {
                                        None
                                    },
                                    None => None,
                                },
                                None => None,
                            }
                        },
                        _ => None,
                    }
                }
            },
            None => None,
        }
    }
}

fn new_attachment_node(id: String, filename: String) -> (r: JsonValue)
    ensures
        r@ == attachment_node(id@, filename@),
{
    let mut attrs: Vec<(String, JsonValue)> = Vec::new();
    attrs.push(("attachmentId".to_owned(), JsonValue::String(id)));
    attrs.push(("filename".to_owned(), JsonValue::String(filename)));
    let mut es: Vec<(String, JsonValue)> = Vec::new();
    es.push(("type".to_owned(), JsonValue::from_str("attachment")));
    proof {
        lemma_object_view(attrs);
    }
    let ghost av = attrs@;
    es.push(("attrs".to_owned(), JsonValue::Object(attrs)));
    proof {
        lemma_object_view(es);
        assert(entry_views(av) =~= seq![
            ("attachmentId"@, JsonSpec::Str(id@)),
            ("filename"@, JsonSpec::Str(filename@)),
        ]);
        assert(entry_views(es@) =~= attachment_node(id@, filename@)->Object_0);
    }
    JsonValue::Object(es)
}

/// The attachment node that a paragraph stands for, if it stands for one.
fn paragraph_as_attachment_node(node: &JsonValue, scheme: &str) -> (r: Option<JsonValue>)
    ensures
        match r {
            Some(a) => spec_paragraph_as_attachment(node@, scheme@) == Some(a@),
            None => spec_paragraph_as_attachment(node@, scheme@) is None,
        },
{
    if !node.has_type("paragraph") {
        return None;
    }
    let content = match node.array_field("content") {
        Some(c) => c,
        None => return None,
    };
    if content.len() != 1 {
        return None;
    }
    let t = &content[0];
    assert(views(content@)[0] == t@);
    if !t.has_type("text") {
        return None;
    }
    let text = match t.str_field("text") {
        Some(s) => s,
        None => return None,
    };
    let marks = match t.array_field("marks") {
        Some(m) => m,
        None => return None,
    };
    let text_chars = chars_of(text.as_str());
    if is_blank(text_chars.as_slice()) || marks.len() != 1 {
        return None;
    }
    let link = &marks[0];
    assert(views(marks@)[0] == link@);
    if !link.has_type("link") {
        return None;
    }
    let href = match link.attr_str("href") {
        Some(h) => h,
        None => return None,
    };
    let id = match attachment_id_from_uri(href.as_str(), scheme) {
        Some(id) => id,
        None => return None,
    };
    if !parses_as_uuid(id.as_str()) {
        return None;
    }
    let filename = trim_chars(text_chars.as_slice());
    Some(new_attachment_node(id, string_from_chars(filename.as_slice())))
}

/// The object members of a node, each `content` array upgraded one level
/// deeper.
pub open spec fn upgraded_entries(es: Seq<(Seq<char>, JsonSpec)>, scheme: Seq<char>, depth: int) -> Seq<(Seq<char>, JsonSpec)>
    decreases MAX_DEPTH - depth, 0int,
{
    if depth >= MAX_DEPTH || depth < 0 {
        es
    } else {
        es.map_values(
            |e: (Seq<char>, JsonSpec)|
                if e.0 == "content"@ && e.1 is Array {
                    (e.0, JsonSpec::Array(spec_upgrade_nodes(e.1->Array_0, scheme, depth + 1)))
                } else {
                    e
                },
        )
    }
}

/// `node` with every `content` array upgraded one level deeper, then
/// replaced by the attachment node it stands for, if any.
pub open spec fn spec_upgrade_node(node: JsonSpec, scheme: Seq<char>, depth: int) -> JsonSpec
    decreases MAX_DEPTH - depth, 1int,
{
    if depth >= MAX_DEPTH || depth < 0 {
        node
    } else {
        let inner = match node {
            JsonSpec::Object(es) => JsonSpec::Object(upgraded_entries(es, scheme, depth)),
            _ => node,
        };
        match spec_paragraph_as_attachment(inner, scheme) {
            Some(a) => a,
            None => inner,
        }
    }
}

/// Each node upgraded, up to `MAX_DEPTH` levels; deeper nodes are left as
/// they are.
pub open spec fn spec_upgrade_nodes(nodes: Seq<JsonSpec>, scheme: Seq<char>, depth: int) -> Seq<JsonSpec>
    decreases MAX_DEPTH - depth, 2int,
{
    if depth >= MAX_DEPTH || depth < 0 {
        nodes
    } else {
        nodes.map_values(|n: JsonSpec| spec_upgrade_node(n, scheme, depth))
    }
}

fn upgrade_node(node: JsonValue, scheme: &str, depth: usize) -> (r: JsonValue)
    requires
        depth < MAX_DEPTH,
    ensures
        r@ == spec_upgrade_node(node@, scheme@, depth as int),
    decreases MAX_DEPTH - depth, 1int,
{
    let ghost node_view = node@;
    let inner = match node {
        JsonValue::Object(mut es) => {
            let ghost orig = entry_views(es@);
            let ghost target = upgraded_entries(orig, scheme@, depth as int);
            proof {
                lemma_object_view(es);
            }
            let mut j: usize = 0;
            while j < es.len()
                invariant
                    depth < MAX_DEPTH,
                    j <= es@.len() == orig.len() == target.len(),
                    target == upgraded_entries(orig, scheme@, depth as int),
                    forall|k: int| 0 <= k < j ==> #[trigger] entry_views(es@)[k] == target[k],
                    forall|k: int| j <= k < es@.len() ==> #[trigger] entry_views(es@)[k] == orig[k],
                decreases es.len() - j,
            {
                let ghost before = es@;
                assert(entry_views(before)[j as int] == orig[j as int]);
                if str_eq_content(&es[j].0) {
                    let mut taken: (String, JsonValue) = (String::new(), JsonValue::Null);
                    es.set_and_swap(j, &mut taken);
                    let (key, value) = taken;
                    match value {
                        JsonValue::Array(mut items) => {
                            proof {
                                lemma_array_view(items);
                            }
                            upgrade_links_at_depth(&mut items, scheme, depth + 1);
                            proof {
                                lemma_array_view(items);
                            }
                            es.set(j, (key, JsonValue::Array(items)));
                        },
                        other => {
                            es.set(j, (key, other));
                        },
                    }
                }
                proof {
                    assert forall|k: int| 0 <= k < es@.len() && k != j implies #[trigger] entry_views(es@)[k] == entry_views(before)[k] by {
                        assert(es@[k] == before[k]);
                    }
                }
                j += 1;
            }
            proof {
                assert(entry_views(es@) =~= target);
                lemma_object_view(es);
            }
            JsonValue::Object(es)
        },
        other => other,
    };
    assert(inner@ == match node_view {
        JsonSpec::Object(es) => JsonSpec::Object(upgraded_entries(es, scheme@, depth as int)),
        _ => node_view,
    });
    match paragraph_as_attachment_node(&inner, scheme) {
        Some(a) => a,
        None => inner,
    }
}

fn str_eq_content(s: &String) -> (r: bool)
    ensures
        r == (s@ == "content"@),
{
    crate::strs::str_eq(s.as_str(), "content")
}

/// Upgrades, to `MAX_DEPTH` levels, each standalone attachment link among
/// `nodes` to an attachment node.
pub fn upgrade_links_at_depth(nodes: &mut Vec<JsonValue>, scheme: &str, depth: usize)
    ensures
        views(final(nodes)@) == spec_upgrade_nodes(views(old(nodes)@), scheme@, depth as int),
    decreases MAX_DEPTH - depth, 2int,
{
    if depth >= MAX_DEPTH {
        return;
    }
    let ghost orig = views(nodes@);
    let mut i: usize = 0;
    while i < nodes.len()
        invariant
            depth < MAX_DEPTH,
            i <= nodes@.len() == orig.len(),
            forall|k: int| 0 <= k < i ==> #[trigger] views(nodes@)[k] == spec_upgrade_node(orig[k], scheme@, depth as int),
            forall|k: int| i <= k < nodes@.len() ==> #[trigger] views(nodes@)[k] == orig[k],
        decreases nodes.len() - i,
    {
        let ghost before = nodes@;
        assert(views(before)[i as int] == orig[i as int]);
        let mut taken = JsonValue::Null;
        nodes.set_and_swap(i, &mut taken);
        let upgraded = upgrade_node(taken, scheme, depth);
        nodes.set(i, upgraded);
        proof {
            assert forall|k: int| 0 <= k < nodes@.len() && k != i implies #[trigger] views(nodes@)[k] == views(before)[k] by {
                assert(nodes@[k] == before[k]);
            }
            assert(views(nodes@)[i as int] == nodes@[i as int]@);
        }
        i += 1;
    }
    assert(views(nodes@) =~= spec_upgrade_nodes(orig, scheme@, depth as int));
}

/// Upgrades each standalone attachment link among the top-level `nodes` and
/// their descendants to an attachment node.
pub fn upgrade_standalone_attachment_links(nodes: &mut Vec<JsonValue>, attachment_uri_scheme: &str)
    ensures
        views(final(nodes)@) == spec_upgrade_nodes(views(old(nodes)@), attachment_uri_scheme@, 0),
{
    upgrade_links_at_depth(nodes, attachment_uri_scheme, 0);
}


proof fn lemma_upgraded_entries_get(es: Seq<(Seq<char>, JsonSpec)>, scheme: Seq<char>, depth: int, k: Seq<char>)
    requires
        0 <= depth < MAX_DEPTH,
        k != "content"@,
    ensures
        crate::json::entries_get(upgraded_entries(es, scheme, depth), k) == crate::json::entries_get(es, k),
    decreases es.len(),
{
    let u = upgraded_entries(es, scheme, depth);
    if es.len() > 0 {
        assert(u[0].0 == es[0].0);
        if es[0].0 == k {
            assert(u[0] == es[0]);
        } else {
            assert(u.drop_first() =~= upgraded_entries(es.drop_first(), scheme, depth));
            lemma_upgraded_entries_get(es.drop_first(), scheme, depth, k);
        }
    }
}

/// Upgrading a node that is not a paragraph keeps every member but its
/// `content`.
pub proof fn lemma_upgrade_keeps_members(node: JsonSpec, scheme: Seq<char>, depth: int, k: Seq<char>)
    requires
        0 <= depth < MAX_DEPTH,
        node is Object,
        node.node_type() != Some("paragraph"@),
        k != "content"@,
    ensures
        spec_upgrade_node(node, scheme, depth).get(k) == node.get(k),
{
    reveal_strlit("type");
    reveal_strlit("content");
    let es = node->Object_0;
    assert("type"@ != "content"@) by {
        assert("type"@.len() == 4 && "content"@.len() == 7);
    }
    lemma_upgraded_entries_get(es, scheme, depth, "type"@);
    lemma_upgraded_entries_get(es, scheme, depth, k);
}

} // verus!
