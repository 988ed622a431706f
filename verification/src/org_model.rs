//! The ProseMirror document that Org-mode text describes, stated as one
//! step per line over what the importer holds between lines.

use vstd::prelude::*;
use vstd::utf8::{decode_utf8, encode_utf8, is_char_boundary};
use crate::attachment::spec_upgrade_nodes;
use crate::json::{spec_text_node, JsonSpec};
use crate::md_blocks::leading_count;
use crate::md_model::{doc_of, paragraph_of, single, typed};
use crate::org_inline::spec_parse_org_inline;
use crate::org_text::{
    bar_trimmed,
    line_starts_structure,
    ordered_marker,
    row_cells,
    source_body_line,
    table_separator,
    text_lines,
    unescaped_line,
    unicode_uppercase,
};
use crate::strs::{trim, trim_end};

verus! {

/// The kind of list that consecutive list lines build.
#[derive(PartialEq, Eq, Structural, Clone, Copy)]
pub enum OrgListKind {
    Bullet,
    Ordered,
    Task,
}

/// A list being read: its kind, its items, and its first number.
#[verifier::ext_equal]
pub struct ListModel {
    pub kind: OrgListKind,
    pub items: Seq<JsonSpec>,
    pub order_start: i64,
}

/// A table row being read: each cell's inline content, and whether a rule
/// line made it a header row.
#[verifier::ext_equal]
pub struct RowModel {
    pub cells: Seq<Seq<JsonSpec>>,
    pub is_header: bool,
}

/// What the importer holds between lines.
#[verifier::ext_equal]
pub struct ImportModel {
    pub doc: Seq<JsonSpec>,
    pub in_src: bool,
    pub src_language: Seq<char>,
    pub src_content: Seq<char>,
    pub in_quote: bool,
    pub quote: Seq<JsonSpec>,
    pub list: Option<ListModel>,
    pub table: Option<Seq<RowModel>>,
}

pub open spec fn content_of(t: Seq<char>, content: Seq<JsonSpec>) -> JsonSpec {
    JsonSpec::Object(seq![("type"@, JsonSpec::Str(t)), ("content"@, JsonSpec::Array(content))])
}

pub open spec fn int_json(n: i64) -> JsonSpec {
    if n >= 0 {
        JsonSpec::PosInt(n as u64)
    } else {
        JsonSpec::NegInt(n)
    }
}

pub open spec fn list_type(k: OrgListKind) -> Seq<char> {
    match k {
        OrgListKind::Bullet => "bulletList"@,
        OrgListKind::Ordered => "orderedList"@,
        OrgListKind::Task => "taskList"@,
    }
}

/// The node a finished list becomes; an ordered list not starting at one
/// keeps its first number.
pub open spec fn list_node(l: ListModel) -> JsonSpec {
    let n = content_of(list_type(l.kind), l.items);
    if l.kind == OrgListKind::Ordered && l.order_start != 1 {
        n.with_member("attrs"@, single("order"@, int_json(l.order_start)))
    } else {
        n
    }
}

pub open spec fn cell_node(is_header: bool, content: Seq<JsonSpec>) -> JsonSpec {
    content_of(
        if is_header {
            "tableHeader"@
        } else {
            "tableCell"@
        },
        content,
    )
}

pub open spec fn row_node(r: RowModel) -> JsonSpec {
    let n = content_of("tableRow"@, r.cells.map_values(|c: Seq<JsonSpec>| cell_node(r.is_header, c)));
    if r.is_header {
        n.with_member("attrs"@, single("header"@, JsonSpec::Bool(true)))
    } else {
        n
    }
}

pub open spec fn table_node(rows: Seq<RowModel>) -> JsonSpec {
    content_of("table"@, rows.map_values(|r: RowModel| row_node(r)))
}

pub open spec fn with_doc(s: ImportModel, doc: Seq<JsonSpec>) -> ImportModel {
    ImportModel {
        doc,
        in_src: s.in_src,
        src_language: s.src_language,
        src_content: s.src_content,
        in_quote: s.in_quote,
        quote: s.quote,
        list: s.list,
        table: s.table,
    }
}

pub open spec fn with_list(s: ImportModel, list: Option<ListModel>) -> ImportModel {
    ImportModel {
        doc: s.doc,
        in_src: s.in_src,
        src_language: s.src_language,
        src_content: s.src_content,
        in_quote: s.in_quote,
        quote: s.quote,
        list,
        table: s.table,
    }
}

pub open spec fn with_table(s: ImportModel, table: Option<Seq<RowModel>>) -> ImportModel {
    ImportModel {
        doc: s.doc,
        in_src: s.in_src,
        src_language: s.src_language,
        src_content: s.src_content,
        in_quote: s.in_quote,
        quote: s.quote,
        list: s.list,
        table,
    }
}

/// A pending list emitted as one node.
pub open spec fn flush_list(s: ImportModel) -> ImportModel {
    match s.list {
        Some(l) => with_list(with_doc(s, s.doc.push(list_node(l))), None),
        None => s,
    }
}

/// Pending table rows emitted as one node.
pub open spec fn flush_table(s: ImportModel) -> ImportModel {
    match s.table {
        Some(rows) => if rows.len() == 0 {
            with_table(s, None)
        } else {
            with_table(with_doc(s, s.doc.push(table_node(rows))), None)
        },
        None => s,
    }
}

pub open spec fn flush_pending(s: ImportModel) -> ImportModel {
    flush_table(flush_list(s))
}

/// An item joins the pending list of its kind; a list of another kind is
/// emitted first.
pub open spec fn push_item(s: ImportModel, kind: OrgListKind, item: JsonSpec, order_start: i64) -> ImportModel {
    match s.list {
        Some(l) => if l.kind == kind {
            with_list(s, Some(ListModel { kind, items: l.items.push(item), order_start: l.order_start }))
        } else {
            with_list(flush_list(s), Some(ListModel { kind, items: seq![item], order_start }))
        },
        None => with_list(s, Some(ListModel { kind, items: seq![item], order_start })),
    }
}

/// A list item holding one paragraph of `text`'s inline content.
pub open spec fn item_node(t: Seq<char>, text: Seq<char>, checked: Option<bool>) -> JsonSpec {
    let n = content_of(t, seq![paragraph_of(spec_parse_org_inline(text))]);
    match checked {
        Some(c) => n.with_member("attrs"@, single("checked"@, JsonSpec::Bool(c))),
        None => n,
    }
}

/// The language after `#+BEGIN_SRC` on a trimmed line.
pub open spec fn begin_src_language(trimmed: Seq<char>) -> Seq<char> {
    let b = encode_utf8(trimmed);
    if 11 <= b.len() && is_char_boundary(b, 11) && is_char_boundary(b, b.len() as int) {
        trim(decode_utf8(b.subrange(11, b.len() as int)))
    } else {
        Seq::empty()
    }
}

pub open spec fn code_block_node(content: Seq<char>, language: Seq<char>) -> JsonSpec {
    let n = content_of("codeBlock"@, seq![spec_text_node(trim_end(content), Seq::empty())]);
    if language.len() > 0 {
        n.with_member("attrs"@, single("language"@, JsonSpec::Str(language)))
    } else {
        n
    }
}

/// Whether a trimmed line is a heading: stars, then a space.
pub open spec fn is_heading_line(t: Seq<char>) -> bool {
    let n = leading_count(t, '*') as int;
    t.len() > 0 && t[0] == '*' && n > 0 && n < t.len() && t[n] == ' '
}

pub open spec fn heading_node(t: Seq<char>) -> JsonSpec {
    let n = leading_count(t, '*') as int;
    let level: u64 = if n < 6 {
        n as u64
    } else {
        6
    };
    content_of("heading"@, spec_parse_org_inline(trim(t.subrange(n, t.len() as int)))).with_member(
        "attrs"@,
        single("level"@, JsonSpec::PosInt(level)),
    )
}

pub open spec fn is_table_line(t: Seq<char>) -> bool {
    t.len() > 0 && t[0] == '|' && t.last() == '|'
}

/// The pending rows, all made header rows.
pub open spec fn all_header(rows: Seq<RowModel>) -> Seq<RowModel> {
    rows.map_values(|r: RowModel| RowModel { cells: r.cells, is_header: true })
}

pub open spec fn row_of(t: Seq<char>) -> RowModel {
    RowModel {
        cells: row_cells(bar_trimmed(t)).map_values(|c: Seq<char>| spec_parse_org_inline(trim(c))),
        is_header: false,
    }
}

/// A table line: a rule line makes the rows so far header rows; any other
/// line adds a row.
pub open spec fn table_line_step(s: ImportModel, t: Seq<char>) -> ImportModel {
    let s1 = flush_list(s);
    if table_separator(t) {
        match s1.table {
            Some(rows) => with_table(s1, Some(all_header(rows))),
            None => s1,
        }
    } else {
        let rows = match s1.table {
            Some(rows) => rows,
            None => Seq::empty(),
        };
        with_table(s1, Some(rows.push(row_of(t))))
    }
}

/// A line of the form `- text`, `- [ ] text` or `- [X] text`.
pub open spec fn bullet_line_step(s: ImportModel, t: Seq<char>) -> ImportModel {
    let s1 = flush_table(s);
    let r = t.subrange(2, t.len() as int);
    if "[ ] "@.is_prefix_of(r) {
        push_item(s1, OrgListKind::Task, item_node("taskItem"@, r.subrange(4, r.len() as int), Some(false)), 1)
    } else if "[X] "@.is_prefix_of(r) || "[x] "@.is_prefix_of(r) {
        push_item(s1, OrgListKind::Task, item_node("taskItem"@, r.subrange(4, r.len() as int), Some(true)), 1)
    } else {
        push_item(s1, OrgListKind::Bullet, item_node("listItem"@, r, None), 1)
    }
}

/// What the importer holds after one line outside source and quote blocks
/// that opens neither.
pub open spec fn body_line_step(s: ImportModel, t: Seq<char>) -> ImportModel {
    if is_heading_line(t) {
        let s1 = flush_pending(s);
        with_doc(s1, s1.doc.push(heading_node(t)))
    } else if "-----"@.is_prefix_of(t) {
        let s1 = flush_pending(s);
        with_doc(s1, s1.doc.push(typed("horizontalRule"@)))
    } else if "- "@.is_prefix_of(t) {
        bullet_line_step(s, t)
    } else if ordered_marker(t) is Some {
        let (n, k) = ordered_marker(t).unwrap();
        push_item(flush_table(s), OrgListKind::Ordered, item_node("listItem"@, t.subrange(k, t.len() as int), None), n)
    } else if is_table_line(t) {
        table_line_step(s, t)
    } else {
        let s1 = flush_pending(s);
        if t.len() > 0 {
            let p = match unescaped_line(t) {
                Some(v) => v,
                None => t,
            };
            with_doc(s1, s1.doc.push(paragraph_of(spec_parse_org_inline(p))))
        } else {
            s1
        }
    }
}

/// What the importer holds after one line.
pub open spec fn org_line_step(s: ImportModel, line: Seq<char>) -> ImportModel {
    let t = trim(line);
    let upper = unicode_uppercase(t);
    if "#+BEGIN_SRC"@.is_prefix_of(upper) {
        let s1 = flush_pending(s);
        ImportModel {
            doc: s1.doc,
            in_src: true,
            src_language: begin_src_language(t),
            src_content: Seq::empty(),
            in_quote: s1.in_quote,
            quote: s1.quote,
            list: s1.list,
            table: s1.table,
        }
    } else if s.in_src {
        if upper == "#+END_SRC"@ {
            ImportModel {
                doc: s.doc.push(code_block_node(s.src_content, s.src_language)),
                in_src: false,
                src_language: s.src_language,
                src_content: s.src_content,
                in_quote: s.in_quote,
                quote: s.quote,
                list: s.list,
                table: s.table,
            }
        } else {
            let c = if s.src_content.len() > 0 {
                s.src_content.push('\n')
            } else {
                s.src_content
            };
            ImportModel {
                doc: s.doc,
                in_src: s.in_src,
                src_language: s.src_language,
                src_content: c + source_body_line(line),
                in_quote: s.in_quote,
                quote: s.quote,
                list: s.list,
                table: s.table,
            }
        }
    } else if upper == "#+BEGIN_QUOTE"@ {
        let s1 = flush_pending(s);
        ImportModel {
            doc: s1.doc,
            in_src: s1.in_src,
            src_language: s1.src_language,
            src_content: s1.src_content,
            in_quote: true,
            quote: Seq::empty(),
            list: s1.list,
            table: s1.table,
        }
    } else if upper == "#+END_QUOTE"@ {
        ImportModel {
            doc: s.doc.push(content_of("blockquote"@, s.quote)),
            in_src: s.in_src,
            src_language: s.src_language,
            src_content: s.src_content,
            in_quote: false,
            quote: s.quote,
            list: s.list,
            table: s.table,
        }
    } else if s.in_quote {
        let text = match unescaped_line(line) {
            Some(v) => v,
            None => line,
        };
        ImportModel {
            doc: s.doc,
            in_src: s.in_src,
            src_language: s.src_language,
            src_content: s.src_content,
            in_quote: s.in_quote,
            quote: s.quote.push(paragraph_of(spec_parse_org_inline(text))),
            list: s.list,
            table: s.table,
        }
    } else {
        body_line_step(s, t)
    }
}

pub open spec fn initial_import() -> ImportModel {
    ImportModel {
        doc: Seq::empty(),
        in_src: false,
        src_language: Seq::empty(),
        src_content: Seq::empty(),
        in_quote: false,
        quote: Seq::empty(),
        list: None,
        table: None,
    }
}

/// What the importer holds after the first `n` lines.
pub open spec fn import_upto(lines: Seq<Seq<char>>, n: nat) -> ImportModel
    decreases n,
{
    if n == 0 {
        initial_import()
    } else {
        org_line_step(import_upto(lines, (n - 1) as nat), lines[n - 1])
    }
}

/// The top-level blocks once the lines are read: pending lists and tables
/// are emitted, and an empty document gets an empty paragraph.
pub open spec fn import_blocks(s: ImportModel) -> Seq<JsonSpec> {
    let d = flush_pending(s).doc;
    if d.len() == 0 {
        d.push(paragraph_of(Seq::empty()))
    } else {
        d
    }
}

/// The document that Org-mode `org` describes, with standalone attachment
/// links upgraded to attachment nodes.
pub open spec fn spec_org_to_prosemirror(org: Seq<char>, scheme: Seq<char>) -> JsonSpec {
    let lines = text_lines(org);
    doc_of(spec_upgrade_nodes(import_blocks(import_upto(lines, lines.len())), scheme, 0))
}


/// A list line `- text` (indented or not) without a task box, whose
/// uppercase form opens or closes no block.
pub open spec fn plain_list_line(line: Seq<char>) -> bool {
    let t = trim(line);
    let r = t.subrange(2, t.len() as int);
    &&& "- "@.is_prefix_of(t)
    &&& !"[ ] "@.is_prefix_of(r)
    &&& !"[X] "@.is_prefix_of(r)
    &&& !"[x] "@.is_prefix_of(r)
    &&& !"#+BEGIN_SRC"@.is_prefix_of(unicode_uppercase(t))
    &&& unicode_uppercase(t) != "#+BEGIN_QUOTE"@
    &&& unicode_uppercase(t) != "#+END_QUOTE"@
}

/// The item a plain list line becomes.
pub open spec fn list_line_item(line: Seq<char>) -> JsonSpec {
    let t = trim(line);
    item_node("listItem"@, t.subrange(2, t.len() as int), None)
}

proof fn lemma_list_lines_pending(lines: Seq<Seq<char>>, n: nat)
    requires
        n <= lines.len(),
        forall|k: int| 0 <= k < lines.len() ==> plain_list_line(#[trigger] lines[k]),
    ensures
        n == 0 ==> import_upto(lines, n) == initial_import(),
        n > 0 ==> import_upto(lines, n) == with_list(
            initial_import(),
            Some(
                ListModel {
                    kind: OrgListKind::Bullet,
                    items: lines.take(n as int).map_values(|l: Seq<char>| list_line_item(l)),
                    order_start: 1,
                },
            ),
        ),
    decreases n,
{
    reveal_strlit("- ");
    reveal_strlit("-----");
    if n > 0 {
        let m = (n - 1) as nat;
        lemma_list_lines_pending(lines, m);
        let line = lines[m as int];
        assert(plain_list_line(line));
        let t = trim(line);
        assert(t.subrange(0, 2) == "- "@);
        assert(t[0] == t.subrange(0, 2)[0] && t[1] == t.subrange(0, 2)[1]);
        assert(t[0] == '-' && t[1] == ' ');
        assert(!is_heading_line(t));
        assert(!"-----"@.is_prefix_of(t)) by {
            if "-----"@.is_prefix_of(t) {
                assert(t[1] == "-----"@[1]);
            }
        }
        assert(lines.take(n as int).map_values(|l: Seq<char>| list_line_item(l)) =~= lines.take(
            m as int,
        ).map_values(|l: Seq<char>| list_line_item(l)).push(list_line_item(line)));
        if m == 0 {
            assert(lines.take(n as int).map_values(|l: Seq<char>| list_line_item(l)) =~= seq![list_line_item(line)]);
        }
    }
}

/// Org list lines, indented or not, all become items of one top-level list,
/// in order: the import does not rebuild nested lists.
pub proof fn lemma_list_lines_one_list(org: Seq<char>, scheme: Seq<char>)
    requires
        text_lines(org).len() > 0,
        forall|k: int| 0 <= k < text_lines(org).len() ==> plain_list_line(#[trigger] text_lines(org)[k]),
    ensures
        spec_org_to_prosemirror(org, scheme) == doc_of(
            spec_upgrade_nodes(
                seq![content_of("bulletList"@, text_lines(org).map_values(|l: Seq<char>| list_line_item(l)))],
                scheme,
                0,
            ),
        ),
{
    let lines = text_lines(org);
    lemma_list_lines_pending(lines, lines.len());
    assert(lines.take(lines.len() as int) =~= lines);
    let s = import_upto(lines, lines.len());
    assert(flush_pending(s).doc =~= seq![
        content_of("bulletList"@, lines.map_values(|l: Seq<char>| list_line_item(l))),
    ]);
}


/// Whether the importer, outside source and quote blocks, reads a line as
/// anything but paragraph text: a block marker, a heading, a rule, a list
/// item or a table row.
pub open spec fn read_as_structure(line: Seq<char>) -> bool {
    let t = trim(line);
    let u = unicode_uppercase(t);
    ||| "#+BEGIN_SRC"@.is_prefix_of(u)
    ||| u == "#+BEGIN_QUOTE"@
    ||| u == "#+END_QUOTE"@
    ||| is_heading_line(t)
    ||| "-----"@.is_prefix_of(t)
    ||| "- "@.is_prefix_of(t)
    ||| ordered_marker(t) is Some
    ||| is_table_line(t)
}

/// Every line that is not blank and that the importer would read as
/// structure is one that export escapes with a leading comma.
pub proof fn lemma_structure_lines_are_escaped(line: Seq<char>)
    requires
        trim(line).len() > 0,
        read_as_structure(line),
    ensures
        line_starts_structure(line),
{
}

} // verus!
