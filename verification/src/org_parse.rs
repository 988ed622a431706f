//! Org-mode to ProseMirror JSON (basic support): source and quote blocks,
//! headings, rules, flat lists, tables and paragraphs, one line at a time as
//! `org_model` states it.

use vstd::prelude::*;
use vstd::string::StringSliceAdditionalSpecFns;
use crate::attachment::upgrade_standalone_attachment_links;
use crate::json::{copy_values, text_node, typed_node, views, entry_views, JsonNumber, JsonSpec, JsonValue};
use crate::md_blocks::count_leading;
use crate::md_model::single;
use crate::md_parse::{is_nonempty_doc, new_doc};
use crate::org_inline::{parse_org_inline, spec_parse_org_inline};
use crate::org_model::{
    all_header,
    body_line_step,
    bullet_line_step,
    cell_node,
    content_of,
    flush_list,
    flush_pending,
    flush_table,
    import_blocks,
    import_upto,
    initial_import,
    int_json,
    item_node,
    list_node,
    org_line_step,
    push_item,
    row_node,
    row_of,
    spec_org_to_prosemirror,
    table_line_step,
    table_node,
    ImportModel,
    ListModel,
    OrgListKind,
    RowModel,
};
use crate::org_text::{
    chars_start_with, is_org_table_separator, org_lines, org_source_body_line,
    org_unescape_generated_line, parse_org_ordered_marker, split_org_row_cells, to_uppercase,
    text_lines, row_cells, bar_trimmed,
};
use crate::strs::{chars_of, str_eq, str_get, string_from_chars, sub_chars, trim, trim_chars, trim_end_chars};

verus! {

broadcast use vstd::utf8::encode_utf8_decode_utf8;

/// List items read so far, which consecutive list lines of one kind join.
struct OrgPendingList {
    kind: OrgListKind,
    items: Vec<JsonValue>,
    order_start: i64,
}

impl View for OrgPendingList {
    type V = ListModel;

    closed spec fn view(&self) -> ListModel {
        ListModel { kind: self.kind, items: views(self.items@), order_start: self.order_start }
    }
}

/// A buffered table row: each cell's inline content, and whether a rule line
/// made it a header row.
struct OrgTableRow {
    cells: Vec<Vec<JsonValue>>,
    is_header: bool,
}

impl View for OrgTableRow {
    type V = RowModel;

    closed spec fn view(&self) -> RowModel {
        RowModel { cells: self.cells@.map_values(|c: Vec<JsonValue>| views(c@)), is_header: self.is_header }
    }
}

spec fn rows_view(rows: Seq<OrgTableRow>) -> Seq<RowModel> {
    rows.map_values(|r: OrgTableRow| r@)
}

spec fn list_view(o: Option<OrgPendingList>) -> Option<ListModel> {
    match o {
        Some(l) => Some(l@),
        None => None,
    }
}

spec fn table_view(o: Option<Vec<OrgTableRow>>) -> Option<Seq<RowModel>> {
    match o {
        Some(rows) => Some(rows_view(rows@)),
        None => None,
    }
}

/// `{"type": t, "content": content}`.
fn content_node(t: &str, content: Vec<JsonValue>) -> (r: JsonValue)
    ensures
        r@ == content_of(t@, views(content@)),
{
    let ghost cv = views(content@);
    let mut es: Vec<(String, JsonValue)> = Vec::new();
    es.push(("type".to_owned(), JsonValue::from_str(t)));
    es.push(("content".to_owned(), JsonValue::array(content)));
    assert(entry_views(es@) =~= seq![("type"@, JsonSpec::Str(t@)), ("content"@, JsonSpec::Array(cv))]);
    JsonValue::object(es)
}

/// `{key: value}`.
fn single_attr(key: &str, value: JsonValue) -> (r: JsonValue)
    ensures
        r@ == single(key@, value@),
{
    let ghost vv = value@;
    let mut es: Vec<(String, JsonValue)> = Vec::new();
    es.push((key.to_owned(), value));
    assert(entry_views(es@) =~= seq![(key@, vv)]);
    JsonValue::object(es)
}

/// A list item holding one paragraph of `text`'s inline content.
fn list_item(t: &str, text: &[char], checked: Option<bool>) -> (r: JsonValue)
    ensures
        r@ == item_node(t@, text@, checked),
{
    let mut para: Vec<JsonValue> = Vec::new();
    let p = content_node("paragraph", parse_org_inline(text));
    para.push(p);
    assert(views(para@) =~= seq![p@]);
    let mut item = content_node(t, para);
    if let Some(c) = checked {
        item.set("attrs", single_attr("checked", JsonValue::Bool(c)));
    }
    item
}

/// A JSON integer.
fn int_value(n: i64) -> (r: JsonValue)
    ensures
        r@ == int_json(n),
{
    if n >= 0 {
        JsonValue::Number(JsonNumber::PosInt(n as u64))
    } else {
        JsonValue::Number(JsonNumber::NegInt(n))
    }
}

fn list_to_node(list: OrgPendingList) -> (r: JsonValue)
    ensures
        r@ == list_node(list@),
{
    let node_type = match list.kind {
        OrgListKind::Bullet => "bulletList",
        OrgListKind::Ordered => "orderedList",
        OrgListKind::Task => "taskList",
    };
    let kind = list.kind;
    let order_start = list.order_start;
    let mut node = content_node(node_type, list.items);
    if kind == OrgListKind::Ordered && order_start != 1 {
        node.set("attrs", single_attr("order", int_value(order_start)));
    }
    node
}

fn row_to_node(row: &OrgTableRow) -> (r: JsonValue)
    ensures
        r@ == row_node(row@),
{
    let ghost h = row.is_header;
    let ghost cs = row@.cells.map_values(|c: Seq<JsonSpec>| cell_node(h, c));
    let cell_type = if row.is_header {
        "tableHeader"
    } else {
        "tableCell"
    };
    let mut cell_nodes: Vec<JsonValue> = Vec::new();
    let mut j: usize = 0;
    while j < row.cells.len()
        invariant
            j <= row.cells@.len(),
            h == row.is_header,
            cs == row@.cells.map_values(|c: Seq<JsonSpec>| cell_node(h, c)),
            cell_type@ == (if h {
                "tableHeader"@
            } else {
                "tableCell"@
            }),
            views(cell_nodes@) == cs.take(j as int),
        decreases row.cells.len() - j,
    {
        let n = content_node(cell_type, copy_values(&row.cells[j]));
        assert(row@.cells[j as int] == views(row.cells@[j as int]@));
        assert(views(cell_nodes@.push(n)) =~= views(cell_nodes@).push(n@));
        assert(cs.take(j + 1) =~= cs.take(j as int).push(cs[j as int]));
        cell_nodes.push(n);
        j += 1;
    }
    assert(cs.take(j as int) =~= cs);
    let mut row_node_value = content_node("tableRow", cell_nodes);
    if row.is_header {
        row_node_value.set("attrs", single_attr("header", JsonValue::Bool(true)));
    }
    row_node_value
}

fn table_to_node(rows: &Vec<OrgTableRow>) -> (r: JsonValue)
    ensures
        r@ == table_node(rows_view(rows@)),
{
    let ghost rn = rows_view(rows@).map_values(|r: RowModel| row_node(r));
    let mut row_nodes: Vec<JsonValue> = Vec::new();
    let mut i: usize = 0;
    while i < rows.len()
        invariant
            i <= rows@.len(),
            rn == rows_view(rows@).map_values(|r: RowModel| row_node(r)),
            views(row_nodes@) == rn.take(i as int),
        decreases rows.len() - i,
    {
        let n = row_to_node(&rows[i]);
        assert(views(row_nodes@.push(n)) =~= views(row_nodes@).push(n@));
        assert(rn.take(i + 1) =~= rn.take(i as int).push(rn[i as int]));
        row_nodes.push(n);
        i += 1;
    }
    assert(rn.take(i as int) =~= rn);
    content_node("table", row_nodes)
}

/// Takes out the row at `i`, leaving `x` in its place.
fn replace_row(rows: &mut Vec<OrgTableRow>, i: usize, x: OrgTableRow) -> (r: OrgTableRow)
    requires
        i < old(rows)@.len(),
    ensures
        r == old(rows)@[i as int],
        final(rows)@ == old(rows)@.update(i as int, x),
{
    let mut x = x;
    rows.set_and_swap(i, &mut x);
    x
}

/// Makes every row a header row.
fn mark_all_header(rows: &mut Vec<OrgTableRow>)
    ensures
        rows_view(final(rows)@) == all_header(rows_view(old(rows)@)),
{
    let ghost r0 = rows_view(rows@);
    let mut i: usize = 0;
    while i < rows.len()
        invariant
            i <= rows@.len(),
            rows@.len() == r0.len(),
            forall|k: int| 0 <= k < i ==> #[trigger] rows_view(rows@)[k] == all_header(r0)[k],
            forall|k: int| i <= k < rows@.len() ==> #[trigger] rows_view(rows@)[k] == r0[k],
        decreases rows.len() - i,
    {
        let ghost before = rows@;
        let mut row = replace_row(rows, i, OrgTableRow { cells: Vec::new(), is_header: false });
        let ghost old_row = row@;
        assert(old_row == r0[i as int]) by {
            assert(rows_view(before)[i as int] == before[i as int]@);
        }
        row.is_header = true;
        assert(row@.cells == old_row.cells);
        rows.set(i, row);
        proof {
            assert(rows@ == before.update(i as int, row));
            assert forall|k: int| 0 <= k < rows@.len() && k != i implies #[trigger] rows_view(rows@)[k]
                == rows_view(before)[k] by {
                assert(rows@[k] == before[k]);
            }
            assert(rows_view(rows@)[i as int] =~= all_header(r0)[i as int]);
        }
        i += 1;
    }
    assert(rows_view(rows@) =~= all_header(r0));
}

/// What the importer holds between lines.
struct OrgImport {
    doc_content: Vec<JsonValue>,
    in_src_block: bool,
    src_language: Vec<char>,
    src_content: Vec<char>,
    in_quote_block: bool,
    quote_content: Vec<JsonValue>,
    pending_list: Option<OrgPendingList>,
    pending_table: Option<Vec<OrgTableRow>>,
}

impl View for OrgImport {
    type V = ImportModel;

    closed spec fn view(&self) -> ImportModel {
        ImportModel {
            doc: views(self.doc_content@),
            in_src: self.in_src_block,
            src_language: self.src_language@,
            src_content: self.src_content@,
            in_quote: self.in_quote_block,
            quote: views(self.quote_content@),
            list: list_view(self.pending_list),
            table: table_view(self.pending_table),
        }
    }
}

fn push_all(dst: &mut Vec<char>, src: &[char])
    ensures
        final(dst)@ == old(dst)@ + src@,
{
    let mut i: usize = 0;
    while i < src.len()
        invariant
            i <= src@.len(),
            dst@ == old(dst)@ + src@.take(i as int),
        decreases src.len() - i,
    {
        dst.push(src[i]);
        i += 1;
        assert(dst@ =~= old(dst)@ + src@.take(i as int));
    }
    assert(src@.take(i as int) =~= src@);
}

fn starts_with_lit(s: &[char], p: &str) -> (r: bool)
    ensures
        r == p@.is_prefix_of(s@),
{
    let pc = chars_of(p);
    chars_start_with(s, pc.as_slice())
}

/// The byte length of `#+BEGIN_SRC`, where a source block's language starts.
const BEGIN_SRC_LEN: usize = 11;

impl OrgImport {
    fn push_doc(&mut self, node: JsonValue)
        ensures
            final(self)@ == crate::org_model::with_doc(old(self)@, old(self)@.doc.push(node@)),
    {
        assert(views(self.doc_content@.push(node)) =~= views(self.doc_content@).push(node@));
        self.doc_content.push(node);
        assert(self@ =~= crate::org_model::with_doc(old(self)@, old(self)@.doc.push(node@)));
    }

    fn flush_list(&mut self)
        ensures
            final(self)@ == flush_list(old(self)@),
    {
        match self.pending_list.take() {
            Some(l) => {
                let node = list_to_node(l);
                self.push_doc(node);
                assert(self@ =~= flush_list(old(self)@));
            },
            None => {},
        }
    }

    fn flush_table(&mut self)
        ensures
            final(self)@ == flush_table(old(self)@),
    {
        match self.pending_table.take() {
            Some(rows) => {
                if rows.len() > 0 {
                    let node = table_to_node(&rows);
                    self.push_doc(node);
                }
                assert(self@ =~= flush_table(old(self)@));
            },
            None => {},
        }
    }

    fn flush_pending(&mut self)
        ensures
            final(self)@ == flush_pending(old(self)@),
    {
        self.flush_list();
        self.flush_table();
    }

    /// Adds an item to the pending list of its kind, first emitting a list
    /// of another kind.
    fn push_list_item(&mut self, kind: OrgListKind, item: JsonValue, order_start: i64)
        ensures
            final(self)@ == push_item(old(self)@, kind, item@, order_start),
    {
        let same = match &self.pending_list {
            Some(list) => list.kind == kind,
            None => false,
        };
        if same {
            if let Some(mut list) = self.pending_list.take() {
                assert(views(list.items@.push(item)) =~= views(list.items@).push(item@));
                list.items.push(item);
                self.pending_list = Some(list);
            }
        } else {
            self.flush_list();
            let mut items: Vec<JsonValue> = Vec::new();
            let ghost iv = item@;
            items.push(item);
            assert(views(items@) =~= seq![iv]);
            self.pending_list = Some(OrgPendingList { kind, items, order_start });
        }
        assert(self@ =~= push_item(old(self)@, kind, item@, order_start));
    }

    /// A table line.
    fn table_line(&mut self, t: &[char])
        ensures
            final(self)@ == table_line_step(old(self)@, t@),
    {
        self.flush_list();
        if is_org_table_separator(t) {
            match self.pending_table.take() {
                Some(rows) => {
                    let mut rows = rows;
                    mark_all_header(&mut rows);
                    self.pending_table = Some(rows);
                },
                None => {},
            }
            assert(self@ =~= table_line_step(old(self)@, t@));
            return ;
        }
        let raw_cells = split_org_row_cells(t);
        let ghost rc = row_cells(bar_trimmed(t@));
        let mut cells: Vec<Vec<JsonValue>> = Vec::new();
        let mut i: usize = 0;
        while i < raw_cells.len()
            invariant
                i <= raw_cells@.len(),
                raw_cells@.len() == rc.len(),
                forall|k: int| 0 <= k < raw_cells@.len() ==> #[trigger] raw_cells@[k]@ == trim(rc[k]),
                cells@.len() == i,
                forall|k: int| 0 <= k < i ==> #[trigger] views(cells@[k]@) == spec_parse_org_inline(trim(rc[k])),
            decreases raw_cells.len() - i,
        {
            cells.push(parse_org_inline(raw_cells[i].as_slice()));
            i += 1;
        }
        let row = OrgTableRow { cells, is_header: false };
        assert(row@ =~= row_of(t@));
        let mut rows = match self.pending_table.take() {
            Some(r) => r,
            None => Vec::new(),
        };
        let ghost rows0 = rows_view(rows@);
        assert(rows_view(rows@.push(row)) =~= rows0.push(row@));
        rows.push(row);
        self.pending_table = Some(rows);
        assert(self@ =~= table_line_step(old(self)@, t@));
    }

    /// A line of the form `- text`, `- [ ] text` or `- [X] text`.
    fn bullet_line(&mut self, t: &[char])
        requires
            "- "@.is_prefix_of(t@),
        ensures
            final(self)@ == bullet_line_step(old(self)@, t@),
    {
        proof {
            reveal_strlit("- ");
            reveal_strlit("[ ] ");
            reveal_strlit("[X] ");
            reveal_strlit("[x] ");
        }
        self.flush_table();
        let rest = sub_chars(t, 2, t.len());
        let r = rest.as_slice();
        if starts_with_lit(r, "[ ] ") {
            let text = sub_chars(r, 4, r.len());
            let item = list_item("taskItem", text.as_slice(), Some(false));
            self.push_list_item(OrgListKind::Task, item, 1);
        } else if starts_with_lit(r, "[X] ") || starts_with_lit(r, "[x] ") {
            let text = sub_chars(r, 4, r.len());
            let item = list_item("taskItem", text.as_slice(), Some(true));
            self.push_list_item(OrgListKind::Task, item, 1);
        } else {
            let item = list_item("listItem", r, None);
            self.push_list_item(OrgListKind::Bullet, item, 1);
        }
    }

    /// A line outside source and quote blocks that opens neither.
    #[verifier::rlimit(40)]
    fn body_line(&mut self, t: &[char])
        ensures
            final(self)@ == body_line_step(old(self)@, t@),
    {
        if t.len() > 0 && t[0] == '*' {
            let star_count = count_leading(t, '*');
            if star_count > 0 && star_count < t.len() && t[star_count] == ' ' {
                self.flush_pending();
                let level: u64 = if star_count < 6 {
                    star_count as u64
                } else {
                    6
                };
                let rest = sub_chars(t, star_count, t.len());
                let text = trim_chars(rest.as_slice());
                let mut heading = content_node("heading", parse_org_inline(text.as_slice()));
                heading.set("attrs", single_attr("level", JsonValue::Number(JsonNumber::PosInt(level))));
                self.push_doc(heading);
                return ;
            }
        }
        if starts_with_lit(t, "-----") {
            self.flush_pending();
            self.push_doc(typed_node("horizontalRule"));
            return ;
        }
        if starts_with_lit(t, "- ") {
            self.bullet_line(t);
            return ;
        }
        if let Some((number, k)) = parse_org_ordered_marker(t) {
            self.flush_table();
            let text = sub_chars(t, k, t.len());
            let item = list_item("listItem", text.as_slice(), None);
            self.push_list_item(OrgListKind::Ordered, item, number);
            return ;
        }
        if t.len() > 0 && t[0] == '|' && t[t.len() - 1] == '|' {
            self.table_line(t);
            return ;
        }
        self.flush_pending();
        if t.len() > 0 {
            let paragraph = match org_unescape_generated_line(t) {
                Some(v) => v,
                None => sub_chars(t, 0, t.len()),
            };
            assert(t@.subrange(0, t@.len() as int) =~= t@);
            let p = content_node("paragraph", parse_org_inline(paragraph.as_slice()));
            self.push_doc(p);
        }
    }

    /// Reads one line of the source.
    #[verifier::rlimit(60)]
    fn read_line(&mut self, line: &[char])
        ensures
            final(self)@ == org_line_step(old(self)@, line@),
    {
        let trimmed = trim_chars(line);
        let ts = string_from_chars(trimmed.as_slice());
        let upper_s = to_uppercase(ts.as_str());
        let upper = upper_s.as_str();
        let uc = chars_of(upper);
        if starts_with_lit(uc.as_slice(), "#+BEGIN_SRC") {
            self.flush_pending();
            self.in_src_block = true;
            let ghost b = vstd::utf8::encode_utf8(trimmed@);
            let tss = ts.as_str();
            assert(tss.spec_bytes() == b);
            let n = tss.as_bytes().len();
            let tail = str_get(tss, BEGIN_SRC_LEN, n);
            self.src_language = match tail {
                Some(rest) => {
                    assert(rest@ == vstd::utf8::decode_utf8(b.subrange(11, b.len() as int))) by {
                        assert(vstd::utf8::decode_utf8(vstd::utf8::encode_utf8(rest@)) == rest@);
                    }
                    let rc = chars_of(rest);
                    trim_chars(rc.as_slice())
                },
                None => Vec::new(),
            };
            assert(self.src_language@ == crate::org_model::begin_src_language(trimmed@));
            self.src_content = Vec::new();
            assert(self@ =~= org_line_step(old(self)@, line@));
            return ;
        }
        if self.in_src_block {
            if str_eq(upper, "#+END_SRC") {
                self.in_src_block = false;
                let body = trim_end_chars(self.src_content.as_slice());
                let mut inline: Vec<JsonValue> = Vec::new();
                let no_marks: Vec<JsonValue> = Vec::new();
                assert(views(no_marks@) =~= Seq::<JsonSpec>::empty());
                let tn = text_node(string_from_chars(body.as_slice()), &no_marks);
                inline.push(tn);
                assert(views(inline@) =~= seq![tn@]);
                let mut code_block = content_node("codeBlock", inline);
                if self.src_language.len() > 0 {
                    let lang = string_from_chars(self.src_language.as_slice());
                    code_block.set("attrs", single_attr("language", JsonValue::String(lang)));
                }
                self.push_doc(code_block);
                assert(self@ =~= org_line_step(old(self)@, line@));
                return ;
            }
            if self.src_content.len() > 0 {
                self.src_content.push('\n');
            }
            let body_line = org_source_body_line(line);
            push_all(&mut self.src_content, body_line.as_slice());
            assert(self@ =~= org_line_step(old(self)@, line@));
            return ;
        }
        if str_eq(upper, "#+BEGIN_QUOTE") {
            self.flush_pending();
            self.in_quote_block = true;
            self.quote_content = Vec::new();
            assert(views(self.quote_content@) =~= Seq::<JsonSpec>::empty());
            assert(self@ =~= org_line_step(old(self)@, line@));
            return ;
        }
        if str_eq(upper, "#+END_QUOTE") {
            self.in_quote_block = false;
            let quoted = copy_values(&self.quote_content);
            self.push_doc(content_node("blockquote", quoted));
            assert(self@ =~= org_line_step(old(self)@, line@));
            return ;
        }
        if self.in_quote_block {
            let text = match org_unescape_generated_line(line) {
                Some(v) => v,
                None => sub_chars(line, 0, line.len()),
            };
            assert(line@.subrange(0, line@.len() as int) =~= line@);
            let p = content_node("paragraph", parse_org_inline(text.as_slice()));
            assert(views(self.quote_content@.push(p)) =~= views(self.quote_content@).push(p@));
            self.quote_content.push(p);
            assert(self@ =~= org_line_step(old(self)@, line@));
            return ;
        }
        self.body_line(trimmed.as_slice());
    }
}

/// Converts Org-mode text to a ProseMirror document: the document that
/// `org_model` reads from its lines. Nested or indented list lines all
/// become items of one flat list; standalone attachment links become
/// attachment nodes.
pub fn org_to_prosemirror(org: &str, attachment_uri_scheme: &str) -> (r: JsonValue)
    ensures
        r@ == spec_org_to_prosemirror(org@, attachment_uri_scheme@),
        is_nonempty_doc(r@),
{
    let oc = chars_of(org);
    let lines = org_lines(oc.as_slice());
    let ghost ls = text_lines(org@);
    let mut state = OrgImport {
        doc_content: Vec::new(),
        in_src_block: false,
        src_language: Vec::new(),
        src_content: Vec::new(),
        in_quote_block: false,
        quote_content: Vec::new(),
        pending_list: None,
        pending_table: None,
    };
    assert(state@ =~= initial_import());
    let mut i: usize = 0;
    while i < lines.len()
        invariant
            i <= lines@.len(),
            lines@.len() == ls.len(),
            ls == text_lines(org@),
            forall|k: int| 0 <= k < lines@.len() ==> #[trigger] lines@[k]@ == ls[k],
            state@ == import_upto(ls, i as nat),
        decreases lines.len() - i,
    {
        state.read_line(lines[i].as_slice());
        i += 1;
    }
    state.flush_pending();
    let mut doc_content = state.doc_content;
    if doc_content.len() == 0 {
        let empty: Vec<JsonValue> = Vec::new();
        assert(views(empty@) =~= Seq::<JsonSpec>::empty());
        let p = content_node("paragraph", empty);
        assert(views(doc_content@.push(p)) =~= views(doc_content@).push(p@));
        doc_content.push(p);
    }
    assert(views(doc_content@) == import_blocks(import_upto(ls, ls.len())));
    let ghost before = doc_content@.len();
    upgrade_standalone_attachment_links(&mut doc_content, attachment_uri_scheme);
    assert(views(doc_content@).len() == before);
    new_doc(doc_content)
}

} // verus!
