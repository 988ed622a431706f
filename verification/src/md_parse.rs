//! GitHub Flavored Markdown to ProseMirror JSON: the document built from the
//! parser's event stream, one step per event as `md_model` states it.

use vstd::prelude::*;
use vstd::string::StringSliceAdditionalSpecFns;
use crate::attachment::{attachment_id_from_uri, upgrade_standalone_attachment_links};
use crate::json::{copy_values, entry_views, text_node, typed_node, views, JsonNumber, JsonSpec, JsonValue};
use crate::md_events::{markdown_events, parse_markdown_events, MdAlignment, MdEvent, MdTag, MdTagEnd};
use crate::md_model::{
    add_to_top,
    all_inline,
    alt_appended,
    close_top,
    closed_node,
    code_block_attrs,
    code_step,
    continuation_value,
    direct_item_index,
    doc_of,
    end_mark_type,
    final_blocks,
    flag,
    flush_top,
    flushed,
    image_attrs,
    in_header_row,
    initial_build,
    is_block_end,
    last_bullet_index,
    link_mark,
    list_marker_attrs,
    loose_inline_item,
    loosen_inline,
    md_step,
    paragraph_of,
    push_frame,
    single,
    spaces,
    spec_alignment_name,
    spec_events_to_document,
    spec_kind_name,
    table_attrs,
    tag_start,
    task_marker_step,
    text_step,
    top_is_item,
    top_last_child_end,
    build_upto,
    with_continuation_indent,
    with_marks,
    with_stack,
    with_text,
    without_last_of_type,
    BuildModel,
    FrameKind,
    FrameModel,
};
use crate::md_source::{
    bullet_list_attrs,
    has_blank_between,
    item_has_trailing_blank,
    leading_indent_before,
    raw_multiline_code_span,
    raw_multiline_code_span_continuation_indent,
};
use crate::strs::{chars_of, string_from_chars};

verus! {

fn kind_name(k: FrameKind) -> (r: &'static str)
    ensures
        r@ == spec_kind_name(k),
{
    match k {
        FrameKind::Paragraph => "paragraph",
        FrameKind::Heading => "heading",
        FrameKind::BlockQuote => "blockquote",
        FrameKind::CodeBlock => "codeBlock",
        FrameKind::BulletList => "bulletList",
        FrameKind::OrderedList => "orderedList",
        FrameKind::TaskList => "taskList",
        FrameKind::ListItem => "listItem",
        FrameKind::TaskItem => "taskItem",
        FrameKind::Table => "table",
        FrameKind::TableRow => "tableRow",
        FrameKind::TableHeader => "tableHeader",
        FrameKind::TableCell => "tableCell",
        FrameKind::Image => "image",
    }
}

/// An open element, as `FrameModel` describes it.
struct Frame {
    kind: FrameKind,
    content: Vec<JsonValue>,
    attrs: Option<JsonValue>,
    loose_before: bool,
    last_child_end: Option<usize>,
}

spec fn opt_view(o: Option<JsonValue>) -> Option<JsonSpec> {
    match o {
        Some(v) => Some(v@),
        None => None,
    }
}

impl View for Frame {
    type V = FrameModel;

    closed spec fn view(&self) -> FrameModel {
        FrameModel {
            kind: self.kind,
            content: views(self.content@),
            attrs: opt_view(self.attrs),
            loose_before: self.loose_before,
            last_child_end: self.last_child_end,
        }
    }
}

spec fn frames(s: Seq<Frame>) -> Seq<FrameModel> {
    s.map_values(|f: Frame| f@)
}

proof fn lemma_frames_push(s: Seq<Frame>, f: Frame)
    ensures
        frames(s.push(f)) == frames(s).push(f@),
{
    assert(frames(s.push(f)) =~= frames(s).push(f@));
}

proof fn lemma_frames_drop_last(s: Seq<Frame>)
    requires
        s.len() > 0,
    ensures
        frames(s.drop_last()) == frames(s).drop_last(),
        frames(s).last() == s.last()@,
{
    assert(frames(s.drop_last()) =~= frames(s).drop_last());
}

proof fn lemma_frames_update(s: Seq<Frame>, i: int, f: Frame)
    requires
        0 <= i < s.len(),
    ensures
        frames(s.update(i, f)) == frames(s).update(i, f@),
{
    assert(frames(s.update(i, f)) =~= frames(s).update(i, f@));
}

/// Setting position `i` of a stack that differs from `s0` only there.
proof fn lemma_frames_set(s0: Seq<Frame>, s1: Seq<Frame>, i: int, f: Frame)
    requires
        0 <= i < s0.len(),
        s1.len() == s0.len(),
        forall|k: int| 0 <= k < s0.len() && k != i ==> s1[k] == s0[k],
    ensures
        frames(s1.update(i, f)) == frames(s0).update(i, f@),
{
    assert forall|k: int| 0 <= k < s0.len() implies #[trigger] frames(s1.update(i, f))[k] == frames(s0).update(i, f@)[k] by {
        if k != i {
            assert(s1[k] == s0[k]);
        }
    }
    assert(frames(s1.update(i, f)) =~= frames(s0).update(i, f@));
}

proof fn lemma_views_push(s: Seq<JsonValue>, v: JsonValue)
    ensures
        views(s.push(v)) == views(s).push(v@),
{
    assert(views(s.push(v)) =~= views(s).push(v@));
}

/// The state of the document being built.
struct Builder {
    doc: Vec<JsonValue>,
    stack: Vec<Frame>,
    marks: Vec<JsonValue>,
    text: Vec<char>,
}

impl View for Builder {
    type V = BuildModel;

    closed spec fn view(&self) -> BuildModel {
        BuildModel { doc: views(self.doc@), stack: frames(self.stack@), marks: views(self.marks@), text: self.text@ }
    }
}

fn entry(key: &str, value: JsonValue) -> (r: (String, JsonValue))
    ensures
        r.0@ == key@,
        r.1 == value,
{
    (key.to_owned(), value)
}

fn single_object(key: &str, value: JsonValue) -> (r: JsonValue)
    ensures
        r@ == single(key@, value@),
{
    let mut es: Vec<(String, JsonValue)> = Vec::new();
    es.push(entry(key, value));
    assert(entry_views(es@) =~= seq![(key@, es@[0].1@)]);
    JsonValue::object(es)
}

fn paragraph_node(content: Vec<JsonValue>) -> (r: JsonValue)
    ensures
        r@ == paragraph_of(views(content@)),
{
    let ghost cv = views(content@);
    let mut es: Vec<(String, JsonValue)> = Vec::new();
    es.push(entry("type", JsonValue::from_str("paragraph")));
    es.push(entry("content", JsonValue::array(content)));
    assert(entry_views(es@) =~= seq![("type"@, JsonSpec::Str("paragraph"@)), ("content"@, JsonSpec::Array(cv))]);
    JsonValue::object(es)
}

/// Moves pending text, with the current marks, into `content`.
fn flush_text(text: &mut Vec<char>, marks: &Vec<JsonValue>, content: &mut Vec<JsonValue>)
    ensures
        views(final(content)@) == flushed(old(text)@, views(marks@), views(old(content)@)),
        final(text)@ == Seq::<char>::empty(),
{
    if text.len() > 0 {
        let s = string_from_chars(text.as_slice());
        let node = text_node(s, marks);
        proof {
            lemma_views_push(content@, node);
        }
        content.push(node);
        text.clear();
    } else {
        assert(text@ =~= Seq::<char>::empty());
    }
}

/// An empty paragraph frame, left in a slot while its frame is taken out.
fn placeholder() -> (r: Frame)
    ensures
        r@ == (FrameModel {
            kind: FrameKind::Paragraph,
            content: Seq::empty(),
            attrs: None,
            loose_before: false,
            last_child_end: None,
        }),
{
    let r = Frame { kind: FrameKind::Paragraph, content: Vec::new(), attrs: None, loose_before: false, last_child_end: None };
    assert(r@.content =~= Seq::<JsonSpec>::empty());
    r
}

/// Takes out the frame at `i`, leaving `f` in its place.
fn replace_frame(stack: &mut Vec<Frame>, i: usize, f: Frame) -> (r: Frame)
    requires
        i < old(stack)@.len(),
    ensures
        r == old(stack)@[i as int],
        final(stack)@ == old(stack)@.update(i as int, f),
{
    let mut f = f;
    stack.set_and_swap(i, &mut f);
    f
}

fn alignment_name(a: MdAlignment) -> (r: &'static str)
    ensures
        r@ == spec_alignment_name(a),
{
    match a {
        MdAlignment::Unaligned => "none",
        MdAlignment::Left => "left",
        MdAlignment::Center => "center",
        MdAlignment::Right => "right",
    }
}

fn table_attributes(alignments: &Vec<MdAlignment>) -> (r: Option<JsonValue>)
    ensures
        opt_view(r) == table_attrs(alignments@),
{
    let ghost al = alignments@;
    let ghost names = al.map_values(|a: MdAlignment| JsonSpec::Str(spec_alignment_name(a)));
    let mut any = false;
    let mut values: Vec<JsonValue> = Vec::new();
    let mut i: usize = 0;
    while i < alignments.len()
        invariant
            i <= al.len(),
            al == alignments@,
            names == al.map_values(|a: MdAlignment| JsonSpec::Str(spec_alignment_name(a))),
            views(values@) == names.take(i as int),
            any == exists|j: int| 0 <= j < i && al[j] != MdAlignment::Unaligned,
        decreases alignments.len() - i,
    {
        if alignments[i] != MdAlignment::Unaligned {
            any = true;
        }
        let v = JsonValue::from_str(alignment_name(alignments[i]));
        proof {
            lemma_views_push(values@, v);
            assert(names.take(i + 1) =~= names.take(i as int).push(names[i as int]));
        }
        values.push(v);
        i += 1;
    }
    assert(names.take(i as int) =~= names);
    if any {
        Some(single_object("alignments", JsonValue::array(values)))
    } else {
        None
    }
}

fn code_block_attributes(info: &Option<String>) -> (r: Option<JsonValue>)
    ensures
        opt_view(r) == code_block_attrs(
            match info {
                Some(l) => Some(l@),
                None => None,
            },
        ),
{
    match info {
        Some(lang) => {
            if chars_of(lang.as_str()).len() == 0 {
                None
            } else {
                Some(single_object("language", JsonValue::String(lang.clone())))
            }
        },
        None => None,
    }
}

fn image_attributes(dest_url: &String, title: &String, scheme: &str) -> (r: JsonValue)
    ensures
        r@ == image_attrs(dest_url@, title@, scheme@),
{
    let mut attrs = single_object("alt", JsonValue::from_str(""));
    match attachment_id_from_uri(dest_url.as_str(), scheme) {
        Some(id) => {
            attrs.set("attachmentId", JsonValue::String(id));
            attrs.set("src", JsonValue::Null);
        },
        None => {
            attrs.set("src", JsonValue::String(dest_url.clone()));
        },
    }
    if chars_of(title.as_str()).len() > 0 {
        attrs.set("title", JsonValue::String(title.clone()));
    }
    attrs
}

fn link_mark_node(dest_url: &String, title: &String) -> (r: JsonValue)
    ensures
        r@ == link_mark(dest_url@, title@),
{
    let mut attrs = single_object("href", JsonValue::String(dest_url.clone()));
    if chars_of(title.as_str()).len() > 0 {
        attrs.set("title", JsonValue::String(title.clone()));
    }
    let mut mark = typed_node("link");
    mark.set("attrs", attrs);
    mark
}

/// Whether the content of a list item is only inline nodes.
fn all_inline_nodes(content: &Vec<JsonValue>) -> (r: bool)
    ensures
        r == all_inline(views(content@)),
{
    let ghost c = views(content@);
    let mut i: usize = 0;
    while i < content.len()
        invariant
            i <= content@.len(),
            c == views(content@),
            forall|j: int|
                0 <= j < i ==> (#[trigger] c[j].node_type() == Some("text"@) || c[j].node_type() == Some(
                    "hardBreak"@,
                ) || c[j].node_type() == Some("image"@)),
        decreases content.len() - i,
    {
        let n = &content[i];
        if !(n.has_type("text") || n.has_type("hardBreak") || n.has_type("image")) {
            assert(c[i as int] == n@);
            return false;
        }
        i += 1;
    }
    true
}

fn with_attr(attrs: Option<JsonValue>, key: &str) -> (r: Option<JsonValue>)
    ensures
        opt_view(r) == flag(opt_view(attrs), key@),
{
    let mut a = match attrs {
        Some(a) => a,
        None => JsonValue::empty_object(),
    };
    a.set(key, JsonValue::Bool(true));
    Some(a)
}

fn block_end(e: MdTagEnd) -> (r: bool)
    ensures
        r == is_block_end(e),
{
    match e {
        MdTagEnd::Paragraph | MdTagEnd::Heading | MdTagEnd::BlockQuote | MdTagEnd::CodeBlock
        | MdTagEnd::List(_) | MdTagEnd::Item | MdTagEnd::Image | MdTagEnd::Table
        | MdTagEnd::TableHead | MdTagEnd::TableRow | MdTagEnd::TableCell => true,
        _ => false,
    }
}

fn ending_mark_type(e: MdTagEnd) -> (r: Option<&'static str>)
    ensures
        match r {
            Some(t) => end_mark_type(e) == Some(t@),
            None => end_mark_type(e) is None,
        },
{
    match e {
        MdTagEnd::Emphasis => Some("italic"),
        MdTagEnd::Strong => Some("bold"),
        MdTagEnd::Strikethrough => Some("strike"),
        MdTagEnd::Link => Some("link"),
        _ => None,
    }
}

fn push_chars(text: &mut Vec<char>, s: &[char])
    ensures
        final(text)@ == old(text)@ + s@,
{
    let mut i: usize = 0;
    while i < s.len()
        invariant
            i <= s@.len(),
            text@ == old(text)@ + s@.take(i as int),
        decreases s.len() - i,
    {
        assert(s@.take(i + 1) =~= s@.take(i as int).push(s@[i as int]));
        text.push(s[i]);
        i += 1;
    }
    assert(s@.take(i as int) =~= s@);
}

/// Removing the last mark of a type, scanning from the end.
proof fn lemma_without_last_of_type(m: Seq<JsonSpec>, t: Seq<char>, i: int)
    requires
        0 <= i <= m.len(),
        forall|j: int| i <= j < m.len() ==> #[trigger] m[j].node_type() != Some(t),
    ensures
        without_last_of_type(m, t) == without_last_of_type(m.take(i), t) + m.skip(i),
    decreases m.len() - i,
{
    if i < m.len() {
        let d = m.drop_last();
        assert forall|j: int| i <= j < d.len() implies #[trigger] d[j].node_type() != Some(t) by {
            assert(d[j] == m[j]);
        }
        lemma_without_last_of_type(d, t, i);
        assert(d.take(i) =~= m.take(i));
        assert(d.skip(i).push(m.last()) =~= m.skip(i));
        assert(m.last().node_type() != Some(t));
    } else {
        assert(m.take(i) =~= m);
        assert(m.skip(i) =~= Seq::<JsonSpec>::empty());
    }
}

/// The innermost bullet list, scanning from the end.
proof fn lemma_last_bullet_index(s: Seq<FrameModel>, j: int)
    requires
        0 <= j <= s.len(),
        forall|k: int| j <= k < s.len() ==> #[trigger] s[k].kind != FrameKind::BulletList,
    ensures
        last_bullet_index(s) == last_bullet_index(s.take(j)),
    decreases s.len() - j,
{
    if j < s.len() {
        let d = s.drop_last();
        assert forall|k: int| j <= k < d.len() implies #[trigger] d[k].kind != FrameKind::BulletList by {
            assert(d[k] == s[k]);
        }
        lemma_last_bullet_index(d, j);
        assert(d.take(j) =~= s.take(j));
    } else {
        assert(s.take(j) =~= s);
    }
}

fn last_bullet(stack: &Vec<Frame>) -> (r: Option<usize>)
    ensures
        match r {
            Some(j) => last_bullet_index(frames(stack@)) == Some(j as int) && j < stack@.len(),
            None => last_bullet_index(frames(stack@)) is None,
        },
{
    let ghost fs = frames(stack@);
    let mut j = stack.len();
    while j > 0
        invariant
            j <= stack@.len(),
            fs == frames(stack@),
            forall|k: int| j <= k < fs.len() ==> #[trigger] fs[k].kind != FrameKind::BulletList,
        decreases j,
    {
        if stack[j - 1].kind == FrameKind::BulletList {
            proof {
                lemma_last_bullet_index(fs, j as int);
                assert(fs.take(j as int).last() == fs[j - 1]);
            }
            return Some(j - 1);
        }
        j -= 1;
    }
    proof {
        lemma_last_bullet_index(fs, 0);
    }
    None
}

impl Builder {
    fn new() -> (r: Builder)
        ensures
            r@ == initial_build(),
    {
        let r = Builder { doc: Vec::new(), stack: Vec::new(), marks: Vec::new(), text: Vec::new() };
        assert(r@.doc =~= Seq::<JsonSpec>::empty());
        assert(r@.stack =~= Seq::<FrameModel>::empty());
        assert(r@.marks =~= Seq::<JsonSpec>::empty());
        r
    }

    fn flush_top(&mut self)
        ensures
            final(self)@ == flush_top(old(self)@),
    {
        let ghost s0 = self.stack@;
        match self.stack.pop() {
            Some(mut top) => {
                proof {
                    lemma_frames_drop_last(s0);
                }
                flush_text(&mut self.text, &self.marks, &mut top.content);
                proof {
                    lemma_frames_push(s0.drop_last(), top);
                    lemma_frames_update(s0, s0.len() - 1, top);
                    assert(s0.drop_last().push(top) =~= s0.update(s0.len() - 1, top));
                }
                self.stack.push(top);
            },
            None => {},
        }
    }

    /// Adds the pending text and then `node` to the innermost open element.
    fn add_to_top(&mut self, node: JsonValue)
        ensures
            final(self)@ == add_to_top(old(self)@, node@),
    {
        let ghost s0 = self.stack@;
        match self.stack.pop() {
            Some(mut top) => {
                proof {
                    lemma_frames_drop_last(s0);
                }
                flush_text(&mut self.text, &self.marks, &mut top.content);
                proof {
                    lemma_views_push(top.content@, node);
                }
                top.content.push(node);
                proof {
                    lemma_frames_push(s0.drop_last(), top);
                    lemma_frames_update(s0, s0.len() - 1, top);
                    assert(s0.drop_last().push(top) =~= s0.update(s0.len() - 1, top));
                }
                self.stack.push(top);
            },
            None => {},
        }
    }

    fn push_frame(&mut self, kind: FrameKind, attrs: Option<JsonValue>, loose_before: bool)
        ensures
            final(self)@ == push_frame(old(self)@, kind, opt_view(attrs), loose_before),
    {
        let f = Frame { kind, content: Vec::new(), attrs, loose_before, last_child_end: None };
        assert(f@.content =~= Seq::<JsonSpec>::empty());
        proof {
            lemma_frames_push(self.stack@, f);
        }
        self.stack.push(f);
    }

    fn top_last_child_end(&self) -> (r: Option<usize>)
        ensures
            r == top_last_child_end(self@.stack),
    {
        if self.stack.len() == 0 {
            None
        } else {
            self.stack[self.stack.len() - 1].last_child_end
        }
    }

    fn top_is_item(&self) -> (r: bool)
        ensures
            r == top_is_item(self@.stack),
    {
        let len = self.stack.len();
        len > 0 && (self.stack[len - 1].kind == FrameKind::ListItem || self.stack[len - 1].kind
            == FrameKind::TaskItem)
    }

    fn direct_item_index(&self) -> (r: Option<usize>)
        ensures
            match r {
                Some(i) => direct_item_index(self@.stack) == Some(i as int) && i < self@.stack.len(),
                None => direct_item_index(self@.stack) is None,
            },
    {
        let len = self.stack.len();
        if len == 0 {
            return None;
        }
        let last = self.stack[len - 1].kind;
        if last == FrameKind::ListItem || last == FrameKind::TaskItem {
            return Some(len - 1);
        }
        if len >= 2 && last == FrameKind::Paragraph {
            let parent = self.stack[len - 2].kind;
            if parent == FrameKind::ListItem || parent == FrameKind::TaskItem {
                return Some(len - 2);
            }
        }
        None
    }

    fn set_continuation_indent(&mut self, indent: usize)
        ensures
            final(self)@ == with_stack(old(self)@, with_continuation_indent(old(self)@.stack, indent)),
    {
        let i = match self.direct_item_index() {
            Some(i) => i,
            None => return ,
        };
        let ghost s0 = self.stack@;
        let mut frame = replace_frame(&mut self.stack, i, placeholder());
        let ghost s0_after = self.stack@;
        let mut attrs = match frame.attrs {
            Some(a) => a,
            None => JsonValue::empty_object(),
        };
        let ghost a0 = attrs@;
        let value: u64 = match attrs.get("continuationIndent") {
            Some(v) => match v.as_u64() {
                Some(previous) => {
                    if previous <= usize::MAX as u64 && (previous as usize) < indent {
                        previous
                    } else {
                        indent as u64
                    }
                },
                None => indent as u64,
            },
            None => indent as u64,
        };
        assert(value == continuation_value(a0, indent));
        attrs.set("continuationIndent", JsonValue::Number(JsonNumber::PosInt(value)));
        frame.attrs = Some(attrs);
        proof {
            lemma_frames_set(s0, s0_after, i as int, frame);
        }
        self.stack.set(i, frame);
    }

    fn loose_inline_item(&mut self)
        ensures
            final(self)@ == with_stack(old(self)@, loose_inline_item(old(self)@.stack)),
    {
        let i = match self.direct_item_index() {
            Some(i) => i,
            None => return ,
        };
        let ghost s0 = self.stack@;
        let mut frame = replace_frame(&mut self.stack, i, placeholder());
        let ghost s0_after = self.stack@;
        let mut attrs = match frame.attrs {
            Some(a) => a,
            None => JsonValue::empty_object(),
        };
        attrs.set("looseBeforeInline", JsonValue::Bool(true));
        frame.attrs = Some(attrs);
        proof {
            lemma_frames_set(s0, s0_after, i as int, frame);
        }
        self.stack.set(i, frame);
    }

    /// Marks the list item when inline content follows a blank line in it.
    fn loosen_inline(&mut self, markdown: &str, start: usize)
        ensures
            final(self)@ == loosen_inline(markdown.spec_bytes(), start as int, old(self)@),
    {
        if self.top_is_item() {
            if let Some(previous_end) = self.top_last_child_end() {
                if has_blank_between(markdown, previous_end, start) {
                    self.loose_inline_item();
                }
            }
        }
    }

    /// Adds `suffix` to the alt text of an image on top; whether it did.
    fn append_alt(&mut self, suffix: &str) -> (r: bool)
        ensures
            final(self)@ == with_stack(old(self)@, alt_appended(old(self)@.stack, suffix@).0),
            r == alt_appended(old(self)@.stack, suffix@).1,
    {
        let len = self.stack.len();
        if len == 0 || self.stack[len - 1].kind != FrameKind::Image {
            return false;
        }
        let is_object = match &self.stack[len - 1].attrs {
            Some(a) => a.is_object(),
            None => false,
        };
        if !is_object {
            return false;
        }
        let ghost s0 = self.stack@;
        let mut frame = replace_frame(&mut self.stack, len - 1, placeholder());
        let ghost s0_after = self.stack@;
        let mut attrs = match frame.attrs {
            Some(a) => a,
            None => JsonValue::Null,
        };
        let mut alt = String::new();
        if let Some(s) = attrs.str_field("alt") {
            alt.append(s.as_str());
        }
        alt.append(suffix);
        attrs.set("alt", JsonValue::String(alt));
        frame.attrs = Some(attrs);
        proof {
            lemma_frames_set(s0, s0_after, len - 1, frame);
        }
        self.stack.set(len - 1, frame);
        true
    }

    fn remove_last_mark(&mut self, mark_type: &str)
        ensures
            final(self)@ == with_marks(old(self)@, without_last_of_type(old(self)@.marks, mark_type@)),
    {
        let ghost m = views(self.marks@);
        let mut i = self.marks.len();
        while i > 0
            invariant
                i <= self.marks@.len(),
                self@ == old(self)@,
                m == views(self.marks@),
                forall|j: int| i <= j < m.len() ==> #[trigger] m[j].node_type() != Some(mark_type@),
            decreases i,
        {
            if self.marks[i - 1].has_type(mark_type) {
                proof {
                    lemma_without_last_of_type(m, mark_type@, i as int);
                    assert(m.take(i as int).last() == m[i - 1]);
                    assert(m.take(i as int).drop_last() + m.skip(i as int) =~= m.remove(i - 1));
                    assert(views(self.marks@.remove(i - 1)) =~= m.remove(i - 1));
                }
                self.marks.remove(i - 1);
                return ;
            }
            i -= 1;
        }
        proof {
            lemma_without_last_of_type(m, mark_type@, 0);
            assert(m.skip(0) =~= m);
            assert(m.take(0) =~= Seq::<JsonSpec>::empty());
        }
    }

    /// Opens the element that a start tag begins.
    fn start_tag(
        &mut self,
        tag: &MdTag,
        markdown: &str,
        start: usize,
        end: usize,
        loose_before: bool,
        scheme: &str,
    )
        ensures
            final(self)@ == tag_start(
                markdown.spec_bytes(),
                scheme@,
                *tag,
                start as int,
                end as int,
                old(self)@,
                loose_before,
            ),
    {
        match tag {
            MdTag::Paragraph => self.push_frame(FrameKind::Paragraph, None, loose_before),
            MdTag::Heading(level) => {
                let attrs = single_object("level", JsonValue::Number(JsonNumber::PosInt(*level as u64)));
                self.push_frame(FrameKind::Heading, Some(attrs), loose_before);
            },
            MdTag::BlockQuote => self.push_frame(FrameKind::BlockQuote, None, loose_before),
            MdTag::CodeBlock(info) => {
                let attrs = code_block_attributes(info);
                self.push_frame(FrameKind::CodeBlock, attrs, loose_before);
            },
            MdTag::List(first) => {
                match first {
                    Some(n) => {
                        let attrs = single_object("order", JsonValue::Number(JsonNumber::PosInt(*n)));
                        self.push_frame(FrameKind::OrderedList, Some(attrs), loose_before);
                    },
                    None => {
                        let attrs = bullet_list_attrs(markdown, start, end);
                        assert(opt_view(attrs) == list_marker_attrs(markdown.spec_bytes(), start as int, end as int));
                        self.push_frame(FrameKind::BulletList, attrs, loose_before);
                    },
                }
            },
            MdTag::Item => self.push_frame(FrameKind::ListItem, None, loose_before),
            MdTag::Table(alignments) => {
                let attrs = table_attributes(alignments);
                self.push_frame(FrameKind::Table, attrs, loose_before);
            },
            MdTag::TableHead => {
                let attrs = single_object("header", JsonValue::Bool(true));
                self.push_frame(FrameKind::TableRow, Some(attrs), loose_before);
            },
            MdTag::TableRow => self.push_frame(FrameKind::TableRow, None, loose_before),
            MdTag::TableCell => {
                let ghost fs = self@.stack;
                let mut is_header = false;
                let mut i: usize = 0;
                while i < self.stack.len()
                    invariant
                        i <= self.stack@.len(),
                        fs == frames(self.stack@),
                        is_header == exists|j: int|
                            0 <= j < i && #[trigger] fs[j].kind == FrameKind::TableRow && (fs[j].attrs matches Some(
                                a,
                            ) && a.get("header"@) is Some),
                    decreases self.stack.len() - i,
                {
                    let ghost fi = fs[i as int];
                    assert(fi == self.stack@[i as int]@);
                    if self.stack[i].kind == FrameKind::TableRow {
                        if let Some(a) = &self.stack[i].attrs {
                            if a.get("header").is_some() {
                                is_header = true;
                            }
                        }
                    }
                    i += 1;
                }
                assert(is_header == in_header_row(fs));
                let kind = if is_header {
                    FrameKind::TableHeader
                } else {
                    FrameKind::TableCell
                };
                self.push_frame(kind, None, loose_before);
            },
            MdTag::Emphasis => {
                let m = typed_node("italic");
                proof {
                    lemma_views_push(self.marks@, m);
                }
                self.marks.push(m);
            },
            MdTag::Strong => {
                let m = typed_node("bold");
                proof {
                    lemma_views_push(self.marks@, m);
                }
                self.marks.push(m);
            },
            MdTag::Strikethrough => {
                let m = typed_node("strike");
                proof {
                    lemma_views_push(self.marks@, m);
                }
                self.marks.push(m);
            },
            MdTag::Image { dest_url, title } => {
                let attrs = image_attributes(dest_url, title, scheme);
                self.push_frame(FrameKind::Image, Some(attrs), loose_before);
            },
            MdTag::Link { dest_url, title } => {
                let m = link_mark_node(dest_url, title);
                proof {
                    lemma_views_push(self.marks@, m);
                }
                self.marks.push(m);
            },
            MdTag::Other => {},
        }
    }

    /// Closes the innermost open element and adds its node to the element
    /// around it, or to the document.
    fn close_top(&mut self, tag_end: MdTagEnd, markdown: &str, start: usize, end: usize)
        ensures
            final(self)@ == close_top(markdown.spec_bytes(), tag_end, start as int, end, old(self)@),
    {
        let ghost s0 = self.stack@;
        let ghost st0 = self@;
        let frame = match self.stack.pop() {
            Some(f) => f,
            None => return ,
        };
        proof {
            lemma_frames_drop_last(s0);
        }
        let ghost fm = frame@;
        let ghost text0 = self.text@;
        let Frame { kind, content, attrs, loose_before, last_child_end: _ } = frame;
        let mut content = content;
        flush_text(&mut self.text, &self.marks, &mut content);
        if (kind == FrameKind::ListItem || kind == FrameKind::TaskItem) && content.len() > 0 && all_inline_nodes(
            &content,
        ) {
            let p = paragraph_node(content);
            let mut wrapped: Vec<JsonValue> = Vec::new();
            wrapped.push(p);
            assert(views(wrapped@) =~= seq![p@]);
            content = wrapped;
        }
        let mut final_attrs = if kind == FrameKind::TableRow {
            None
        } else {
            attrs
        };
        if loose_before {
            final_attrs = with_attr(final_attrs, "looseBefore");
        }
        if item_has_trailing_blank(markdown, start, end) {
            final_attrs = with_attr(final_attrs, "looseAfter");
        }
        if tag_end == MdTagEnd::List(true) {
            final_attrs = with_attr(final_attrs, "loose");
        }
        let ghost cv = views(content@);
        let ghost av = opt_view(final_attrs);
        let mut es: Vec<(String, JsonValue)> = Vec::new();
        es.push(entry("type", JsonValue::from_str(kind_name(kind))));
        let ghost e0 = entry_views(es@);
        assert(e0 =~= seq![("type"@, JsonSpec::Str(spec_kind_name(kind)))]);
        if content.len() > 0 {
            let c = JsonValue::array(content);
            es.push(entry("content", c));
            assert(entry_views(es@) =~= e0.push(("content"@, JsonSpec::Array(cv))));
        }
        let ghost e1 = entry_views(es@);
        if let Some(a) = final_attrs {
            es.push(entry("attrs", a));
            assert(entry_views(es@) =~= e1.push(("attrs"@, av->0)));
        }
        let ghost e2 = entry_views(es@);
        if kind == FrameKind::Image && self.marks.len() > 0 {
            let ms = JsonValue::array(copy_values(&self.marks));
            es.push(entry("marks", ms));
            assert(entry_views(es@) =~= e2.push(("marks"@, JsonSpec::Array(views(self.marks@)))));
        }
        let node = JsonValue::object(es);
        assert(node@ == closed_node(markdown.spec_bytes(), tag_end, start as int, end as int, fm, text0, views(self.marks@)));
        let ghost rest = self.stack@;
        match self.stack.pop() {
            Some(mut parent) => {
                proof {
                    lemma_frames_drop_last(rest);
                    lemma_views_push(parent.content@, node);
                }
                parent.content.push(node);
                parent.last_child_end = Some(end);
                proof {
                    lemma_frames_push(rest.drop_last(), parent);
                    lemma_frames_update(rest, rest.len() - 1, parent);
                    assert(rest.drop_last().push(parent) =~= rest.update(rest.len() - 1, parent));
                }
                self.stack.push(parent);
            },
            None => {
                proof {
                    lemma_views_push(self.doc@, node);
                }
                self.doc.push(node);
            },
        }
    }

    /// Inline text: added to an image's alt text, or pending.
    fn text_step(&mut self, markdown: &str, start: usize, t: &str)
        ensures
            final(self)@ == text_step(markdown.spec_bytes(), start as int, t@, old(self)@),
    {
        let ends_nl = self.text.len() > 0 && self.text[self.text.len() - 1] == '\n';
        self.loosen_inline(markdown, start);
        if ends_nl {
            self.set_continuation_indent(leading_indent_before(markdown, start));
        }
        if !self.append_alt(t) {
            let tc = chars_of(t);
            push_chars(&mut self.text, tc.as_slice());
        }
    }

    /// A code span: a text node with a `code` mark, or an image's alt text.
    fn code_step(&mut self, markdown: &str, start: usize, end: usize, code: &str)
        ensures
            final(self)@ == code_step(markdown.spec_bytes(), start as int, end as int, code@, old(self)@),
    {
        let code_chars = match raw_multiline_code_span(markdown, start, end) {
            Some(raw) => raw,
            None => chars_of(code),
        };
        let ends_nl = self.text.len() > 0 && self.text[self.text.len() - 1] == '\n';
        self.loosen_inline(markdown, start);
        if ends_nl {
            let source_indent = leading_indent_before(markdown, start);
            let continuation_indent = match raw_multiline_code_span_continuation_indent(markdown, start, end) {
                Some(c) => c,
                None => source_indent,
            };
            self.set_continuation_indent(continuation_indent);
            if source_indent > continuation_indent {
                let ghost m1 = self@;
                let n = source_indent - continuation_indent;
                let mut k: usize = 0;
                while k < n
                    invariant
                        k <= n,
                        self@ == with_text(m1, m1.text + spaces(k as nat)),
                    decreases n - k,
                {
                    assert(spaces((k + 1) as nat) =~= spaces(k as nat).push(' '));
                    self.text.push(' ');
                    assert(self@ =~= with_text(m1, m1.text + spaces((k + 1) as nat)));
                    k += 1;
                }
            }
        }
        let code_string = string_from_chars(code_chars.as_slice());
        if !self.append_alt(code_string.as_str()) {
            let mut code_marks = copy_values(&self.marks);
            let cm = typed_node("code");
            proof {
                lemma_views_push(code_marks@, cm);
            }
            code_marks.push(cm);
            let node = text_node(code_string, &code_marks);
            self.add_to_top(node);
        }
    }

    /// A task list marker: the item becomes a task item, the innermost
    /// bullet list a task list, and the innermost element gets `checked`.
    fn task_marker(&mut self, checked: bool)
        ensures
            final(self)@ == task_marker_step(checked, old(self)@),
    {
        let ghost s0 = self.stack@;
        let len = self.stack.len();
        if len > 0 && self.stack[len - 1].kind == FrameKind::ListItem {
            let mut f = replace_frame(&mut self.stack, len - 1, placeholder());
            let ghost s0_after = self.stack@;
            f.kind = FrameKind::TaskItem;
            proof {
                lemma_frames_set(s0, s0_after, len - 1, f);
            }
            self.stack.set(len - 1, f);
        }
        let ghost s1 = self.stack@;
        match last_bullet(&self.stack) {
            Some(j) => {
                let mut f = replace_frame(&mut self.stack, j, placeholder());
                let ghost s1_after = self.stack@;
                f.kind = FrameKind::TaskList;
                proof {
                    lemma_frames_set(s1, s1_after, j as int, f);
                }
                self.stack.set(j, f);
            },
            None => {},
        }
        let ghost s2 = self.stack@;
        let len = self.stack.len();
        if len > 0 {
            let mut f = replace_frame(&mut self.stack, len - 1, placeholder());
            let ghost s2_after = self.stack@;
            f.attrs = Some(single_object("checked", JsonValue::Bool(checked)));
            proof {
                lemma_frames_set(s2, s2_after, len - 1, f);
            }
            self.stack.set(len - 1, f);
        }
    }

    /// One parse event with its byte range.
    #[verifier::rlimit(40)]
    fn step(&mut self, markdown: &str, ev: &(MdEvent, usize, usize), scheme: &str)
        ensures
            final(self)@ == md_step(markdown.spec_bytes(), scheme@, old(self)@, *ev),
    {
        let start = ev.1;
        let end = ev.2;
        match &ev.0 {
            MdEvent::Start(tag) => {
                self.flush_top();
                let loose_before = match self.top_last_child_end() {
                    Some(previous_end) => has_blank_between(markdown, previous_end, start),
                    None => false,
                };
                self.start_tag(tag, markdown, start, end, loose_before, scheme);
            },
            MdEvent::End(tag_end) => {
                if block_end(*tag_end) {
                    self.close_top(*tag_end, markdown, start, end);
                } else {
                    match ending_mark_type(*tag_end) {
                        Some(t) => {
                            self.flush_top();
                            self.remove_last_mark(t);
                        },
                        None => {},
                    }
                }
            },
            MdEvent::Text(t) => self.text_step(markdown, start, t.as_str()),
            MdEvent::Code(code) => self.code_step(markdown, start, end, code.as_str()),
            MdEvent::SoftBreak => {
                if !self.append_alt(" ") {
                    self.text.push('\n');
                }
            },
            MdEvent::HardBreak => {
                if !self.append_alt(" ") {
                    self.add_to_top(typed_node("hardBreak"));
                }
            },
            MdEvent::Rule => {
                if self.stack.len() > 0 {
                    self.add_to_top(typed_node("horizontalRule"));
                } else {
                    let r = typed_node("horizontalRule");
                    proof {
                        lemma_views_push(self.doc@, r);
                    }
                    self.doc.push(r);
                }
            },
            MdEvent::TaskListMarker(checked) => self.task_marker(*checked),
            MdEvent::Other => {},
        }
    }
}

/// Marks whether a document is a ProseMirror `doc` with at least one block.
pub open spec fn is_nonempty_doc(d: JsonSpec) -> bool {
    &&& d.node_type() == Some("doc"@)
    &&& d.array_field("content"@) matches Some(c) && c.len() > 0
}

/// Builds the ProseMirror document that the Markdown parse `events` (each
/// with its byte range in `markdown`) describe; standalone attachment links
/// become attachment nodes.
pub fn events_to_document(markdown: &str, events: &Vec<(MdEvent, usize, usize)>, attachment_uri_scheme: &str) -> (r: JsonValue)
    ensures
        r@ == spec_events_to_document(markdown@, events@, attachment_uri_scheme@),
        is_nonempty_doc(r@),
{
    let ghost b = markdown.spec_bytes();
    let mut builder = Builder::new();
    let mut i: usize = 0;
    while i < events.len()
        invariant
            i <= events@.len(),
            b == markdown.spec_bytes(),
            builder@ == build_upto(b, attachment_uri_scheme@, events@, i as nat),
        decreases events.len() - i,
    {
        let ghost prev = builder@;
        let ev = &events[i];
        assert(*ev == events@[i as int]);
        builder.step(markdown, ev, attachment_uri_scheme);
        assert(builder@ == md_step(b, attachment_uri_scheme@, prev, events@[i as int]));
        i += 1;
    }
    let ghost last = builder@;
    let Builder { doc, stack: _, marks, text } = builder;
    let mut doc_content = doc;
    if text.len() > 0 {
        let node = text_node(string_from_chars(text.as_slice()), &marks);
        let mut inline: Vec<JsonValue> = Vec::new();
        inline.push(node);
        assert(views(inline@) =~= seq![node@]);
        let p = paragraph_node(inline);
        proof {
            lemma_views_push(doc_content@, p);
        }
        doc_content.push(p);
    }
    if doc_content.len() == 0 {
        let empty: Vec<JsonValue> = Vec::new();
        assert(views(empty@) =~= Seq::<JsonSpec>::empty());
        let p = paragraph_node(empty);
        proof {
            lemma_views_push(doc_content@, p);
        }
        doc_content.push(p);
    }
    assert(views(doc_content@) == final_blocks(last));
    let ghost before = doc_content@.len();
    upgrade_standalone_attachment_links(&mut doc_content, attachment_uri_scheme);
    assert(views(doc_content@).len() == before);
    new_doc(doc_content)
}

pub(crate) fn new_doc(content: Vec<JsonValue>) -> (r: JsonValue)
    requires
        content@.len() > 0,
    ensures
        is_nonempty_doc(r@),
        r@ == doc_of(views(content@)),
{
    let ghost cv = views(content@);
    let c = JsonValue::array(content);
    let mut es: Vec<(String, JsonValue)> = Vec::new();
    es.push(entry("type", JsonValue::from_str("doc")));
    es.push(entry("content", c));
    let r = JsonValue::object(es);
    proof {
        reveal_strlit("type");
        reveal_strlit("content");
        reveal_strlit("doc");
        let ev = entry_views(es@);
        assert(ev =~= seq![("type"@, JsonSpec::Str("doc"@)), ("content"@, JsonSpec::Array(cv))]);
        assert(ev[0].0 == "type"@);
        assert(ev[1].0 == "content"@);
        assert(ev[0].0 != "content"@);
        assert(ev.drop_first()[0] == ev[1]);
        assert(crate::json::entries_get(ev.drop_first(), "content"@) == Some(ev[1].1));
        assert(crate::json::entries_get(ev, "content"@) == Some(ev[1].1));
        assert(crate::json::entries_get(ev, "type"@) == Some(ev[0].1));
        assert(cv.len() > 0);
    }
    r
}

/// The Markdown extensions the parser runs with: tables, strikethrough and
/// task lists (`pulldown_cmark::Options` bits).
pub const MARKDOWN_OPTIONS: u32 = 26;

/// Converts GitHub Flavored Markdown to a ProseMirror document: the document
/// that the parser's events for `markdown` describe.
pub fn markdown_to_prosemirror(markdown: &str, attachment_uri_scheme: &str) -> (r: JsonValue)
    ensures
        r@ == spec_events_to_document(markdown@, markdown_events(markdown@, MARKDOWN_OPTIONS), attachment_uri_scheme@),
        is_nonempty_doc(r@),
{
    let events = parse_markdown_events(markdown, MARKDOWN_OPTIONS);
    events_to_document(markdown, &events, attachment_uri_scheme)
}

} // verus!
