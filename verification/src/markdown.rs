//! Markdown to preview blocks.
//!
//! The preview is built natively, without a web engine: most content becomes
//! Pango markup shown in labels, headings get their own block so the outline
//! can jump to them, tables stay tables and code blocks are highlighted.
//!
//! Parsing is pulldown-cmark's; this module folds its event stream into
//! blocks. Highlighting is syntect's; this module turns its styled spans into
//! Pango markup.

use vstd::prelude::*;

use pulldown_cmark::{CodeBlockKind, Event, Options, Parser, Tag, TagEnd};
use syntect::easy::HighlightLines;
use syntect::highlighting::ThemeSet;
use syntect::parsing::SyntaxSet;
use syntect::util::LinesWithEndings;

use crate::text;
use crate::text::{
    chars_of, esc_html, first_word_of, has_prefix, has_prefix_ascii_ci, push_char, push_decimal, push_escaped,
    string_of, trimmed,
};







verus! {

// ---------------------------------------------------------------------------
// The event stream
// ---------------------------------------------------------------------------

/// An opening tag of the Markdown event stream, with what the preview reads
/// of it.
pub enum MdTag {
    Paragraph,
    /// A heading of level 1 to 6.
    Heading(u8),
    /// A code block: `None` when indented, else the fence's info string.
    CodeBlock(Option<String>),
    /// A list: the number of its first item when ordered.
    List(Option<u64>),
    Item,
    Table,
    TableHead,
    TableRow,
    TableCell,
    Emphasis,
    Strong,
    Strikethrough,
    /// A link and its destination.
    Link(String),
    /// An image and its source URL.
    Image(String),
    /// Any other element (block quote, footnote, HTML block, ...).
    Other,
}

/// A closing tag of the Markdown event stream.
#[derive(PartialEq, Eq, Structural, Clone, Copy)]
pub enum MdTagEnd {
    Paragraph,
    Heading(u8),
    CodeBlock,
    /// The end of a list; `true` when it was ordered.
    List(bool),
    Item,
    Table,
    TableHead,
    TableRow,
    TableCell,
    Emphasis,
    Strong,
    Strikethrough,
    Link,
    Image,
    Other,
}

/// One event of the Markdown event stream.
pub enum MdEvent {
    /// An opening tag and the byte offset where its element starts.
    Start(MdTag, usize),
    End(MdTagEnd),
    Text(String),
    /// Inline code.
    Code(String),
    SoftBreak,
    HardBreak,
    /// A thematic break.
    Rule,
    /// A task list checkbox; `true` when checked.
    TaskListMarker(bool),
    /// Any other event (HTML, footnote reference, math, ...).
    Other,
}

/// The mathematical value of an [`MdTag`].
pub enum TagView {
    Paragraph,
    Heading(u8),
    CodeBlock(Option<Seq<char>>),
    List(Option<u64>),
    Item,
    Table,
    TableHead,
    TableRow,
    TableCell,
    Emphasis,
    Strong,
    Strikethrough,
    Link(Seq<char>),
    Image(Seq<char>),
    Other,
}

/// The mathematical value of an [`MdEvent`].
pub enum EventView {
    Start(TagView, usize),
    End(MdTagEnd),
    Text(Seq<char>),
    Code(Seq<char>),
    SoftBreak,
    HardBreak,
    Rule,
    TaskListMarker(bool),
    Other,
}

impl View for MdTag {
    type V = TagView;

    open spec fn view(&self) -> TagView {
        match self {
            MdTag::Paragraph => TagView::Paragraph,
            MdTag::Heading(l) => TagView::Heading(*l),
            MdTag::CodeBlock(info) => TagView::CodeBlock(
                match info {
                    Some(s) => Some(s@),
                    None => None,
                },
            ),
            MdTag::List(n) => TagView::List(*n),
            MdTag::Item => TagView::Item,
            MdTag::Table => TagView::Table,
            MdTag::TableHead => TagView::TableHead,
            MdTag::TableRow => TagView::TableRow,
            MdTag::TableCell => TagView::TableCell,
            MdTag::Emphasis => TagView::Emphasis,
            MdTag::Strong => TagView::Strong,
            MdTag::Strikethrough => TagView::Strikethrough,
            MdTag::Link(u) => TagView::Link(u@),
            MdTag::Image(u) => TagView::Image(u@),
            MdTag::Other => TagView::Other,
        }
    }
}

impl View for MdEvent {
    type V = EventView;

    open spec fn view(&self) -> EventView {
        match self {
            MdEvent::Start(t, at) => EventView::Start(t@, *at),
            MdEvent::End(t) => EventView::End(*t),
            MdEvent::Text(s) => EventView::Text(s@),
            MdEvent::Code(s) => EventView::Code(s@),
            MdEvent::SoftBreak => EventView::SoftBreak,
            MdEvent::HardBreak => EventView::HardBreak,
            MdEvent::Rule => EventView::Rule,
            MdEvent::TaskListMarker(b) => EventView::TaskListMarker(*b),
            MdEvent::Other => EventView::Other,
        }
    }
}

/// The parser extensions the preview turns on: tables, footnotes,
/// strikethrough and task lists.
pub const MARKDOWN_OPTIONS: u32 = (1u32 << 1) | (1u32 << 2) | (1u32 << 3) | (1u32 << 4);

/// The events, with the byte offsets of the opening tags, that
/// pulldown-cmark's `Parser::new_ext(source, options).into_offset_iter()`
/// yields, as this module's [`EventView`]s.
pub uninterp spec fn markdown_events(source: Seq<char>, options: u32) -> Seq<EventView>;

/// The HTML that pulldown-cmark's `html::push_html` writes for
/// `Parser::new_ext(source, options)`.
pub uninterp spec fn markdown_html(source: Seq<char>, options: u32) -> Seq<char>;

/// The views of a vector of events.
pub open spec fn events_view(events: Seq<MdEvent>) -> Seq<EventView> {
    events.map_values(|e: MdEvent| e@)
}

/// What every event of the parser satisfies: a heading's level is 1 to 6,
/// and an opening tag starts within the `len` bytes of the source.
pub open spec fn event_fits(e: EventView, len: nat) -> bool {
    match e {
        EventView::Start(tag, at) => at <= len && (tag matches TagView::Heading(l) ==> 1 <= l <= 6),
        EventView::End(tag) => tag matches MdTagEnd::Heading(l) ==> 1 <= l <= 6,
        _ => true,
    }
}

/// Every event of `events` satisfies [`event_fits`].
pub open spec fn events_fit(events: Seq<EventView>, len: nat) -> bool {
    forall|i: int| 0 <= i < events.len() ==> event_fits(#[trigger] events[i], len)
}

/// pulldown-cmark: `Parser::new_ext(source, options).into_offset_iter()`,
/// each event converted to an [`MdEvent`] with the start offset of its range.
/// The result is named ([`markdown_events`]). Of its events the contract
/// claims only two facts the crate's source shows: heading levels come from
/// `HeadingLevel`, which runs from `H1 = 1` to `H6 = 6`, and each range lies
/// in the source (`into_offset_iter`: the range "maps to the corresponding
/// range in the markdown source"), so a start offset is at most the source's
/// length in bytes. No other property of CommonMark parsing is claimed.
#[verifier::external_body]
pub(crate) fn parse_events(source: &str, options: u32) -> (r: Vec<MdEvent>)
    ensures
        events_view(r@) == markdown_events(source@, options),
        events_fit(events_view(r@), vstd::utf8::encode_utf8(source@).len()),
{
    Parser::new_ext(source, Options::from_bits_truncate(options))
        .into_offset_iter()
        .map(|(event, range)| from_cmark_event(event, range.start))
        .collect()
}

/// pulldown-cmark: `html::push_html` into an empty string for
/// `Parser::new_ext(source, options)`. The contract names the result
/// ([`markdown_html`]) and claims nothing more of it.
#[verifier::external_body]
pub(crate) fn markdown_to_html(source: &str, options: u32) -> (r: String)
    ensures
        r@ == markdown_html(source@, options),
{
    let mut body = String::new();
    pulldown_cmark::html::push_html(&mut body, Parser::new_ext(source, Options::from_bits_truncate(options)));
    body
}

/// pulldown-cmark's `Event`, carried opaquely into the conversions below.
#[verifier::external_type_specification]
#[verifier::external_body]
pub struct ExCmarkEvent<'a>(pulldown_cmark::Event<'a>);

/// pulldown-cmark's `Tag`, carried opaquely into the conversions below.
#[verifier::external_type_specification]
#[verifier::external_body]
pub struct ExCmarkTag<'a>(pulldown_cmark::Tag<'a>);

/// pulldown-cmark's `TagEnd`, carried opaquely into the conversions below.
#[verifier::external_type_specification]
#[verifier::external_body]
pub struct ExCmarkTagEnd(pulldown_cmark::TagEnd);

/// Converts one pulldown-cmark event; used only inside [`parse_events`].
#[verifier::external_body]
fn from_cmark_event(event: Event, at: usize) -> MdEvent {
    match event {
        Event::Start(tag) => MdEvent::Start(from_cmark_tag(tag), at),
        Event::End(tag) => MdEvent::End(from_cmark_tag_end(tag)),
        Event::Text(s) => MdEvent::Text(s.to_string()),
        Event::Code(s) => MdEvent::Code(s.to_string()),
        Event::SoftBreak => MdEvent::SoftBreak,
        Event::HardBreak => MdEvent::HardBreak,
        Event::Rule => MdEvent::Rule,
        Event::TaskListMarker(b) => MdEvent::TaskListMarker(b),
        _ => MdEvent::Other,
    }
}

/// Converts a pulldown-cmark opening tag that carries data; used only inside
/// [`parse_events`].
#[verifier::external_body]
fn from_cmark_tag(tag: Tag) -> MdTag {
    match tag {
        Tag::Heading { level, .. } => MdTag::Heading(level as u8),
        Tag::CodeBlock(CodeBlockKind::Indented) => MdTag::CodeBlock(None),
        Tag::CodeBlock(CodeBlockKind::Fenced(info)) => MdTag::CodeBlock(Some(info.to_string())),
        Tag::List(start) => MdTag::List(start),
        Tag::Link { dest_url, .. } => MdTag::Link(dest_url.to_string()),
        Tag::Image { dest_url, .. } => MdTag::Image(dest_url.to_string()),
        other => from_cmark_plain_tag(other),
    }
}

/// Converts a pulldown-cmark opening tag without data; used only inside
/// [`parse_events`].
#[verifier::external_body]
fn from_cmark_plain_tag(tag: Tag) -> MdTag {
    match tag {
        Tag::Paragraph => MdTag::Paragraph,
        Tag::Item => MdTag::Item,
        Tag::Table(_) => MdTag::Table,
        Tag::TableHead => MdTag::TableHead,
        Tag::TableRow => MdTag::TableRow,
        Tag::TableCell => MdTag::TableCell,
        Tag::Emphasis => MdTag::Emphasis,
        Tag::Strong => MdTag::Strong,
        Tag::Strikethrough => MdTag::Strikethrough,
        _ => MdTag::Other,
    }
}

/// Converts a pulldown-cmark block-level closing tag; used only inside
/// [`parse_events`].
#[verifier::external_body]
fn from_cmark_tag_end(tag: TagEnd) -> MdTagEnd {
    match tag {
        TagEnd::Paragraph => MdTagEnd::Paragraph,
        TagEnd::Heading(level) => MdTagEnd::Heading(level as u8),
        TagEnd::CodeBlock => MdTagEnd::CodeBlock,
        TagEnd::List(ordered) => MdTagEnd::List(ordered),
        TagEnd::Item => MdTagEnd::Item,
        TagEnd::Table => MdTagEnd::Table,
        TagEnd::TableHead => MdTagEnd::TableHead,
        TagEnd::TableRow => MdTagEnd::TableRow,
        TagEnd::TableCell => MdTagEnd::TableCell,
        other => from_cmark_inline_tag_end(other),
    }
}

/// Converts a pulldown-cmark inline closing tag; used only inside
/// [`parse_events`].
#[verifier::external_body]
fn from_cmark_inline_tag_end(tag: TagEnd) -> MdTagEnd {
    match tag {
        TagEnd::Emphasis => MdTagEnd::Emphasis,
        TagEnd::Strong => MdTagEnd::Strong,
        TagEnd::Strikethrough => MdTagEnd::Strikethrough,
        TagEnd::Link => MdTagEnd::Link,
        TagEnd::Image => MdTagEnd::Image,
        _ => MdTagEnd::Other,
    }
}


// ---------------------------------------------------------------------------
// Source lines
// ---------------------------------------------------------------------------

/// The byte offset of every line start of `bytes`: 0, then one past each
/// `\n`.
pub open spec fn line_starts_of(bytes: Seq<u8>) -> Seq<usize>
    decreases bytes.len(),
{
    if bytes.len() == 0 {
        seq![0usize]
    } else if bytes.last() == 10u8 {
        line_starts_of(bytes.drop_last()).push(bytes.len() as usize)
    } else {
        line_starts_of(bytes.drop_last())
    }
}

/// How many entries of `starts` are at most `offset`.
pub open spec fn count_at_most(starts: Seq<usize>, offset: usize) -> nat
    decreases starts.len(),
{
    if starts.len() == 0 {
        0
    } else {
        count_at_most(starts.drop_last(), offset) + if starts.last() <= offset {
            1nat
        } else {
            0nat
        }
    }
}

/// The 1-based line that holds byte `offset`, given the line starts.
pub open spec fn line_number(starts: Seq<usize>, offset: usize) -> usize {
    let c = count_at_most(starts, offset);
    if c == 0 {
        1usize
    } else {
        c as usize
    }
}

/// `s` is sorted in non-decreasing order.
pub open spec fn is_sorted(s: Seq<usize>) -> bool {
    forall|i: int, j: int| 0 <= i <= j < s.len() ==> s[i] <= s[j]
}

/// How many bytes of `bytes[..k]` are `\n`.
pub open spec fn newlines_before(bytes: Seq<u8>, k: int) -> nat
    decreases k,
{
    if k <= 0 || bytes.len() == 0 {
        0
    } else if k > bytes.len() {
        newlines_before(bytes, bytes.len() as int)
    } else {
        newlines_before(bytes, k - 1) + if bytes[k - 1] == 10u8 {
            1nat
        } else {
            0nat
        }
    }
}

proof fn lemma_line_starts_sorted(bytes: Seq<u8>)
    requires
        bytes.len() <= usize::MAX,
    ensures
        is_sorted(line_starts_of(bytes)),
        line_starts_of(bytes).len() >= 1,
        line_starts_of(bytes)[0] == 0,
        forall|i: int|
            0 <= i < line_starts_of(bytes).len() ==> #[trigger] line_starts_of(bytes)[i]
                <= bytes.len(),
    decreases bytes.len(),
{
    if bytes.len() > 0 {
        lemma_line_starts_sorted(bytes.drop_last());
    }
}

proof fn lemma_count_partition(s: Seq<usize>, offset: usize, p: int)
    requires
        0 <= p <= s.len(),
        forall|j: int| 0 <= j < p ==> #[trigger] s[j] <= offset,
        forall|j: int| p <= j < s.len() ==> #[trigger] s[j] > offset,
    ensures
        count_at_most(s, offset) == p,
    decreases s.len(),
{
    if s.len() > 0 {
        if p == s.len() {
            lemma_count_partition(s.drop_last(), offset, p - 1);
        } else {
            lemma_count_partition(s.drop_last(), offset, p);
        }
    }
}

/// The number of line starts at most `offset` is one more than the number of
/// newlines before it.
proof fn lemma_count_line_starts(bytes: Seq<u8>, offset: usize)
    requires
        bytes.len() <= usize::MAX,
    ensures
        count_at_most(line_starts_of(bytes), offset) == 1 + newlines_before(
            bytes,
            if offset < bytes.len() { offset as int } else { bytes.len() as int },
        ),
    decreases bytes.len(),
{
    if bytes.len() > 0 {
        let n = bytes.len() as int;
        let b = bytes.drop_last();
        lemma_count_line_starts(b, offset);
        let k = if offset < b.len() { offset as int } else { b.len() as int };
        lemma_newlines_prefix(bytes, k);
        let sb = line_starts_of(b);
        if bytes.last() == 10u8 {
            assert(sb.push(n as usize).drop_last() =~= sb);
            assert(line_starts_of(bytes) == sb.push(n as usize));
            assert(count_at_most(line_starts_of(bytes), offset) == count_at_most(sb, offset)
                + if (n as usize) <= offset { 1nat } else { 0nat });
        } else {
            assert(line_starts_of(bytes) == sb);
        }
        if offset >= n {
            assert(newlines_before(bytes, n) == newlines_before(bytes, n - 1) + if bytes[n - 1]
                == 10u8 {
                1nat
            } else {
                0nat
            });
        }
    } else {
        assert(line_starts_of(bytes) =~= seq![0usize]);
        assert(seq![0usize].drop_last() =~= Seq::<usize>::empty());
        assert(count_at_most(Seq::<usize>::empty(), offset) == 0);
        assert(count_at_most(seq![0usize], offset) == 1);
    }
}

proof fn lemma_newlines_prefix(bytes: Seq<u8>, k: int)
    requires
        0 <= k <= bytes.len() - 1,
    ensures
        newlines_before(bytes, k) == newlines_before(bytes.drop_last(), k),
    decreases k,
{
    if k > 0 {
        lemma_newlines_prefix(bytes, k - 1);
    }
}

proof fn lemma_newlines_bound(bytes: Seq<u8>, k: int)
    requires
        0 <= k <= bytes.len(),
    ensures
        newlines_before(bytes, k) <= k,
    decreases k,
{
    if k > 0 {
        lemma_newlines_bound(bytes, k - 1);
    }
}

/// The 1-based line of byte `offset` is one more than the number of newlines
/// before it.
pub proof fn law_line_number_counts_newlines(bytes: Seq<u8>, offset: usize)
    requires
        bytes.len() < usize::MAX,
    ensures
        line_number(line_starts_of(bytes), offset) == 1 + newlines_before(
            bytes,
            if offset < bytes.len() { offset as int } else { bytes.len() as int },
        ),
{
    lemma_count_line_starts(bytes, offset);
    lemma_newlines_bound(bytes, if offset < bytes.len() { offset as int } else { bytes.len() as int });
}

/// The byte offsets where the lines of `bytes` start.
pub fn line_starts(bytes: &[u8]) -> (r: Vec<usize>)
    ensures
        r@ == line_starts_of(bytes@),
{
    let n = bytes.len();
    let mut r: Vec<usize> = Vec::new();
    r.push(0);
    let mut i: usize = 0;
    assert(bytes@.take(0) =~= Seq::<u8>::empty());
    while i < n
        invariant
            i <= n == bytes@.len(),
            r@ == line_starts_of(bytes@.take(i as int)),
        decreases n - i,
    {
        let ghost prev = bytes@.take(i as int);
        assert(bytes@.take(i + 1).drop_last() =~= prev);
        if bytes[i] == 10u8 {
            r.push(i + 1);
        }
        i += 1;
    }
    assert(bytes@.take(n as int) =~= bytes@);
    r
}

/// The 1-based line holding byte `offset`, given sorted line starts: the
/// number of starts at or before `offset`, and at least 1.
pub fn line_at(starts: &Vec<usize>, offset: usize) -> (r: usize)
    requires
        is_sorted(starts@),
    ensures
        r == line_number(starts@, offset),
{
    let mut lo: usize = 0;
    let mut hi: usize = starts.len();
    while lo < hi
        invariant
            lo <= hi <= starts.len(),
            is_sorted(starts@),
            forall|j: int| 0 <= j < lo ==> #[trigger] starts@[j] <= offset,
            forall|j: int| hi <= j < starts@.len() ==> #[trigger] starts@[j] > offset,
        decreases hi - lo,
    {
        let mid = lo + (hi - lo) / 2;
        if starts[mid] <= offset {
            assert forall|j: int| 0 <= j < mid + 1 implies #[trigger] starts@[j] <= offset by {
                assert(starts@[j] <= starts@[mid as int]);
            }
            lo = mid + 1;
        } else {
            assert forall|j: int| mid <= j < starts@.len() implies #[trigger] starts@[j] > offset by {
                assert(starts@[mid as int] <= starts@[j]);
            }
            hi = mid;
        }
    }
    proof {
        lemma_count_partition(starts@, offset, lo as int);
    }
    if lo == 0 {
        1
    } else {
        lo
    }
}

// ---------------------------------------------------------------------------
// Blocks
// ---------------------------------------------------------------------------

/// A preview block before code highlighting: code blocks still hold their
/// source and language.
pub enum Draft {
    /// A run of non-table content, as Pango markup.
    Markup(String),
    /// A heading: styled markup, plain text for the outline and the 1-based
    /// source line.
    Heading { level: u8, markup: String, text: String, line: usize },
    /// A code block's source and language token.
    Code { code: String, lang: String },
    /// An image: the resolved local file, if any, its URL and alt text.
    Image { path: Option<String>, url: String, alt: String },
    /// A table: header cells and rows of cells, as Pango markup.
    Table { head: Vec<String>, rows: Vec<Vec<String>> },
}

/// The mathematical value of a [`Draft`].
pub enum DraftView {
    Markup(Seq<char>),
    Heading { level: u8, markup: Seq<char>, text: Seq<char>, line: usize },
    Code { code: Seq<char>, lang: Seq<char> },
    Image { path: Option<Seq<char>>, url: Seq<char>, alt: Seq<char> },
    Table { head: Seq<Seq<char>>, rows: Seq<Seq<Seq<char>>> },
}

/// The view of an optional string.
pub open spec fn opt_view(s: Option<String>) -> Option<Seq<char>> {
    match s {
        Some(x) => Some(x@),
        None => None,
    }
}

/// The view of an optional string slice.
pub open spec fn opt_str_view(s: Option<&str>) -> Option<Seq<char>> {
    match s {
        Some(x) => Some(x@),
        None => None,
    }
}

impl View for Draft {
    type V = DraftView;

    open spec fn view(&self) -> DraftView {
        match self {
            Draft::Markup(m) => DraftView::Markup(m@),
            Draft::Heading { level, markup, text, line } => DraftView::Heading {
                level: *level,
                markup: markup@,
                text: text@,
                line: *line,
            },
            Draft::Code { code, lang } => DraftView::Code { code: code@, lang: lang@ },
            Draft::Image { path, url, alt } => DraftView::Image {
                path: opt_view(*path),
                url: url@,
                alt: alt@,
            },
            Draft::Table { head, rows } => DraftView::Table {
                head: head.deep_view(),
                rows: rows.deep_view(),
            },
        }
    }
}

/// The views of a vector of drafts.
pub open spec fn drafts_view(d: Seq<Draft>) -> Seq<DraftView> {
    d.map_values(|x: Draft| x@)
}

// ---------------------------------------------------------------------------
// Pieces of markup
// ---------------------------------------------------------------------------

/// The font size of a heading level.
pub open spec fn heading_size(level: u8) -> Seq<char> {
    if level == 1 {
        "180%"@
    } else if level == 2 {
        "150%"@
    } else if level == 3 {
        "125%"@
    } else if level == 4 {
        "110%"@
    } else if level == 5 {
        "100%"@
    } else {
        "90%"@
    }
}

/// The opening markup of a heading.
pub open spec fn heading_open(level: u8) -> Seq<char> {
    "<span size=\""@ + heading_size(level) + "\" weight=\"bold\">"@
}

/// The language token of a code block: the first word of a fence's info
/// string, nothing for an indented block.
pub open spec fn code_lang(info: Option<Seq<char>>) -> Seq<char> {
    match info {
        Some(i) => text::first_word(i),
        None => Seq::empty(),
    }
}

/// The URL is remote (http, https or data), whatever the case of its scheme.
pub open spec fn is_remote_url(url: Seq<char>) -> bool {
    ||| text::starts_with_ascii_ci(url, "http://"@)
    ||| text::starts_with_ascii_ci(url, "https://"@)
    ||| text::starts_with_ascii_ci(url, "data:"@)
}

/// `url` without a leading `file://`.
pub open spec fn strip_file_scheme(url: Seq<char>) -> Seq<char> {
    if text::starts_with(url, "file://"@) {
        url.subrange(7, url.len() as int)
    } else {
        url
    }
}

/// `rel` appended to the directory `base` as `Path::join` does for a relative
/// path: a `/` between them unless `base` is empty or already ends with one.
pub open spec fn join_path(base: Seq<char>, rel: Seq<char>) -> Seq<char> {
    if base.len() == 0 || base.last() == '/' {
        base + rel
    } else {
        base + seq!['/'] + rel
    }
}

/// The local file an image URL names: none for remote URLs, the path itself
/// when absolute, else the path under `base_dir` when there is one.
pub open spec fn image_path(url: Seq<char>, base_dir: Option<Seq<char>>) -> Option<Seq<char>> {
    if is_remote_url(url) {
        None
    } else {
        let raw = strip_file_scheme(url);
        if raw.len() > 0 && raw[0] == '/' {
            Some(raw)
        } else {
            match base_dir {
                Some(d) => Some(join_path(d, raw)),
                None => None,
            }
        }
    }
}

/// The text a thematic break adds.
pub open spec fn rule_text() -> Seq<char> {
    "\n──────────────────────\n\n"@
}

/// The marker of a task list item.
pub open spec fn task_marker(checked: bool) -> Seq<char> {
    if checked {
        "☑  "@
    } else {
        "☐  "@
    }
}

/// The nesting depth of the innermost list.
pub open spec fn list_depth(lists: Seq<Option<u64>>) -> nat {
    if lists.len() > 0 {
        (lists.len() - 1) as nat
    } else {
        0
    }
}

/// The number after `n` in an ordered list, wrapping at `u64::MAX`.
pub open spec fn next_number(n: u64) -> u64 {
    if n == u64::MAX {
        0
    } else {
        (n + 1) as u64
    }
}

/// The marker of a new list item: its number in an ordered list, a bullet
/// otherwise.
pub open spec fn item_marker(lists: Seq<Option<u64>>) -> Seq<char> {
    if lists.len() > 0 && lists.last() is Some {
        text::decimal(lists.last()->0 as nat) + ". "@
    } else {
        "•  "@
    }
}

/// The list stack once an item has taken its number.
pub open spec fn lists_after_item(lists: Seq<Option<u64>>) -> Seq<Option<u64>> {
    if lists.len() > 0 && lists.last() is Some {
        lists.update(lists.len() - 1, Some(next_number(lists.last()->0)))
    } else {
        lists
    }
}

// ---------------------------------------------------------------------------
// The fold over the event stream
// ---------------------------------------------------------------------------

/// The state of the fold: blocks so far, the pending run of markup, and the
/// element being collected (heading, code block, image, table).
pub struct Scan {
    pub blocks: Seq<DraftView>,
    pub out: Seq<char>,
    pub lists: Seq<Option<u64>>,
    pub in_code: bool,
    pub code: Seq<char>,
    pub lang: Seq<char>,
    pub in_heading: bool,
    pub head_markup: Seq<char>,
    pub head_text: Seq<char>,
    pub head_level: u8,
    pub head_line: usize,
    pub in_image: bool,
    pub img_url: Seq<char>,
    pub img_alt: Seq<char>,
    pub in_table: bool,
    pub in_head: bool,
    pub head: Seq<Seq<char>>,
    pub rows: Seq<Seq<Seq<char>>>,
    pub row: Seq<Seq<char>>,
    pub cell: Seq<char>,
}

/// The state before the first event.
pub open spec fn scan_start() -> Scan {
    Scan {
        blocks: Seq::empty(),
        out: Seq::empty(),
        lists: Seq::empty(),
        in_code: false,
        code: Seq::empty(),
        lang: Seq::empty(),
        in_heading: false,
        head_markup: Seq::empty(),
        head_text: Seq::empty(),
        head_level: 1,
        head_line: 1,
        in_image: false,
        img_url: Seq::empty(),
        img_alt: Seq::empty(),
        in_table: false,
        in_head: false,
        head: Seq::empty(),
        rows: Seq::empty(),
        row: Seq::empty(),
        cell: Seq::empty(),
    }
}

/// Inline content goes to the heading being built, else to the table cell
/// being built, else to the pending run of markup.
pub open spec fn push_inline(st: Scan, s: Seq<char>) -> Scan {
    if st.in_heading {
        Scan { head_markup: st.head_markup + s, ..st }
    } else if st.in_table {
        Scan { cell: st.cell + s, ..st }
    } else {
        Scan { out: st.out + s, ..st }
    }
}

/// Close the pending run: it becomes a markup block, trimmed, unless blank.
pub open spec fn flush(st: Scan) -> Scan {
    let t = text::trim(st.out);
    Scan {
        blocks: if t.len() > 0 {
            st.blocks.push(DraftView::Markup(t))
        } else {
            st.blocks
        },
        out: Seq::empty(),
        ..st
    }
}

/// The effect of an opening tag; `line` is the source line where it starts.
pub open spec fn scan_open(st: Scan, tag: TagView, line: usize) -> Scan {
    match tag {
        TagView::Heading(level) => {
            let f = flush(st);
            Scan {
                in_heading: true,
                head_markup: heading_open(level),
                head_text: Seq::empty(),
                head_level: level,
                head_line: line,
                ..f
            }
        },
        TagView::Emphasis => push_inline(st, "<i>"@),
        TagView::Strong => push_inline(st, "<b>"@),
        TagView::Strikethrough => push_inline(st, "<s>"@),
        TagView::Link(url) => push_inline(st, "<a href=\""@ + text::escape_markup(url) + "\">"@),
        TagView::Image(url) => {
            let f = flush(st);
            Scan { in_image: true, img_url: url, img_alt: Seq::empty(), ..f }
        },
        TagView::List(first) => Scan { lists: st.lists.push(first), ..st },
        TagView::Item => Scan {
            out: st.out + text::spaces(4 * list_depth(st.lists)) + item_marker(st.lists),
            lists: lists_after_item(st.lists),
            ..st
        },
        TagView::CodeBlock(info) => Scan {
            in_code: true,
            code: Seq::empty(),
            lang: code_lang(info),
            ..st
        },
        TagView::Table => {
            let f = flush(st);
            Scan { in_table: true, head: Seq::empty(), rows: Seq::empty(), ..f }
        },
        TagView::TableHead => Scan { in_head: true, row: Seq::empty(), ..st },
        TagView::TableRow => Scan { row: Seq::empty(), ..st },
        TagView::TableCell => Scan { cell: Seq::empty(), ..st },
        _ => st,
    }
}

/// The effect of a closing tag; `base_dir` resolves relative image paths.
pub open spec fn scan_close(st: Scan, tag: MdTagEnd, base_dir: Option<Seq<char>>) -> Scan {
    match tag {
        MdTagEnd::Heading(_) => Scan {
            blocks: st.blocks.push(
                DraftView::Heading {
                    level: st.head_level,
                    markup: st.head_markup + "</span>"@,
                    text: text::trim(st.head_text),
                    line: st.head_line,
                },
            ),
            head_markup: Seq::empty(),
            in_heading: false,
            ..st
        },
        MdTagEnd::Paragraph => Scan { out: st.out + "\n\n"@, ..st },
        MdTagEnd::Emphasis => push_inline(st, "</i>"@),
        MdTagEnd::Strong => push_inline(st, "</b>"@),
        MdTagEnd::Strikethrough => push_inline(st, "</s>"@),
        MdTagEnd::Link => push_inline(st, "</a>"@),
        MdTagEnd::Image => Scan {
            blocks: st.blocks.push(
                DraftView::Image {
                    path: image_path(st.img_url, base_dir),
                    url: st.img_url,
                    alt: st.img_alt,
                },
            ),
            in_image: false,
            img_url: Seq::empty(),
            img_alt: Seq::empty(),
            ..st
        },
        MdTagEnd::Item => Scan { out: st.out.push('\n'), ..st },
        MdTagEnd::List(_) => Scan {
            lists: if st.lists.len() > 0 {
                st.lists.drop_last()
            } else {
                st.lists
            },
            out: st.out.push('\n'),
            ..st
        },
        MdTagEnd::CodeBlock => {
            let f = flush(Scan { in_code: false, ..st });
            Scan { blocks: f.blocks.push(DraftView::Code { code: st.code, lang: st.lang }), ..f }
        },
        MdTagEnd::TableCell => Scan { row: st.row.push(st.cell), cell: Seq::empty(), ..st },
        MdTagEnd::TableRow => if st.in_head {
            st
        } else {
            Scan { rows: st.rows.push(st.row), row: Seq::empty(), ..st }
        },
        MdTagEnd::TableHead => Scan { head: st.row, row: Seq::empty(), in_head: false, ..st },
        MdTagEnd::Table => Scan {
            blocks: st.blocks.push(DraftView::Table { head: st.head, rows: st.rows }),
            head: Seq::empty(),
            rows: Seq::empty(),
            in_table: false,
            ..st
        },
        MdTagEnd::Other => st,
    }
}

/// The effect of one event.
pub open spec fn scan_event(
    st: Scan,
    ev: EventView,
    starts: Seq<usize>,
    base_dir: Option<Seq<char>>,
) -> Scan {
    match ev {
        EventView::Start(tag, at) => scan_open(st, tag, line_number(starts, at)),
        EventView::End(tag) => scan_close(st, tag, base_dir),
        EventView::Text(t) => if st.in_code {
            Scan { code: st.code + t, ..st }
        } else if st.in_image {
            Scan { img_alt: st.img_alt + t, ..st }
        } else {
            let s2 = if st.in_heading {
                Scan { head_text: st.head_text + t, ..st }
            } else {
                st
            };
            push_inline(s2, text::escape_markup(t))
        },
        EventView::Code(t) => {
            let s2 = if st.in_heading {
                Scan { head_text: st.head_text + t, ..st }
            } else {
                st
            };
            push_inline(s2, "<tt>"@ + text::escape_markup(t) + "</tt>"@)
        },
        EventView::SoftBreak => push_inline(st, " "@),
        EventView::HardBreak => push_inline(st, "\n"@),
        EventView::Rule => Scan { out: st.out + rule_text(), ..st },
        EventView::TaskListMarker(checked) => push_inline(st, task_marker(checked)),
        EventView::Other => st,
    }
}

/// The state after a run of events.
pub open spec fn scan_events(
    events: Seq<EventView>,
    starts: Seq<usize>,
    base_dir: Option<Seq<char>>,
) -> Scan
    decreases events.len(),
{
    if events.len() == 0 {
        scan_start()
    } else {
        scan_event(scan_events(events.drop_last(), starts, base_dir), events.last(), starts, base_dir)
    }
}

/// The blocks of a whole event stream: the fold, then a final flush.
pub open spec fn drafts_of(
    events: Seq<EventView>,
    starts: Seq<usize>,
    base_dir: Option<Seq<char>>,
) -> Seq<DraftView> {
    flush(scan_events(events, starts, base_dir)).blocks
}

// ---------------------------------------------------------------------------
// The fold, executable
// ---------------------------------------------------------------------------

/// The executable state of the fold; see [`Scan`].
struct Scanner {
    blocks: Vec<Draft>,
    out: String,
    lists: Vec<Option<u64>>,
    in_code: bool,
    code: String,
    lang: String,
    in_heading: bool,
    head_markup: String,
    head_text: String,
    head_level: u8,
    head_line: usize,
    in_image: bool,
    img_url: String,
    img_alt: String,
    in_table: bool,
    in_head: bool,
    head: Vec<String>,
    rows: Vec<Vec<String>>,
    row: Vec<String>,
    cell: String,
}

impl View for Scanner {
    type V = Scan;

    closed spec fn view(&self) -> Scan {
        Scan {
            blocks: drafts_view(self.blocks@),
            out: self.out@,
            lists: self.lists@,
            in_code: self.in_code,
            code: self.code@,
            lang: self.lang@,
            in_heading: self.in_heading,
            head_markup: self.head_markup@,
            head_text: self.head_text@,
            head_level: self.head_level,
            head_line: self.head_line,
            in_image: self.in_image,
            img_url: self.img_url@,
            img_alt: self.img_alt@,
            in_table: self.in_table,
            in_head: self.in_head,
            head: self.head.deep_view(),
            rows: self.rows.deep_view(),
            row: self.row.deep_view(),
            cell: self.cell@,
        }
    }
}

/// Moves the contents out of `s`, leaving it empty.
fn take_string(s: &mut String) -> (r: String)
    ensures
        r@ == old(s)@,
        final(s)@ == Seq::<char>::empty(),
{
    let mut r = String::new();
    std::mem::swap(&mut r, s);
    r
}

/// Moves the contents out of `v`, leaving it empty.
fn take_strings(v: &mut Vec<String>) -> (r: Vec<String>)
    ensures
        r.deep_view() == old(v).deep_view(),
        final(v)@ == Seq::<String>::empty(),
{
    let mut r: Vec<String> = Vec::new();
    std::mem::swap(&mut r, v);
    r
}

impl Scanner {
    /// The state before the first event.
    fn new() -> (r: Scanner)
        ensures
            r@ == scan_start(),
    {
        let r = Scanner {
            blocks: Vec::new(),
            out: String::new(),
            lists: Vec::new(),
            in_code: false,
            code: String::new(),
            lang: String::new(),
            in_heading: false,
            head_markup: String::new(),
            head_text: String::new(),
            head_level: 1,
            head_line: 1,
            in_image: false,
            img_url: String::new(),
            img_alt: String::new(),
            in_table: false,
            in_head: false,
            head: Vec::new(),
            rows: Vec::new(),
            row: Vec::new(),
            cell: String::new(),
        };
        assert(r@.blocks =~= Seq::<DraftView>::empty());
        assert(r@.head =~= Seq::<Seq<char>>::empty());
        assert(r@.rows =~= Seq::<Seq<Seq<char>>>::empty());
        assert(r@.row =~= Seq::<Seq<char>>::empty());
        r
    }

    /// Appends inline content where [`push_inline`] says.
    fn push_inline(&mut self, s: &str)
        ensures
            final(self)@ == push_inline(old(self)@, s@),
    {
        if self.in_heading {
            self.head_markup.append(s);
        } else if self.in_table {
            self.cell.append(s);
        } else {
            self.out.append(s);
        }
    }

    /// Appends inline content, escaped, where [`push_inline`] says.
    fn push_inline_escaped(&mut self, s: &str)
        ensures
            final(self)@ == push_inline(old(self)@, text::escape_markup(s@)),
    {
        if self.in_heading {
            push_escaped(&mut self.head_markup, s);
        } else if self.in_table {
            push_escaped(&mut self.cell, s);
        } else {
            push_escaped(&mut self.out, s);
        }
    }

    /// Closes the pending run of markup.
    fn flush(&mut self)
        ensures
            final(self)@ == flush(old(self)@),
    {
        let t = trimmed(self.out.as_str());
        if !t.as_str().is_empty() {
            self.blocks.push(Draft::Markup(t));
        }
        self.out = String::new();
        assert(self@.blocks =~= flush(old(self)@).blocks);
    }

    /// Appends the marker of a new list item and numbers it.
    fn open_item(&mut self)
        ensures
            final(self)@ == scan_open(old(self)@, TagView::Item, 1),
    {
        let k = self.lists.len();
        let depth = if k > 0 {
            k - 1
        } else {
            0
        };
        let mut d: usize = 0;
        while d < depth
            invariant
                d <= depth,
                self@ == (Scan { out: old(self)@.out + text::spaces(4 * d as nat), ..old(self)@ }),
            decreases depth - d,
        {
            self.out.append("    ");
            proof {
                reveal_strlit("    ");
            }
            d += 1;
            assert(self@.out =~= old(self)@.out + text::spaces(4 * d as nat));
        }
        if k > 0 {
            match self.lists[k - 1] {
                Some(n) => {
                    push_decimal(&mut self.out, n);
                    self.out.append(". ");
                    let next = if n == u64::MAX {
                        0
                    } else {
                        n + 1
                    };
                    self.lists.set(k - 1, Some(next));
                },
                None => {
                    self.out.append("•  ");
                },
            }
        } else {
            self.out.append("•  ");
        }
        assert(self@.out =~= scan_open(old(self)@, TagView::Item, 1).out);
        assert(self@.lists =~= scan_open(old(self)@, TagView::Item, 1).lists);
    }

    /// The effect of an opening tag.
    fn open(&mut self, tag: &MdTag, line: usize)
        ensures
            final(self)@ == scan_open(old(self)@, tag@, line),
    {
        match tag {
            MdTag::Heading(level) => {
                self.flush();
                self.in_heading = true;
                self.head_markup = String::new();
                self.head_text = String::new();
                self.head_level = *level;
                self.head_line = line;
                self.head_markup.append("<span size=\"");
                self.head_markup.append(
                    if *level == 1 {
                        "180%"
                    } else if *level == 2 {
                        "150%"
                    } else if *level == 3 {
                        "125%"
                    } else if *level == 4 {
                        "110%"
                    } else if *level == 5 {
                        "100%"
                    } else {
                        "90%"
                    },
                );
                self.head_markup.append("\" weight=\"bold\">");
                assert(self@.head_markup =~= heading_open(*level));
            },
            MdTag::Emphasis => self.push_inline("<i>"),
            MdTag::Strong => self.push_inline("<b>"),
            MdTag::Strikethrough => self.push_inline("<s>"),
            MdTag::Link(url) => {
                let mut a = String::new();
                a.append("<a href=\"");
                push_escaped(&mut a, url.as_str());
                a.append("\">");
                self.push_inline(a.as_str());
                assert(a@ =~= "<a href=\""@ + text::escape_markup(url@) + "\">"@);
            },
            MdTag::Image(url) => {
                self.flush();
                self.in_image = true;
                self.img_url = url.clone();
                self.img_alt = String::new();
            },
            MdTag::List(first) => {
                self.lists.push(*first);
            },
            MdTag::Item => {
                self.open_item();
            },
            MdTag::CodeBlock(info) => {
                self.in_code = true;
                self.code = String::new();
                self.lang = match info {
                    Some(i) => first_word_of(i.as_str()),
                    None => String::new(),
                };
            },
            MdTag::Table => {
                self.flush();
                self.in_table = true;
                self.head = Vec::new();
                self.rows = Vec::new();
                assert(self@.head =~= Seq::<Seq<char>>::empty());
                assert(self@.rows =~= Seq::<Seq<Seq<char>>>::empty());
            },
            MdTag::TableHead => {
                self.in_head = true;
                self.row = Vec::new();
                assert(self@.row =~= Seq::<Seq<char>>::empty());
            },
            MdTag::TableRow => {
                self.row = Vec::new();
                assert(self@.row =~= Seq::<Seq<char>>::empty());
            },
            MdTag::TableCell => {
                self.cell = String::new();
            },
            MdTag::Paragraph => {},
            MdTag::Other => {},
        }
    }

    /// The effect of a closing tag.
    fn close(&mut self, tag: MdTagEnd, base_dir: Option<&str>)
        ensures
            final(self)@ == scan_close(old(self)@, tag, opt_str_view(base_dir)),
    {
        match tag {
            MdTagEnd::Heading(_) => {
                self.head_markup.append("</span>");
                let markup = take_string(&mut self.head_markup);
                let text = trimmed(self.head_text.as_str());
                self.blocks.push(
                    Draft::Heading { level: self.head_level, markup, text, line: self.head_line },
                );
                self.in_heading = false;
                assert(self@.blocks =~= scan_close(old(self)@, tag, opt_str_view(base_dir)).blocks);
            },
            MdTagEnd::Paragraph => self.out.append("\n\n"),
            MdTagEnd::Emphasis => self.push_inline("</i>"),
            MdTagEnd::Strong => self.push_inline("</b>"),
            MdTagEnd::Strikethrough => self.push_inline("</s>"),
            MdTagEnd::Link => self.push_inline("</a>"),
            MdTagEnd::Image => {
                self.in_image = false;
                let path = resolve_image(self.img_url.as_str(), base_dir);
                let url = take_string(&mut self.img_url);
                let alt = take_string(&mut self.img_alt);
                self.blocks.push(Draft::Image { path, url, alt });
                assert(self@.blocks =~= scan_close(old(self)@, tag, opt_str_view(base_dir)).blocks);
            },
            MdTagEnd::Item => push_char(&mut self.out, '\n'),
            MdTagEnd::List(_) => {
                self.lists.pop();
                push_char(&mut self.out, '\n');
            },
            MdTagEnd::CodeBlock => {
                self.in_code = false;
                self.flush();
                let code = self.code.clone();
                let lang = self.lang.clone();
                self.blocks.push(Draft::Code { code, lang });
                assert(self@.blocks =~= scan_close(old(self)@, tag, opt_str_view(base_dir)).blocks);
            },
            MdTagEnd::TableCell => {
                let c = take_string(&mut self.cell);
                self.row.push(c);
                assert(self@.row =~= old(self)@.row.push(old(self)@.cell));
            },
            MdTagEnd::TableRow => {
                if !self.in_head {
                    let r = take_strings(&mut self.row);
                    self.rows.push(r);
                    assert(self@.rows =~= old(self)@.rows.push(old(self)@.row));
                    assert(self@.row =~= Seq::<Seq<char>>::empty());
                }
            },
            MdTagEnd::TableHead => {
                self.head = take_strings(&mut self.row);
                self.in_head = false;
                assert(self@.row =~= Seq::<Seq<char>>::empty());
            },
            MdTagEnd::Table => {
                let head = take_strings(&mut self.head);
                let mut rows: Vec<Vec<String>> = Vec::new();
                std::mem::swap(&mut rows, &mut self.rows);
                self.blocks.push(Draft::Table { head, rows });
                self.in_table = false;
                assert(self@.blocks =~= scan_close(old(self)@, tag, opt_str_view(base_dir)).blocks);
                assert(self@.head =~= Seq::<Seq<char>>::empty());
                assert(self@.rows =~= Seq::<Seq<Seq<char>>>::empty());
            },
            MdTagEnd::Other => {},
        }
    }
}

impl Scanner {
    /// The effect of one event.
    fn step(&mut self, ev: &MdEvent, starts: &Vec<usize>, base_dir: Option<&str>)
        requires
            is_sorted(starts@),
        ensures
            final(self)@ == scan_event(old(self)@, ev@, starts@, opt_str_view(base_dir)),
    {
        match ev {
            MdEvent::Start(tag, at) => {
                let line = match tag {
                    MdTag::Heading(_) => line_at(starts, *at),
                    _ => 1,
                };
                self.open(tag, line);
            },
            MdEvent::End(tag) => self.close(*tag, base_dir),
            MdEvent::Text(t) => {
                if self.in_code {
                    self.code.append(t.as_str());
                } else if self.in_image {
                    self.img_alt.append(t.as_str());
                } else {
                    if self.in_heading {
                        self.head_text.append(t.as_str());
                    }
                    self.push_inline_escaped(t.as_str());
                }
            },
            MdEvent::Code(t) => {
                if self.in_heading {
                    self.head_text.append(t.as_str());
                }
                let ghost mid = self@;
                self.push_inline("<tt>");
                self.push_inline_escaped(t.as_str());
                self.push_inline("</tt>");
                proof {
                    let w = "<tt>"@ + text::escape_markup(t@) + "</tt>"@;
                    if mid.in_heading {
                        assert(self@.head_markup =~= mid.head_markup + w);
                    } else if mid.in_table {
                        assert(self@.cell =~= mid.cell + w);
                    } else {
                        assert(self@.out =~= mid.out + w);
                    }
                }
            },
            MdEvent::SoftBreak => self.push_inline(" "),
            MdEvent::HardBreak => self.push_inline("\n"),
            MdEvent::Rule => self.out.append("\n──────────────────────\n\n"),
            MdEvent::TaskListMarker(checked) => {
                if *checked {
                    self.push_inline("☑  ");
                } else {
                    self.push_inline("☐  ");
                }
            },
            MdEvent::Other => {},
        }
    }
}

/// Folds an event stream of `source` into blocks, as [`drafts_of`] says:
/// headings are numbered by their line in `source`, and relative image paths
/// resolve under `base_dir`.
pub fn collect_blocks(source: &str, events: &Vec<MdEvent>, base_dir: Option<&str>) -> (r: Vec<
    Draft,
>)
    ensures
        drafts_view(r@) == drafts_of(
            events_view(events@),
            line_starts_of(vstd::utf8::encode_utf8(source@)),
            opt_str_view(base_dir),
        ),
{
    let bytes = source.as_bytes();
    let starts = line_starts(bytes);
    let blen = bytes.len();
    proof {
        assert(bytes@.len() == blen);
        lemma_line_starts_sorted(bytes@);
    }
    let ghost evs = events_view(events@);
    let ghost base = opt_str_view(base_dir);
    let mut sc = Scanner::new();
    let n = events.len();
    let mut i: usize = 0;
    while i < n
        invariant
            i <= n == events.len(),
            evs == events_view(events@),
            base == opt_str_view(base_dir),
            starts@ == line_starts_of(vstd::utf8::encode_utf8(source@)),
            is_sorted(starts@),
            sc@ == scan_events(evs.take(i as int), starts@, base),
        decreases n - i,
    {
        sc.step(&events[i], &starts, base_dir);
        proof {
            assert(evs.take(i + 1).drop_last() =~= evs.take(i as int));
            assert(evs.take(i + 1).last() == events@[i as int]@);
        }
        i += 1;
    }
    assert(evs.take(n as int) =~= evs);
    sc.flush();
    sc.blocks
}

/// The local file an image URL names, as [`image_path`] says.
pub fn resolve_image(url: &str, base_dir: Option<&str>) -> (r: Option<String>)
    ensures
        opt_view(r) == image_path(url@, opt_str_view(base_dir)),
{
    let chars = chars_of(url);
    if has_prefix_ascii_ci(&chars, "http://") || has_prefix_ascii_ci(&chars, "https://")
        || has_prefix_ascii_ci(&chars, "data:") {
        return None;
    }
    let from: usize = if has_prefix(&chars, "file://") {
        proof {
            reveal_strlit("file://");
        }
        7
    } else {
        0
    };
    let raw = string_of(&chars, from, chars.len());
    assert(raw@ =~= strip_file_scheme(url@));
    if from < chars.len() && chars[from] == '/' {
        return Some(raw);
    }
    match base_dir {
        Some(d) => {
            let dc = chars_of(d);
            let mut p = d.to_string();
            if dc.len() > 0 && dc[dc.len() - 1] != '/' {
                push_char(&mut p, '/');
            }
            p.append(raw.as_str());
            assert(p@ =~= join_path(d@, raw@));
            Some(p)
        },
        None => None,
    }
}

// ---------------------------------------------------------------------------
// Code highlighting
// ---------------------------------------------------------------------------

/// A run of highlighted code: its foreground colour and its text.
pub struct Span {
    pub red: u8,
    pub green: u8,
    pub blue: u8,
    pub text: String,
}

/// The mathematical value of a [`Span`].
pub struct SpanView {
    pub red: u8,
    pub green: u8,
    pub blue: u8,
    pub text: Seq<char>,
}

impl View for Span {
    type V = SpanView;

    open spec fn view(&self) -> SpanView {
        SpanView { red: self.red, green: self.green, blue: self.blue, text: self.text@ }
    }
}

/// One highlighted line: its spans, or the line itself when the highlighter
/// failed on it.
pub type HighlightedLine = Result<Vec<Span>, String>;

/// The mathematical value of a [`HighlightedLine`].
pub open spec fn line_view(l: HighlightedLine) -> Result<Seq<SpanView>, Seq<char>> {
    match l {
        Ok(spans) => Ok(spans@.map_values(|x: Span| x@)),
        Err(line) => Err(line@),
    }
}

/// The views of highlighted lines.
pub open spec fn lines_view(ls: Seq<HighlightedLine>) -> Seq<Result<Seq<SpanView>, Seq<char>>> {
    ls.map_values(|l: HighlightedLine| line_view(l))
}

/// What syntect's `HighlightLines` yields for each line (with its ending) of
/// `code`, highlighted with the bundled syntax called `syntax` and the
/// bundled theme called `theme`.
pub uninterp spec fn highlighted(code: Seq<char>, syntax: Seq<char>, theme: Seq<char>) -> Seq<
    Result<Seq<SpanView>, Seq<char>>,
>;

/// The name of the bundled syntax syntect's `SyntaxSet::find_syntax_by_token`
/// finds for `token`, if any.
pub uninterp spec fn syntax_for_token(token: Seq<char>) -> Option<Seq<char>>;

/// The name of the bundled syntax syntect's
/// `SyntaxSet::find_syntax_by_extension` finds for `extension`, if any.
pub uninterp spec fn syntax_for_extension(extension: Seq<char>) -> Option<Seq<char>>;

/// The name of syntect's plain-text syntax.
pub open spec fn plain_text_syntax() -> Seq<char> {
    "Plain Text"@
}

/// `name` names a syntax of the bundled set: one a lookup found, or plain
/// text.
pub open spec fn is_bundled_syntax(name: Seq<char>) -> bool {
    ||| name == plain_text_syntax()
    ||| exists|l: Seq<char>|
        #![trigger syntax_for_token(l)]
        #![trigger syntax_for_extension(l)]
        syntax_for_token(l) == Some(name) || syntax_for_extension(l) == Some(name)
}

/// The syntax a code block's language picks: the one found by token, else
/// the one found by extension, else plain text.
pub open spec fn choose_syntax(
    by_token: Option<Seq<char>>,
    by_extension: Option<Seq<char>>,
    plain: Seq<char>,
) -> Seq<char> {
    match by_token {
        Some(n) => n,
        None => match by_extension {
            Some(n) => n,
            None => plain,
        },
    }
}

/// The syntax that highlights a code block in language `lang`.
pub open spec fn chosen_syntax(lang: Seq<char>) -> Seq<char> {
    choose_syntax(syntax_for_token(lang), syntax_for_extension(lang), plain_text_syntax())
}

/// The text of a run of spans.
pub open spec fn spans_text(spans: Seq<SpanView>) -> Seq<char>
    decreases spans.len(),
{
    if spans.len() == 0 {
        Seq::empty()
    } else {
        spans_text(spans.drop_last()) + spans.last().text
    }
}

/// The text of highlighted lines: each line's spans put together, or the
/// line itself where the highlighter failed.
pub open spec fn lines_text(ls: Seq<Result<Seq<SpanView>, Seq<char>>>) -> Seq<char>
    decreases ls.len(),
{
    if ls.len() == 0 {
        Seq::empty()
    } else {
        lines_text(ls.drop_last()) + match ls.last() {
            Ok(spans) => spans_text(spans),
            Err(line) => line,
        }
    }
}

/// The name of the bundled syntect theme of a palette: `base16-ocean.light`
/// for the light one, `base16-ocean.dark` for the dark one.
pub open spec fn palette_theme(light: bool) -> Seq<char> {
    if light {
        "base16-ocean.light"@
    } else {
        "base16-ocean.dark"@
    }
}

/// syntect's `SyntaxSet`, held opaquely by a [`Highlighter`].
#[verifier::external_type_specification]
#[verifier::external_body]
pub struct ExSyntaxSet(SyntaxSet);

/// syntect's `ThemeSet`, held opaquely by a [`Highlighter`].
#[verifier::external_type_specification]
#[verifier::external_body]
pub struct ExThemeSet(ThemeSet);

/// The code highlighter: syntect's bundled syntaxes and themes, and the
/// palette matching the app theme, light or dark. Code is highlighted with
/// the bundled theme [`palette_theme`] names for the palette.
pub struct Highlighter {
    syntaxes: SyntaxSet,
    themes: ThemeSet,
    light: bool,
}

impl Highlighter {
    /// Whether code is highlighted with the light palette.
    pub closed spec fn light_palette(&self) -> bool {
        self.light
    }

    /// The bundled theme that code is highlighted with.
    pub open spec fn theme_name(&self) -> Seq<char> {
        palette_theme(self.light_palette())
    }

    /// Whether code is highlighted with the light palette.
    pub fn is_light_palette(&self) -> (r: bool)
        ensures
            r == self.light_palette(),
    {
        self.light
    }

    /// A highlighter with the light palette when `light`, else the dark one.
    pub fn new(light: bool) -> (r: Highlighter)
        ensures
            r.light_palette() == light,
            r.theme_name() == palette_theme(light),
            r.theme_name() == (if light {
                "base16-ocean.light"@
            } else {
                "base16-ocean.dark"@
            }),
    {
        Highlighter { syntaxes: load_syntaxes(), themes: load_themes(), light }
    }
}

/// The name of the bundled syntect theme for the light or dark palette.
fn palette_name(light: bool) -> (r: &'static str)
    ensures
        r@ == palette_theme(light),
{
    if light {
        "base16-ocean.light"
    } else {
        "base16-ocean.dark"
    }
}

/// syntect: `SyntaxSet::load_defaults_newlines`, the bundled syntaxes. Nothing
/// is claimed of the result.
#[verifier::external_body]
fn load_syntaxes() -> SyntaxSet {
    SyntaxSet::load_defaults_newlines()
}

/// syntect: `ThemeSet::load_defaults`, the bundled themes. Nothing is claimed
/// of the result.
#[verifier::external_body]
fn load_themes() -> ThemeSet {
    ThemeSet::load_defaults()
}

/// syntect: `SyntaxSet::find_syntax_by_token` on the bundled syntaxes, giving
/// the found syntax's name. The result is named ([`syntax_for_token`]).
#[verifier::external_body]
fn token_syntax(hl: &Highlighter, token: &str) -> (r: Option<String>)
    ensures
        opt_view(r) == syntax_for_token(token@),
{
    hl.syntaxes.find_syntax_by_token(token).map(|s| s.name.clone())
}

/// syntect: `SyntaxSet::find_syntax_by_extension` on the bundled syntaxes,
/// giving the found syntax's name. The result is named
/// ([`syntax_for_extension`]).
#[verifier::external_body]
fn extension_syntax(hl: &Highlighter, extension: &str) -> (r: Option<String>)
    ensures
        opt_view(r) == syntax_for_extension(extension@),
{
    hl.syntaxes.find_syntax_by_extension(extension).map(|s| s.name.clone())
}

/// syntect: `SyntaxSet::find_syntax_plain_text`, giving the syntax's name,
/// which is `Plain Text`: syntect finds it with
/// `find_syntax_by_name("Plain Text")`.
#[verifier::external_body]
fn plain_syntax(hl: &Highlighter) -> (r: String)
    ensures
        r@ == plain_text_syntax(),
{
    hl.syntaxes.find_syntax_plain_text().name.clone()
}

/// syntect: highlights each line of `code` (`LinesWithEndings`) with
/// `HighlightLines::highlight_line`, using the bundled syntax found by
/// `SyntaxSet::find_syntax_by_name(syntax)` and the bundled theme called
/// `theme`. A line the highlighter fails on comes back as `Err` with its
/// text. The `requires` admits only names of bundled syntaxes and the two
/// theme names syntect documents as bundled, so neither lookup fails. The
/// result is named ([`highlighted`]); beyond that the contract claims only
/// what syntect documents: the lines put together give `code` back, and the
/// spans of a line put together give the line.
#[verifier::external_body]
fn highlight_lines(hl: &Highlighter, code: &str, syntax: &str, theme: &str) -> (r: Vec<
    HighlightedLine,
>)
    requires
        is_bundled_syntax(syntax@),
        theme@ == "base16-ocean.light"@ || theme@ == "base16-ocean.dark"@,
    ensures
        lines_view(r@) == highlighted(code@, syntax@, theme@),
        lines_text(lines_view(r@)) == code@,
{
    let ss = &hl.syntaxes;
    let mut h = HighlightLines::new(ss.find_syntax_by_name(syntax).unwrap(), &hl.themes.themes[theme]);
    LinesWithEndings::from(code).map(|line| match h.highlight_line(line, ss) {
        Ok(ranges) => Ok(ranges.into_iter().map(|(style, t)| Span {
            red: style.foreground.r, green: style.foreground.g, blue: style.foreground.b,
            text: t.to_string(),
        }).collect()),
        Err(_) => Err(line.to_string()),
    }).collect()
}

/// Picks the syntax for a code block from syntect's lookups: the syntax
/// found by token, else the one found by extension, else plain text.
pub fn pick_syntax(by_token: Option<String>, by_extension: Option<String>, plain: String) -> (r:
    String)
    ensures
        r@ == choose_syntax(opt_view(by_token), opt_view(by_extension), plain@),
{
    match by_token {
        Some(n) => n,
        None => match by_extension {
            Some(n) => n,
            None => plain,
        },
    }
}

/// The name of the bundled syntax that highlights code in language `lang`:
/// found by token, else by extension, else plain text.
pub fn syntax_name(hl: &Highlighter, lang: &str) -> (r: String)
    ensures
        r@ == chosen_syntax(lang@),
        is_bundled_syntax(r@),
{
    let by_token = token_syntax(hl, lang);
    let by_extension = extension_syntax(hl, lang);
    let plain = plain_syntax(hl);
    let r = pick_syntax(by_token, by_extension, plain);
    proof {
        let l = lang@;
        if syntax_for_token(l) is None && syntax_for_extension(l) is None {
            assert(r@ == plain_text_syntax());
        } else {
            assert(syntax_for_token(l) == Some(r@) || syntax_for_extension(l) == Some(r@));
        }
    }
    r
}

/// The upper-case hexadecimal digit for `d < 16`.
pub open spec fn hex_digit(d: nat) -> char {
    if d < 10 {
        text::digit_char(d)
    } else if d == 10 {
        'A'
    } else if d == 11 {
        'B'
    } else if d == 12 {
        'C'
    } else if d == 13 {
        'D'
    } else if d == 14 {
        'E'
    } else {
        'F'
    }
}

/// A byte as two upper-case hexadecimal digits (`{:02X}`).
pub open spec fn hex2(b: u8) -> Seq<char> {
    seq![hex_digit((b / 16) as nat), hex_digit((b % 16) as nat)]
}

/// The Pango markup of one span: its text, escaped, in its colour.
pub open spec fn span_markup(sp: SpanView) -> Seq<char> {
    "<span foreground=\"#"@ + hex2(sp.red) + hex2(sp.green) + hex2(sp.blue) + "\">"@
        + text::escape_markup(sp.text) + "</span>"@
}

/// The Pango markup of a run of spans.
pub open spec fn spans_markup(spans: Seq<SpanView>) -> Seq<char>
    decreases spans.len(),
{
    if spans.len() == 0 {
        Seq::empty()
    } else {
        spans_markup(spans.drop_last()) + span_markup(spans.last())
    }
}

/// The Pango markup of one highlighted line; a line the highlighter failed
/// on is kept as escaped plain text.
pub open spec fn line_markup(l: Result<Seq<SpanView>, Seq<char>>) -> Seq<char> {
    match l {
        Ok(spans) => spans_markup(spans),
        Err(line) => text::escape_markup(line),
    }
}

/// The Pango markup of highlighted lines, in order.
pub open spec fn lines_markup(ls: Seq<Result<Seq<SpanView>, Seq<char>>>) -> Seq<char>
    decreases ls.len(),
{
    if ls.len() == 0 {
        Seq::empty()
    } else {
        lines_markup(ls.drop_last()) + line_markup(ls.last())
    }
}

/// The markup of a code block: its highlighted lines inside `<tt>`.
pub open spec fn code_block_markup(ls: Seq<Result<Seq<SpanView>, Seq<char>>>) -> Seq<char> {
    "<tt>"@ + lines_markup(ls) + "</tt>"@
}

/// The upper-case hexadecimal digit for `d < 16`.
fn hex_char(d: u8) -> (c: char)
    requires
        d < 16,
    ensures
        c == hex_digit(d as nat),
{
    if d < 10 {
        text::digit(d as u64)
    } else if d == 10 {
        'A'
    } else if d == 11 {
        'B'
    } else if d == 12 {
        'C'
    } else if d == 13 {
        'D'
    } else if d == 14 {
        'E'
    } else {
        'F'
    }
}

/// Appends the markup of one span to `out`.
fn push_span(out: &mut String, sp: &Span)
    ensures
        final(out)@ == old(out)@ + span_markup(sp@),
{
    out.append("<span foreground=\"#");
    push_char(out, hex_char(sp.red / 16));
    push_char(out, hex_char(sp.red % 16));
    push_char(out, hex_char(sp.green / 16));
    push_char(out, hex_char(sp.green % 16));
    push_char(out, hex_char(sp.blue / 16));
    push_char(out, hex_char(sp.blue % 16));
    out.append("\">");
    push_escaped(out, sp.text.as_str());
    out.append("</span>");
    assert(out@ =~= old(out)@ + span_markup(sp@));
}

/// Appends the markup of one highlighted line to `out`.
fn push_line(out: &mut String, line: &HighlightedLine)
    ensures
        final(out)@ == old(out)@ + line_markup(line_view(*line)),
{
    match line {
        Ok(spans) => {
            let ghost sv = spans@.map_values(|x: Span| x@);
            let mut k: usize = 0;
            while k < spans.len()
                invariant
                    k <= spans.len(),
                    sv == spans@.map_values(|x: Span| x@),
                    out@ == old(out)@ + spans_markup(sv.take(k as int)),
                decreases spans.len() - k,
            {
                push_span(out, &spans[k]);
                proof {
                    assert(sv.take(k + 1).drop_last() =~= sv.take(k as int));
                    assert(out@ =~= old(out)@ + spans_markup(sv.take(k + 1)));
                }
                k += 1;
            }
            assert(sv.take(spans.len() as int) =~= sv);
        },
        Err(text) => {
            push_escaped(out, text.as_str());
        },
    }
}

/// The markup of a code block from its highlighted lines, as
/// [`code_block_markup`] says.
pub fn code_markup(lines: &Vec<HighlightedLine>) -> (r: String)
    ensures
        r@ == code_block_markup(lines_view(lines@)),
{
    let ghost lv = lines_view(lines@);
    let mut out = String::new();
    out.append("<tt>");
    let mut k: usize = 0;
    while k < lines.len()
        invariant
            k <= lines.len(),
            lv == lines_view(lines@),
            out@ == "<tt>"@ + lines_markup(lv.take(k as int)),
        decreases lines.len() - k,
    {
        push_line(&mut out, &lines[k]);
        proof {
            assert(lv.take(k + 1).drop_last() =~= lv.take(k as int));
            assert(out@ =~= "<tt>"@ + lines_markup(lv.take(k + 1)));
        }
        k += 1;
    }
    assert(lv.take(lines.len() as int) =~= lv);
    out.append("</tt>");
    assert(out@ =~= code_block_markup(lv));
    out
}

/// Syntax-highlights a code block into Pango markup (wrapped in `<tt>`),
/// with the syntax its language picks ([`syntax_name`]) and the bundled
/// theme of the highlighter's palette. The highlighted lines keep the code's
/// text.
pub fn highlight_code(hl: &Highlighter, code: &str, lang: &str) -> (r: String)
    ensures
        r@ == code_block_markup(highlighted(code@, chosen_syntax(lang@), hl.theme_name())),
        lines_text(highlighted(code@, chosen_syntax(lang@), hl.theme_name())) == code@,
{
    let syntax = syntax_name(hl, lang);
    let lines = highlight_lines(hl, code, syntax.as_str(), palette_name(hl.light));
    code_markup(&lines)
}

/// Selects the light or dark code-highlight palette to match the app theme:
/// code is then highlighted with `base16-ocean.light` or
/// `base16-ocean.dark`.
pub fn set_light(hl: &mut Highlighter, light: bool)
    ensures
        final(hl).light_palette() == light,
        final(hl).theme_name() == palette_theme(light),
        final(hl).theme_name() == (if light {
            "base16-ocean.light"@
        } else {
            "base16-ocean.dark"@
        }),
{
    hl.light = light;
}

/// Code is highlighted with syntect's bundled `base16-ocean.light` theme
/// under the light palette and with `base16-ocean.dark` under the dark one,
/// whichever way the highlighter was made or switched.
pub proof fn law_palette_theme_names(hl: Highlighter, light: bool)
    ensures
        light ==> palette_theme(light) == "base16-ocean.light"@,
        !light ==> palette_theme(light) == "base16-ocean.dark"@,
        hl.light_palette() ==> hl.theme_name() == "base16-ocean.light"@,
        !hl.light_palette() ==> hl.theme_name() == "base16-ocean.dark"@,
{
}

// ---------------------------------------------------------------------------
// Preview blocks, outline, Pango and HTML export
// ---------------------------------------------------------------------------

/// A renderable preview block.
pub enum Block {
    /// A run of non-table content, already as Pango markup.
    Markup(String),
    /// A heading. `markup` is the styled Pango markup, `text` the plain text
    /// for the outline, `line` the 1-based source line so the outline can
    /// jump to it.
    Heading { level: u8, markup: String, text: String, line: usize },
    /// A fenced or indented code block, already highlighted as Pango markup
    /// (wrapped in `<tt>`).
    Code(String),
    /// An image. `path` is the resolved local file (`None` for remote URLs,
    /// which are not fetched); `alt` is shown when the image can't load.
    Image { path: Option<String>, url: String, alt: String },
    /// A table; each cell holds Pango markup. `head` may be empty.
    Table { head: Vec<String>, rows: Vec<Vec<String>> },
}

/// The mathematical value of a [`Block`].
pub enum BlockView {
    Markup(Seq<char>),
    Heading { level: u8, markup: Seq<char>, text: Seq<char>, line: usize },
    Code(Seq<char>),
    Image { path: Option<Seq<char>>, url: Seq<char>, alt: Seq<char> },
    Table { head: Seq<Seq<char>>, rows: Seq<Seq<Seq<char>>> },
}

impl View for Block {
    type V = BlockView;

    open spec fn view(&self) -> BlockView {
        match self {
            Block::Markup(m) => BlockView::Markup(m@),
            Block::Heading { level, markup, text, line } => BlockView::Heading {
                level: *level,
                markup: markup@,
                text: text@,
                line: *line,
            },
            Block::Code(m) => BlockView::Code(m@),
            Block::Image { path, url, alt } => BlockView::Image {
                path: opt_view(*path),
                url: url@,
                alt: alt@,
            },
            Block::Table { head, rows } => BlockView::Table {
                head: head.deep_view(),
                rows: rows.deep_view(),
            },
        }
    }
}

/// The views of a vector of blocks.
pub open spec fn blocks_view(b: Seq<Block>) -> Seq<BlockView> {
    b.map_values(|x: Block| x@)
}

/// A draft block once its code, if any, is highlighted.
pub open spec fn finished(d: DraftView, light: bool) -> BlockView {
    match d {
        DraftView::Markup(m) => BlockView::Markup(m),
        DraftView::Heading { level, markup, text, line } => BlockView::Heading {
            level,
            markup,
            text,
            line,
        },
        DraftView::Code { code, lang } => BlockView::Code(
            code_block_markup(highlighted(code, chosen_syntax(lang), palette_theme(light))),
        ),
        DraftView::Image { path, url, alt } => BlockView::Image { path, url, alt },
        DraftView::Table { head, rows } => BlockView::Table { head, rows },
    }
}

/// The preview blocks of `source`: the parser's events folded into blocks,
/// code highlighted with the palette `light` selects.
pub open spec fn preview_blocks(source: Seq<char>, base_dir: Option<Seq<char>>, light: bool) -> Seq<
    BlockView,
> {
    drafts_of(
        markdown_events(source, MARKDOWN_OPTIONS),
        line_starts_of(vstd::utf8::encode_utf8(source)),
        base_dir,
    ).map_values(|d: DraftView| finished(d, light))
}

/// Highlights the code of a draft block.
fn finish(d: Draft, hl: &Highlighter) -> (r: Block)
    ensures
        r@ == finished(d@, hl.light_palette()),
{
    match d {
        Draft::Markup(m) => Block::Markup(m),
        Draft::Heading { level, markup, text, line } => Block::Heading { level, markup, text, line },
        Draft::Code { code, lang } => Block::Code(highlight_code(hl, code.as_str(), lang.as_str())),
        Draft::Image { path, url, alt } => Block::Image { path, url, alt },
        Draft::Table { head, rows } => Block::Table { head, rows },
    }
}

/// Parses Markdown into a sequence of preview blocks. `base_dir` resolves
/// relative image paths (typically the open document's directory).
pub fn render_blocks(source: &str, base_dir: Option<&str>, hl: &Highlighter) -> (r: Vec<Block>)
    ensures
        blocks_view(r@) == preview_blocks(source@, opt_str_view(base_dir), hl.light_palette()),
        vstd::utf8::encode_utf8(source@).len() < usize::MAX ==> block_headings_in_range(
            blocks_view(r@),
            1 + newlines_before(
                vstd::utf8::encode_utf8(source@),
                vstd::utf8::encode_utf8(source@).len() as int,
            ),
        ),
{
    let events = parse_events(source, MARKDOWN_OPTIONS);
    proof {
        if vstd::utf8::encode_utf8(source@).len() < usize::MAX {
            law_headings_in_range(
                events_view(events@),
                vstd::utf8::encode_utf8(source@),
                opt_str_view(base_dir),
                hl.light_palette(),
            );
        }
    }
    let drafts = collect_blocks(source, &events, base_dir);
    let ghost dv = drafts_view(drafts@);
    let ghost light = hl.light_palette();
    let mut r: Vec<Block> = Vec::new();
    for d in iter: drafts
        invariant
            dv == drafts_view(iter.seq()),
            light == hl.light_palette(),
            blocks_view(r@) == dv.take(iter.index() as int).map_values(
                |x: DraftView| finished(x, light),
            ),
    {
        let ghost before = blocks_view(r@);
        let ghost dd = d@;
        let b = finish(d, hl);
        r.push(b);
        proof {
            let i = iter.index();
            assert(dv[i] == dd);
            assert(blocks_view(r@) =~= before.push(finished(dd, light)));
            assert(dv.take(i + 1).map_values(|x: DraftView| finished(x, light)) =~= dv.take(i).map_values(
                |x: DraftView| finished(x, light),
            ).push(finished(dd, light)));
            assert(dv.take(i + 1).drop_last() =~= dv.take(i));
            assert(blocks_view(r@) =~= dv.take(i + 1).map_values(|x: DraftView| finished(x, light)));
        }
    }
    assert(dv.take(dv.len() as int) =~= dv);
    r
}

/// A heading for the document outline.
pub struct OutlineItem {
    pub level: u8,
    pub text: String,
    pub line: usize,
}

/// The mathematical value of an [`OutlineItem`].
pub struct OutlineView {
    pub level: u8,
    pub text: Seq<char>,
    pub line: usize,
}

impl View for OutlineItem {
    type V = OutlineView;

    open spec fn view(&self) -> OutlineView {
        OutlineView { level: self.level, text: self.text@, line: self.line }
    }
}

/// The outline of draft blocks: their headings with non-empty text, in
/// order.
pub open spec fn outline_of(d: Seq<DraftView>) -> Seq<OutlineView>
    decreases d.len(),
{
    if d.len() == 0 {
        Seq::empty()
    } else {
        let rest = outline_of(d.drop_last());
        match d.last() {
            DraftView::Heading { level, text, line, .. } => if text.len() > 0 {
                rest.push(OutlineView { level, text, line })
            } else {
                rest
            },
            _ => rest,
        }
    }
}

/// The outline of preview blocks: their headings with non-empty text, in
/// order.
pub open spec fn outline_of_blocks(b: Seq<BlockView>) -> Seq<OutlineView>
    decreases b.len(),
{
    if b.len() == 0 {
        Seq::empty()
    } else {
        let rest = outline_of_blocks(b.drop_last());
        match b.last() {
            BlockView::Heading { level, text, line, .. } => if text.len() > 0 {
                rest.push(OutlineView { level, text, line })
            } else {
                rest
            },
            _ => rest,
        }
    }
}

/// The outline of a document: its headings with non-empty text, with their
/// levels and lines, in order.
pub open spec fn document_outline(source: Seq<char>) -> Seq<OutlineView> {
    outline_of(
        drafts_of(
            markdown_events(source, MARKDOWN_OPTIONS),
            line_starts_of(vstd::utf8::encode_utf8(source)),
            None,
        ),
    )
}

proof fn lemma_outline_finished(d: Seq<DraftView>, light: bool)
    ensures
        outline_of_blocks(d.map_values(|x: DraftView| finished(x, light))) == outline_of(d),
    decreases d.len(),
{
    if d.len() > 0 {
        lemma_outline_finished(d.drop_last(), light);
        assert(d.map_values(|x: DraftView| finished(x, light)).drop_last() =~= d.drop_last().map_values(
            |x: DraftView| finished(x, light),
        ));
    }
}

/// The outline lists exactly the headings of the preview, with non-empty
/// text, in the order they appear, whatever the code palette.
pub proof fn law_outline_is_preview_headings(source: Seq<char>, light: bool)
    ensures
        outline_of_blocks(preview_blocks(source, None, light)) == document_outline(source),
{
    lemma_outline_finished(
        drafts_of(
            markdown_events(source, MARKDOWN_OPTIONS),
            line_starts_of(vstd::utf8::encode_utf8(source)),
            None,
        ),
        light,
    );
}

/// A heading block with some text.
pub open spec fn is_titled_heading(d: DraftView) -> bool {
    d matches DraftView::Heading { text, .. } && text.len() > 0
}

/// How many blocks of `d` are headings with some text.
pub open spec fn titled_count(d: Seq<DraftView>) -> nat
    decreases d.len(),
{
    if d.len() == 0 {
        0
    } else {
        titled_count(d.drop_last()) + if is_titled_heading(d.last()) {
            1nat
        } else {
            0nat
        }
    }
}

/// The outline entry of a heading: its level, text and line.
pub open spec fn heading_entry(d: DraftView) -> OutlineView {
    match d {
        DraftView::Heading { level, text, line, .. } => OutlineView { level, text, line },
        _ => OutlineView { level: 0, text: Seq::empty(), line: 0 },
    }
}

/// The outline holds one entry per heading with some text, of any level,
/// and nothing else; the heading that comes after `n` such headings is the
/// entry at position `n`, with its level, text and line.
pub proof fn law_outline_lists_every_heading(d: Seq<DraftView>)
    ensures
        outline_of(d).len() == titled_count(d),
        forall|i: int|
            0 <= i < d.len() && is_titled_heading(#[trigger] d[i]) ==> outline_of(d)[titled_count(
                d.take(i),
            ) as int] == heading_entry(d[i]),
    decreases d.len(),
{
    if d.len() > 0 {
        let p = d.drop_last();
        law_outline_lists_every_heading(p);
        assert forall|i: int| 0 <= i < d.len() && is_titled_heading(#[trigger] d[i]) implies outline_of(
            d,
        )[titled_count(d.take(i)) as int] == heading_entry(d[i]) by {
            if i < d.len() - 1 {
                assert(d.take(i) =~= p.take(i));
                assert(p[i] == d[i]);
                assert(titled_count(p.take(i)) < titled_count(p)) by {
                    lemma_titled_count_grows(p, i);
                }
            } else {
                assert(d.take(i) =~= p);
            }
        }
    }
}

proof fn lemma_titled_count_grows(d: Seq<DraftView>, i: int)
    requires
        0 <= i < d.len(),
        is_titled_heading(d[i]),
    ensures
        titled_count(d.take(i)) < titled_count(d),
    decreases d.len(),
{
    if i < d.len() - 1 {
        lemma_titled_count_grows(d.drop_last(), i);
        assert(d.drop_last().take(i) =~= d.take(i));
    } else {
        assert(d.take(i) =~= d.drop_last());
    }
}

/// Extracts just the headings, for the document outline.
pub fn outline(source: &str) -> (r: Vec<OutlineItem>)
    ensures
        r@.map_values(|x: OutlineItem| x@) == document_outline(source@),
{
    let events = parse_events(source, MARKDOWN_OPTIONS);
    let drafts = collect_blocks(source, &events, None);
    let ghost dv = drafts_view(drafts@);
    let mut r: Vec<OutlineItem> = Vec::new();
    for d in iter: drafts
        invariant
            dv == drafts_view(iter.seq()),
            r@.map_values(|x: OutlineItem| x@) == outline_of(dv.take(iter.index() as int)),
    {
        let ghost dd = d@;
        let ghost before = r@.map_values(|x: OutlineItem| x@);
        match d {
            Draft::Heading { level, text, line, .. } => {
                if !text.as_str().is_empty() {
                    r.push(OutlineItem { level, text, line });
                }
            },
            _ => {},
        }
        proof {
            let i = iter.index();
            assert(dv[i] == dd);
            assert(dv.take(i + 1).drop_last() =~= dv.take(i));
            assert(r@.map_values(|x: OutlineItem| x@) =~= outline_of(dv.take(i + 1)));
        }
    }
    assert(dv.take(dv.len() as int) =~= dv);
    r
}

/// `parts` joined with `sep` between them.
pub open spec fn join(parts: Seq<Seq<char>>, sep: Seq<char>) -> Seq<char>
    decreases parts.len(),
{
    if parts.len() == 0 {
        Seq::empty()
    } else if parts.len() == 1 {
        parts[0]
    } else {
        join(parts.drop_last(), sep) + sep + parts.last()
    }
}

/// Table rows as tab-separated lines.
pub open spec fn rows_text(rows: Seq<Seq<Seq<char>>>) -> Seq<char>
    decreases rows.len(),
{
    if rows.len() == 0 {
        Seq::empty()
    } else {
        rows_text(rows.drop_last()) + join(rows.last(), "\t"@) + "\n"@
    }
}

/// How a block reads in the single Pango markup string of the PDF export.
pub open spec fn block_pango(b: BlockView) -> Seq<char> {
    match b {
        BlockView::Markup(m) => m + "\n\n"@,
        BlockView::Code(m) => m + "\n\n"@,
        BlockView::Heading { markup, .. } => markup + "\n\n"@,
        BlockView::Image { alt, url, .. } => "<i>[image: "@ + text::escape_markup(alt + " "@ + url)
            + "]</i>\n\n"@,
        BlockView::Table { head, rows } => "<tt>"@ + (if head.len() > 0 {
            join(head, "\t"@) + "\n"@
        } else {
            Seq::empty()
        }) + rows_text(rows) + "</tt>\n\n"@,
    }
}

/// Blocks flattened into one Pango markup string.
pub open spec fn blocks_pango(b: Seq<BlockView>) -> Seq<char>
    decreases b.len(),
{
    if b.len() == 0 {
        Seq::empty()
    } else {
        blocks_pango(b.drop_last()) + block_pango(b.last())
    }
}

proof fn lemma_pango_concat(a: Seq<BlockView>, b: Seq<BlockView>)
    ensures
        blocks_pango(a + b) == blocks_pango(a) + blocks_pango(b),
    decreases b.len(),
{
    if b.len() == 0 {
        assert(a + b =~= a);
        assert(blocks_pango(a) + blocks_pango(b) =~= blocks_pango(a));
    } else {
        lemma_pango_concat(a, b.drop_last());
        assert((a + b).drop_last() =~= a + b.drop_last());
        assert((a + b).last() == b.last());
        assert(blocks_pango(a + b) =~= blocks_pango(a) + blocks_pango(b.drop_last()) + block_pango(
            b.last(),
        ));
    }
}

/// The PDF-export markup holds every block, in order, at its place: what
/// the blocks before it give, then the block, then what the blocks after it
/// give. A markup run, a highlighted code block and a heading each appear
/// as their markup followed by a blank line.
pub proof fn law_pango_keeps_every_block(bs: Seq<BlockView>, i: int)
    requires
        0 <= i < bs.len(),
    ensures
        blocks_pango(bs) == blocks_pango(bs.take(i)) + block_pango(bs[i]) + blocks_pango(
            bs.skip(i + 1),
        ),
        bs[i] matches BlockView::Code(m) ==> blocks_pango(bs) == blocks_pango(bs.take(i)) + m
            + "\n\n"@ + blocks_pango(bs.skip(i + 1)),
        bs[i] matches BlockView::Markup(m) ==> blocks_pango(bs) == blocks_pango(bs.take(i)) + m
            + "\n\n"@ + blocks_pango(bs.skip(i + 1)),
        bs[i] matches BlockView::Heading { markup, .. } ==> blocks_pango(bs) == blocks_pango(
            bs.take(i),
        ) + markup + "\n\n"@ + blocks_pango(bs.skip(i + 1)),
{
    let one = seq![bs[i]];
    assert(bs =~= bs.take(i) + one + bs.skip(i + 1));
    lemma_pango_concat(bs.take(i) + one, bs.skip(i + 1));
    lemma_pango_concat(bs.take(i), one);
    assert(one.drop_last() =~= Seq::<BlockView>::empty());
    assert(blocks_pango(one.drop_last()) == Seq::<char>::empty());
    assert(one.last() == bs[i]);
    assert(blocks_pango(one) =~= block_pango(bs[i]));
}

/// Appends `parts` joined by tabs.
fn push_joined(out: &mut String, parts: &Vec<String>)
    ensures
        final(out)@ == old(out)@ + join(parts.deep_view(), "\t"@),
{
    let ghost pv = parts.deep_view();
    let mut k: usize = 0;
    while k < parts.len()
        invariant
            k <= parts.len(),
            pv == parts.deep_view(),
            out@ == old(out)@ + join(pv.take(k as int), "\t"@),
        decreases parts.len() - k,
    {
        let ghost before = out@;
        if k > 0 {
            out.append("\t");
        }
        out.append(parts[k].as_str());
        proof {
            assert(pv.take(k + 1).drop_last() =~= pv.take(k as int));
            if k == 0 {
                assert(pv.take(1) =~= seq![pv[0]]);
                assert(join(pv.take(0), "\t"@) =~= Seq::<char>::empty());
            }
            assert(out@ =~= old(out)@ + join(pv.take(k + 1), "\t"@));
        }
        k += 1;
    }
    assert(pv.take(parts.len() as int) =~= pv);
}

/// Appends the Pango text of one block.
fn push_block_pango(out: &mut String, b: &Block)
    ensures
        final(out)@ == old(out)@ + block_pango(b@),
{
    match b {
        Block::Markup(m) => {
            out.append(m.as_str());
            out.append("\n\n");
        },
        Block::Code(m) => {
            out.append(m.as_str());
            out.append("\n\n");
        },
        Block::Heading { markup, .. } => {
            out.append(markup.as_str());
            out.append("\n\n");
        },
        Block::Image { alt, url, .. } => {
            let mut label = alt.clone();
            label.append(" ");
            label.append(url.as_str());
            out.append("<i>[image: ");
            push_escaped(out, label.as_str());
            out.append("]</i>\n\n");
        },
        Block::Table { head, rows } => {
            out.append("<tt>");
            if head.len() > 0 {
                push_joined(out, head);
                out.append("\n");
            }
            let ghost mid = out@;
            let ghost rv = rows.deep_view();
            let mut k: usize = 0;
            while k < rows.len()
                invariant
                    k <= rows.len(),
                    rv == rows.deep_view(),
                    out@ == mid + rows_text(rv.take(k as int)),
                decreases rows.len() - k,
            {
                push_joined(out, &rows[k]);
                out.append("\n");
                proof {
                    assert(rv.take(k + 1).drop_last() =~= rv.take(k as int));
                    assert(out@ =~= mid + rows_text(rv.take(k + 1)));
                }
                k += 1;
            }
            assert(rv.take(rows.len() as int) =~= rv);
            out.append("</tt>\n\n");
        },
    }
    assert(out@ =~= old(out)@ + block_pango(b@));
}

/// Flattens the document to a single Pango markup string for PDF export.
pub fn to_pango(source: &str, base_dir: Option<&str>, hl: &Highlighter) -> (r: String)
    ensures
        r@ == blocks_pango(preview_blocks(source@, opt_str_view(base_dir), hl.light_palette())),
{
    let blocks = render_blocks(source, base_dir, hl);
    let ghost bv = blocks_view(blocks@);
    let mut out = String::new();
    let mut k: usize = 0;
    while k < blocks.len()
        invariant
            k <= blocks.len(),
            bv == blocks_view(blocks@),
            out@ == blocks_pango(bv.take(k as int)),
        decreases blocks.len() - k,
    {
        push_block_pango(&mut out, &blocks[k]);
        proof {
            assert(bv.take(k + 1).drop_last() =~= bv.take(k as int));
            assert(out@ =~= blocks_pango(bv.take(k + 1)));
        }
        k += 1;
    }
    assert(bv.take(blocks.len() as int) =~= bv);
    out
}

/// The style sheet of the exported HTML page.
pub const HTML_CSS: &'static str = "\
body { max-width: 46rem; margin: 2rem auto; padding: 0 1rem; \
  font-family: system-ui, -apple-system, sans-serif; line-height: 1.6; color: #1a1a1a; }
pre { background: #f4f4f4; padding: 0.8rem 1rem; border-radius: 6px; overflow-x: auto; }
code { background: #f4f4f4; padding: 0.1rem 0.3rem; border-radius: 4px; font-size: 0.95em; }
pre code { background: none; padding: 0; }
table { border-collapse: collapse; }
th, td { border: 1px solid #ccc; padding: 0.3rem 0.7rem; }
img { max-width: 100%; }
blockquote { border-left: 3px solid #ccc; margin: 0; padding-left: 1rem; color: #555; }
a { color: #2a7d4f; }";

/// The standalone HTML page of the export: `title`, escaped, and `body`
/// inside a fixed template with its style sheet.
pub open spec fn html_page(title: Seq<char>, body: Seq<char>) -> Seq<char> {
    "<!DOCTYPE html>\n<html lang=\"en\">\n<head>\n<meta charset=\"utf-8\">\n<meta name=\"viewport\" content=\"width=device-width, initial-scale=1\">\n<title>"@
        + text::escape_html(title) + "</title>\n<style>\n"@ + HTML_CSS@
        + "\n</style>\n</head>\n<body>\n"@ + body + "\n</body>\n</html>\n"@
}

/// Renders the document to a standalone HTML string for export.
pub fn to_html(source: &str, title: &str) -> (r: String)
    ensures
        r@ == html_page(title@, markdown_html(source@, MARKDOWN_OPTIONS)),
{
    let body = markdown_to_html(source, MARKDOWN_OPTIONS);
    let mut out = String::new();
    out.append(
        "<!DOCTYPE html>\n<html lang=\"en\">\n<head>\n<meta charset=\"utf-8\">\n<meta name=\"viewport\" content=\"width=device-width, initial-scale=1\">\n<title>",
    );
    out.append(esc_html(title).as_str());
    out.append("</title>\n<style>\n");
    out.append(HTML_CSS);
    out.append("\n</style>\n</head>\n<body>\n");
    out.append(body.as_str());
    out.append("\n</body>\n</html>\n");
    assert(out@ =~= html_page(title@, markdown_html(source@, MARKDOWN_OPTIONS)));
    out
}

/// Every exported page begins with the HTML doctype.
pub proof fn law_html_page_is_standalone(title: Seq<char>, body: Seq<char>)
    ensures
        text::starts_with(html_page(title, body), "<!DOCTYPE html>"@),
{
    reveal_strlit("<!DOCTYPE html>");
    reveal_strlit(
        "<!DOCTYPE html>\n<html lang=\"en\">\n<head>\n<meta charset=\"utf-8\">\n<meta name=\"viewport\" content=\"width=device-width, initial-scale=1\">\n<title>",
    );
    let p = "<!DOCTYPE html>\n<html lang=\"en\">\n<head>\n<meta charset=\"utf-8\">\n<meta name=\"viewport\" content=\"width=device-width, initial-scale=1\">\n<title>"@;
    let page = html_page(title, body);
    assert(page.subrange(0, 15) =~= p.subrange(0, 15));
    assert(p.subrange(0, 15) =~= "<!DOCTYPE html>"@);
}

// ---------------------------------------------------------------------------
// Laws of the fold
// ---------------------------------------------------------------------------

/// A markup run is non-empty and neither begins nor ends with whitespace.
pub open spec fn is_trimmed_run(m: Seq<char>) -> bool {
    m.len() > 0 && !text::is_ws(m[0]) && !text::is_ws(m.last())
}

/// Every markup block is a trimmed, non-empty run.
pub open spec fn runs_trimmed(blocks: Seq<DraftView>) -> bool {
    forall|i: int|
        0 <= i < blocks.len() ==> (#[trigger] blocks[i] matches DraftView::Markup(m) ==> is_trimmed_run(m))
}

proof fn lemma_push_keeps_runs(blocks: Seq<DraftView>, d: DraftView)
    requires
        runs_trimmed(blocks),
        d matches DraftView::Markup(m) ==> is_trimmed_run(m),
    ensures
        runs_trimmed(blocks.push(d)),
{
    assert forall|i: int| 0 <= i < blocks.push(d).len() implies (#[trigger] blocks.push(d)[i] matches DraftView::Markup(m)
        ==> is_trimmed_run(m)) by {
        if i < blocks.len() {
            assert(blocks.push(d)[i] == blocks[i]);
        }
    }
}

proof fn lemma_flush_keeps_runs(st: Scan)
    requires
        runs_trimmed(st.blocks),
    ensures
        runs_trimmed(flush(st).blocks),
{
    let t = text::trim(st.out);
    if t.len() > 0 {
        text::law_trimmed_has_no_outer_whitespace(st.out);
        lemma_push_keeps_runs(st.blocks, DraftView::Markup(t));
    }
}

proof fn lemma_event_keeps_runs(st: Scan, ev: EventView, starts: Seq<usize>, base: Option<Seq<char>>)
    requires
        runs_trimmed(st.blocks),
    ensures
        runs_trimmed(scan_event(st, ev, starts, base).blocks),
{
    match ev {
        EventView::Start(tag, at) => {
            match tag {
                TagView::Heading(_) => lemma_flush_keeps_runs(st),
                TagView::Image(_) => lemma_flush_keeps_runs(st),
                TagView::Table => lemma_flush_keeps_runs(st),
                _ => {},
            }
        },
        EventView::End(tag) => {
            match tag {
                MdTagEnd::Heading(_) => {
                    lemma_push_keeps_runs(
                        st.blocks,
                        DraftView::Heading {
                            level: st.head_level,
                            markup: st.head_markup + "</span>"@,
                            text: text::trim(st.head_text),
                            line: st.head_line,
                        },
                    );
                },
                MdTagEnd::Image => {
                    lemma_push_keeps_runs(
                        st.blocks,
                        DraftView::Image {
                            path: image_path(st.img_url, base),
                            url: st.img_url,
                            alt: st.img_alt,
                        },
                    );
                },
                MdTagEnd::CodeBlock => {
                    let f = flush(Scan { in_code: false, ..st });
                    lemma_flush_keeps_runs(Scan { in_code: false, ..st });
                    lemma_push_keeps_runs(f.blocks, DraftView::Code { code: st.code, lang: st.lang });
                },
                MdTagEnd::TableRow => {},
                MdTagEnd::Table => {
                    lemma_push_keeps_runs(st.blocks, DraftView::Table { head: st.head, rows: st.rows });
                },
                _ => {},
            }
        },
        _ => {},
    }
}

proof fn lemma_scan_keeps_runs(events: Seq<EventView>, starts: Seq<usize>, base: Option<Seq<char>>)
    ensures
        runs_trimmed(scan_events(events, starts, base).blocks),
    decreases events.len(),
{
    if events.len() > 0 {
        lemma_scan_keeps_runs(events.drop_last(), starts, base);
        lemma_event_keeps_runs(scan_events(events.drop_last(), starts, base), events.last(), starts, base);
    }
}

/// Whatever the parser yields, the preview shows no blank run of text:
/// every markup block is non-empty and trimmed of surrounding whitespace.
pub proof fn law_markup_blocks_are_trimmed(
    events: Seq<EventView>,
    starts: Seq<usize>,
    base_dir: Option<Seq<char>>,
)
    ensures
        runs_trimmed(drafts_of(events, starts, base_dir)),
{
    lemma_scan_keeps_runs(events, starts, base_dir);
    lemma_flush_keeps_runs(scan_events(events, starts, base_dir));
}

/// Every heading block has a level from 1 to 6 and a line from 1 to `lines`.
pub open spec fn headings_in_range(blocks: Seq<DraftView>, lines: nat) -> bool {
    forall|i: int|
        0 <= i < blocks.len() ==> (#[trigger] blocks[i] matches DraftView::Heading { level, line, .. }
            ==> 1 <= level <= 6 && 1 <= line <= lines)
}

/// Every heading preview block has a level from 1 to 6 and a line from 1 to
/// `lines`.
pub open spec fn block_headings_in_range(blocks: Seq<BlockView>, lines: nat) -> bool {
    forall|i: int|
        0 <= i < blocks.len() ==> (#[trigger] blocks[i] matches BlockView::Heading { level, line, .. }
            ==> 1 <= level <= 6 && 1 <= line <= lines)
}

/// The heading being collected, and every heading block so far, are in
/// range.
pub open spec fn scan_headings_in_range(st: Scan, lines: nat) -> bool {
    &&& 1 <= st.head_level <= 6
    &&& 1 <= st.head_line <= lines
    &&& headings_in_range(st.blocks, lines)
}

proof fn lemma_count_at_most_len(starts: Seq<usize>, offset: usize)
    ensures
        count_at_most(starts, offset) <= starts.len(),
    decreases starts.len(),
{
    if starts.len() > 0 {
        lemma_count_at_most_len(starts.drop_last(), offset);
    }
}

/// There is one line start more than there are newlines.
proof fn lemma_line_starts_len(bytes: Seq<u8>)
    ensures
        line_starts_of(bytes).len() == 1 + newlines_before(bytes, bytes.len() as int),
    decreases bytes.len(),
{
    if bytes.len() > 0 {
        let n = bytes.len() as int;
        lemma_line_starts_len(bytes.drop_last());
        lemma_newlines_prefix(bytes, n - 1);
        assert(bytes.drop_last().len() == n - 1);
    }
}

proof fn lemma_push_keeps_headings(blocks: Seq<DraftView>, d: DraftView, lines: nat)
    requires
        headings_in_range(blocks, lines),
        d matches DraftView::Heading { level, line, .. } ==> 1 <= level <= 6 && 1 <= line <= lines,
    ensures
        headings_in_range(blocks.push(d), lines),
{
    assert forall|i: int| 0 <= i < blocks.push(d).len() implies (#[trigger] blocks.push(d)[i] matches DraftView::Heading {
        level,
        line,
        ..
    } ==> 1 <= level <= 6 && 1 <= line <= lines) by {
        if i < blocks.len() {
            assert(blocks.push(d)[i] == blocks[i]);
        }
    }
}

proof fn lemma_flush_keeps_headings(st: Scan, lines: nat)
    requires
        scan_headings_in_range(st, lines),
    ensures
        scan_headings_in_range(flush(st), lines),
{
    let t = text::trim(st.out);
    if t.len() > 0 {
        lemma_push_keeps_headings(st.blocks, DraftView::Markup(t), lines);
    }
}

proof fn lemma_event_keeps_headings(
    st: Scan,
    ev: EventView,
    starts: Seq<usize>,
    base: Option<Seq<char>>,
    len: nat,
)
    requires
        scan_headings_in_range(st, starts.len()),
        starts.len() <= usize::MAX,
        event_fits(ev, len),
    ensures
        scan_headings_in_range(scan_event(st, ev, starts, base), starts.len()),
{
    let lines = starts.len();
    match ev {
        EventView::Start(tag, at) => {
            match tag {
                TagView::Heading(_) => {
                    lemma_flush_keeps_headings(st, lines);
                    lemma_count_at_most_len(starts, at);
                },
                TagView::Image(_) => lemma_flush_keeps_headings(st, lines),
                TagView::Table => lemma_flush_keeps_headings(st, lines),
                _ => {},
            }
        },
        EventView::End(tag) => {
            match tag {
                MdTagEnd::Heading(_) => {
                    lemma_push_keeps_headings(
                        st.blocks,
                        DraftView::Heading {
                            level: st.head_level,
                            markup: st.head_markup + "</span>"@,
                            text: text::trim(st.head_text),
                            line: st.head_line,
                        },
                        lines,
                    );
                },
                MdTagEnd::Image => {
                    lemma_push_keeps_headings(
                        st.blocks,
                        DraftView::Image {
                            path: image_path(st.img_url, base),
                            url: st.img_url,
                            alt: st.img_alt,
                        },
                        lines,
                    );
                },
                MdTagEnd::CodeBlock => {
                    let f = flush(Scan { in_code: false, ..st });
                    lemma_flush_keeps_headings(Scan { in_code: false, ..st }, lines);
                    lemma_push_keeps_headings(
                        f.blocks,
                        DraftView::Code { code: st.code, lang: st.lang },
                        lines,
                    );
                },
                MdTagEnd::TableRow => {},
                MdTagEnd::Table => {
                    lemma_push_keeps_headings(
                        st.blocks,
                        DraftView::Table { head: st.head, rows: st.rows },
                        lines,
                    );
                },
                _ => {},
            }
        },
        _ => {},
    }
}

proof fn lemma_scan_keeps_headings(
    events: Seq<EventView>,
    starts: Seq<usize>,
    base: Option<Seq<char>>,
    len: nat,
)
    requires
        1 <= starts.len() <= usize::MAX,
        events_fit(events, len),
    ensures
        scan_headings_in_range(scan_events(events, starts, base), starts.len()),
    decreases events.len(),
{
    if events.len() > 0 {
        let init = events.drop_last();
        assert forall|i: int| 0 <= i < init.len() implies event_fits(#[trigger] init[i], len) by {
            assert(init[i] == events[i]);
        }
        lemma_scan_keeps_headings(init, starts, base, len);
        assert(event_fits(events[events.len() - 1], len));
        lemma_event_keeps_headings(scan_events(init, starts, base), events.last(), starts, base, len);
    } else {
        assert(headings_in_range(Seq::<DraftView>::empty(), starts.len()));
    }
}

/// Whatever the parser yields, as long as its heading levels are 1 to 6,
/// every heading of the preview has a level from 1 to 6 and a 1-based line
/// no later than the last line of the source (one more than its newlines).
pub proof fn law_headings_in_range(
    events: Seq<EventView>,
    bytes: Seq<u8>,
    base_dir: Option<Seq<char>>,
    light: bool,
)
    requires
        bytes.len() < usize::MAX,
        events_fit(events, bytes.len()),
    ensures
        block_headings_in_range(
            drafts_of(events, line_starts_of(bytes), base_dir).map_values(
                |d: DraftView| finished(d, light),
            ),
            1 + newlines_before(bytes, bytes.len() as int),
        ),
{
    let starts = line_starts_of(bytes);
    lemma_line_starts_len(bytes);
    lemma_newlines_bound(bytes, bytes.len() as int);
    lemma_scan_keeps_headings(events, starts, base_dir, bytes.len());
    lemma_flush_keeps_headings(scan_events(events, starts, base_dir), starts.len());
    let ds = drafts_of(events, starts, base_dir);
    let bs = ds.map_values(|d: DraftView| finished(d, light));
    assert forall|i: int| 0 <= i < bs.len() implies (#[trigger] bs[i] matches BlockView::Heading {
        level,
        line,
        ..
    } ==> 1 <= level <= 6 && 1 <= line <= starts.len()) by {
        assert(bs[i] == finished(ds[i], light));
        assert(ds[i] matches DraftView::Heading { level, line, .. } ==> 1 <= level <= 6 && 1 <= line
            <= starts.len());
    }
}

// ---------------------------------------------------------------------------
// Laws of tables
// ---------------------------------------------------------------------------

/// The fold from state `st` over `events`.
pub open spec fn scan_from(
    st: Scan,
    events: Seq<EventView>,
    starts: Seq<usize>,
    base_dir: Option<Seq<char>>,
) -> Scan
    decreases events.len(),
{
    if events.len() == 0 {
        st
    } else {
        scan_event(scan_from(st, events.drop_last(), starts, base_dir), events.last(), starts, base_dir)
    }
}

/// The events of one table cell holding the text `c`.
pub open spec fn cell_events(c: Seq<char>) -> Seq<EventView> {
    seq![
        EventView::Start(TagView::TableCell, 0),
        EventView::Text(c),
        EventView::End(MdTagEnd::TableCell),
    ]
}

/// The events of a run of table cells.
pub open spec fn cells_events(cells: Seq<Seq<char>>) -> Seq<EventView>
    decreases cells.len(),
{
    if cells.len() == 0 {
        Seq::empty()
    } else {
        cells_events(cells.drop_last()) + cell_events(cells.last())
    }
}

/// The events of a table's header row.
pub open spec fn head_events(cells: Seq<Seq<char>>) -> Seq<EventView> {
    seq![EventView::Start(TagView::TableHead, 0)] + cells_events(cells) + seq![
        EventView::End(MdTagEnd::TableHead),
    ]
}

/// The events of one body row of a table.
pub open spec fn row_events(cells: Seq<Seq<char>>) -> Seq<EventView> {
    seq![EventView::Start(TagView::TableRow, 0)] + cells_events(cells) + seq![
        EventView::End(MdTagEnd::TableRow),
    ]
}

/// The events of the body rows of a table.
pub open spec fn rows_events(rows: Seq<Seq<Seq<char>>>) -> Seq<EventView>
    decreases rows.len(),
{
    if rows.len() == 0 {
        Seq::empty()
    } else {
        rows_events(rows.drop_last()) + row_events(rows.last())
    }
}

/// The events of a table with header cells `head` and body rows `rows`, as
/// the parser yields them for a Markdown table.
pub open spec fn table_events(head: Seq<Seq<char>>, rows: Seq<Seq<Seq<char>>>) -> Seq<EventView> {
    seq![EventView::Start(TagView::Table, 0)] + head_events(head) + rows_events(rows) + seq![
        EventView::End(MdTagEnd::Table),
    ]
}

/// Cell texts as the preview shows them: escaped for Pango markup.
pub open spec fn escaped_cells(cells: Seq<Seq<char>>) -> Seq<Seq<char>> {
    cells.map_values(|c: Seq<char>| text::escape_markup(c))
}

/// Rows of cell texts as the preview shows them.
pub open spec fn escaped_rows(rows: Seq<Seq<Seq<char>>>) -> Seq<Seq<Seq<char>>> {
    rows.map_values(|r: Seq<Seq<char>>| escaped_cells(r))
}

/// The fold is inside a table's cells, outside any heading, code block or
/// image, with no cell being collected.
pub open spec fn in_table_cells(st: Scan) -> bool {
    &&& st.in_table
    &&& !st.in_heading
    &&& !st.in_code
    &&& !st.in_image
    &&& st.cell == Seq::<char>::empty()
}

proof fn lemma_scan_from_concat(
    st: Scan,
    a: Seq<EventView>,
    b: Seq<EventView>,
    starts: Seq<usize>,
    base: Option<Seq<char>>,
)
    ensures
        scan_from(st, a + b, starts, base) == scan_from(scan_from(st, a, starts, base), b, starts, base),
    decreases b.len(),
{
    if b.len() == 0 {
        assert(a + b =~= a);
    } else {
        lemma_scan_from_concat(st, a, b.drop_last(), starts, base);
        assert((a + b).drop_last() =~= a + b.drop_last());
        assert((a + b).last() == b.last());
    }
}

proof fn lemma_scan_events_from_start(events: Seq<EventView>, starts: Seq<usize>, base: Option<Seq<char>>)
    ensures
        scan_events(events, starts, base) == scan_from(scan_start(), events, starts, base),
    decreases events.len(),
{
    if events.len() > 0 {
        lemma_scan_events_from_start(events.drop_last(), starts, base);
    }
}

proof fn lemma_scan_from_one(st: Scan, e: EventView, starts: Seq<usize>, base: Option<Seq<char>>)
    ensures
        scan_from(st, seq![e], starts, base) == scan_event(st, e, starts, base),
{
    assert(seq![e].drop_last() =~= Seq::<EventView>::empty());
    assert(scan_from(st, seq![e].drop_last(), starts, base) == st);
    assert(seq![e].last() == e);
}

proof fn lemma_cell(st: Scan, c: Seq<char>, starts: Seq<usize>, base: Option<Seq<char>>)
    requires
        in_table_cells(st),
    ensures
        scan_from(st, cell_events(c), starts, base) == (Scan {
            row: st.row.push(text::escape_markup(c)),
            ..st
        }),
{
    let e0 = EventView::Start(TagView::TableCell, 0);
    let e1 = EventView::Text(c);
    let e2 = EventView::End(MdTagEnd::TableCell);
    assert(cell_events(c) =~= seq![e0] + seq![e1] + seq![e2]);
    lemma_scan_from_concat(st, seq![e0] + seq![e1], seq![e2], starts, base);
    lemma_scan_from_concat(st, seq![e0], seq![e1], starts, base);
    lemma_scan_from_one(st, e0, starts, base);
    let s1 = scan_event(st, e0, starts, base);
    assert(s1 == st);
    lemma_scan_from_one(s1, e1, starts, base);
    let s2 = scan_event(s1, e1, starts, base);
    assert(s2 == Scan { cell: text::escape_markup(c), ..st }) by {
        assert(st.cell + text::escape_markup(c) =~= text::escape_markup(c));
    }
    lemma_scan_from_one(s2, e2, starts, base);
}

proof fn lemma_cells(st: Scan, cells: Seq<Seq<char>>, starts: Seq<usize>, base: Option<Seq<char>>)
    requires
        in_table_cells(st),
    ensures
        scan_from(st, cells_events(cells), starts, base) == (Scan {
            row: st.row + escaped_cells(cells),
            ..st
        }),
    decreases cells.len(),
{
    if cells.len() == 0 {
        assert(cells_events(cells) =~= Seq::<EventView>::empty());
        assert(st.row + escaped_cells(cells) =~= st.row);
    } else {
        let init = cells.drop_last();
        lemma_cells(st, init, starts, base);
        lemma_scan_from_concat(st, cells_events(init), cell_events(cells.last()), starts, base);
        let s1 = Scan { row: st.row + escaped_cells(init), ..st };
        lemma_cell(s1, cells.last(), starts, base);
        assert((st.row + escaped_cells(init)).push(text::escape_markup(cells.last())) =~= st.row
            + escaped_cells(cells));
    }
}

proof fn lemma_row(st: Scan, cells: Seq<Seq<char>>, starts: Seq<usize>, base: Option<Seq<char>>)
    requires
        in_table_cells(st),
        !st.in_head,
        st.row == Seq::<Seq<char>>::empty(),
    ensures
        scan_from(st, row_events(cells), starts, base) == (Scan {
            rows: st.rows.push(escaped_cells(cells)),
            ..st
        }),
{
    let e0 = EventView::Start(TagView::TableRow, 0);
    let e2 = EventView::End(MdTagEnd::TableRow);
    lemma_scan_from_concat(st, seq![e0] + cells_events(cells), seq![e2], starts, base);
    lemma_scan_from_concat(st, seq![e0], cells_events(cells), starts, base);
    lemma_scan_from_one(st, e0, starts, base);
    let s1 = scan_event(st, e0, starts, base);
    assert(s1 == st);
    lemma_cells(s1, cells, starts, base);
    let s2 = Scan { row: st.row + escaped_cells(cells), ..st };
    assert(st.row + escaped_cells(cells) =~= escaped_cells(cells));
    lemma_scan_from_one(s2, e2, starts, base);
}

proof fn lemma_rows(
    st: Scan,
    rows: Seq<Seq<Seq<char>>>,
    starts: Seq<usize>,
    base: Option<Seq<char>>,
)
    requires
        in_table_cells(st),
        !st.in_head,
        st.row == Seq::<Seq<char>>::empty(),
    ensures
        scan_from(st, rows_events(rows), starts, base) == (Scan {
            rows: st.rows + escaped_rows(rows),
            ..st
        }),
    decreases rows.len(),
{
    if rows.len() == 0 {
        assert(rows_events(rows) =~= Seq::<EventView>::empty());
        assert(st.rows + escaped_rows(rows) =~= st.rows);
    } else {
        let init = rows.drop_last();
        lemma_rows(st, init, starts, base);
        lemma_scan_from_concat(st, rows_events(init), row_events(rows.last()), starts, base);
        let s1 = Scan { rows: st.rows + escaped_rows(init), ..st };
        lemma_row(s1, rows.last(), starts, base);
        assert((st.rows + escaped_rows(init)).push(escaped_cells(rows.last())) =~= st.rows
            + escaped_rows(rows));
    }
}

proof fn lemma_head(st: Scan, cells: Seq<Seq<char>>, starts: Seq<usize>, base: Option<Seq<char>>)
    requires
        in_table_cells(st),
        !st.in_head,
        st.row == Seq::<Seq<char>>::empty(),
    ensures
        scan_from(st, head_events(cells), starts, base) == (Scan { head: escaped_cells(cells), ..st }),
{
    let e0 = EventView::Start(TagView::TableHead, 0);
    let e2 = EventView::End(MdTagEnd::TableHead);
    lemma_scan_from_concat(st, seq![e0] + cells_events(cells), seq![e2], starts, base);
    lemma_scan_from_concat(st, seq![e0], cells_events(cells), starts, base);
    lemma_scan_from_one(st, e0, starts, base);
    let s1 = scan_event(st, e0, starts, base);
    assert(s1 == Scan { in_head: true, ..st });
    lemma_cells(s1, cells, starts, base);
    let s2 = Scan { row: s1.row + escaped_cells(cells), ..s1 };
    assert(s1.row + escaped_cells(cells) =~= escaped_cells(cells));
    lemma_scan_from_one(s2, e2, starts, base);
}

/// A document that is one table renders to one table block whose head holds
/// the header cells and whose rows are every body row, in order, each with
/// its cells in order, their text escaped for Pango markup.
pub proof fn law_table_keeps_every_row(
    head: Seq<Seq<char>>,
    rows: Seq<Seq<Seq<char>>>,
    starts: Seq<usize>,
    base_dir: Option<Seq<char>>,
)
    ensures
        drafts_of(table_events(head, rows), starts, base_dir) == seq![
            DraftView::Table { head: escaped_cells(head), rows: escaped_rows(rows) },
        ],
{
    let base = base_dir;
    let e0 = EventView::Start(TagView::Table, 0);
    let e3 = EventView::End(MdTagEnd::Table);
    let hv = head_events(head);
    let rv = rows_events(rows);
    let evs = table_events(head, rows);
    lemma_scan_events_from_start(evs, starts, base);
    lemma_scan_from_concat(scan_start(), seq![e0] + hv + rv, seq![e3], starts, base);
    lemma_scan_from_concat(scan_start(), seq![e0] + hv, rv, starts, base);
    lemma_scan_from_concat(scan_start(), seq![e0], hv, starts, base);
    lemma_scan_from_one(scan_start(), e0, starts, base);
    let s0 = scan_start();
    assert(text::trim(s0.out) =~= Seq::<char>::empty());
    assert(flush(s0) == s0);
    let s1 = scan_event(s0, e0, starts, base);
    assert(s1 == Scan { in_table: true, ..s0 });
    lemma_head(s1, head, starts, base);
    let s2 = Scan { head: escaped_cells(head), ..s1 };
    lemma_rows(s2, rows, starts, base);
    let s3 = Scan { rows: s2.rows + escaped_rows(rows), ..s2 };
    assert(s2.rows + escaped_rows(rows) =~= escaped_rows(rows));
    lemma_scan_from_one(s3, e3, starts, base);
    let s4 = scan_event(s3, e3, starts, base);
    assert(evs =~= seq![e0] + hv + rv + seq![e3]);
    assert(scan_events(evs, starts, base) == s4);
    assert(text::trim(s4.out) =~= Seq::<char>::empty());
    assert(s4.blocks =~= seq![
        DraftView::Table { head: escaped_cells(head), rows: escaped_rows(rows) },
    ]);
}

// ---------------------------------------------------------------------------
// Laws of image resolution
// ---------------------------------------------------------------------------

/// Two draft blocks are the same, but for the resolved path of an image.
pub open spec fn drafts_agree(a: DraftView, b: DraftView) -> bool {
    match (a, b) {
        (
            DraftView::Image { url: u1, alt: a1, .. },
            DraftView::Image { url: u2, alt: a2, .. },
        ) => u1 == u2 && a1 == a2,
        _ => a == b,
    }
}

/// Two runs of draft blocks are the same, but for image paths.
pub open spec fn draft_runs_agree(a: Seq<DraftView>, b: Seq<DraftView>) -> bool {
    a.len() == b.len() && forall|i: int| 0 <= i < a.len() ==> drafts_agree(#[trigger] a[i], b[i])
}

/// Two states of the fold are the same, but for image paths in their
/// blocks.
pub open spec fn scans_agree(x: Scan, y: Scan) -> bool {
    &&& (Scan { blocks: Seq::empty(), ..x }) == (Scan { blocks: Seq::empty(), ..y })
    &&& draft_runs_agree(x.blocks, y.blocks)
}

proof fn lemma_agree_push(a: Seq<DraftView>, b: Seq<DraftView>, x: DraftView, y: DraftView)
    requires
        draft_runs_agree(a, b),
        drafts_agree(x, y),
    ensures
        draft_runs_agree(a.push(x), b.push(y)),
{
    assert forall|i: int| 0 <= i < a.push(x).len() implies drafts_agree(
        #[trigger] a.push(x)[i],
        b.push(y)[i],
    ) by {
        if i < a.len() {
            assert(a.push(x)[i] == a[i] && b.push(y)[i] == b[i]);
        }
    }
}

proof fn lemma_flush_agree(x: Scan, y: Scan)
    requires
        scans_agree(x, y),
    ensures
        scans_agree(flush(x), flush(y)),
{
    assert(x.out == y.out);
    let t = text::trim(x.out);
    if t.len() > 0 {
        lemma_agree_push(x.blocks, y.blocks, DraftView::Markup(t), DraftView::Markup(t));
    }
}

proof fn lemma_event_agree(
    x: Scan,
    y: Scan,
    ev: EventView,
    starts: Seq<usize>,
    d1: Option<Seq<char>>,
    d2: Option<Seq<char>>,
)
    requires
        scans_agree(x, y),
    ensures
        scans_agree(scan_event(x, ev, starts, d1), scan_event(y, ev, starts, d2)),
{
    let sx = Scan { blocks: Seq::empty(), ..x };
    let sy = Scan { blocks: Seq::empty(), ..y };
    assert(sx.out == sy.out && sx.lists == sy.lists && sx.in_code == sy.in_code && sx.code == sy.code
        && sx.lang == sy.lang && sx.in_heading == sy.in_heading && sx.head_markup == sy.head_markup
        && sx.head_text == sy.head_text && sx.head_level == sy.head_level && sx.head_line
        == sy.head_line && sx.in_image == sy.in_image && sx.img_url == sy.img_url && sx.img_alt
        == sy.img_alt && sx.in_table == sy.in_table && sx.in_head == sy.in_head && sx.head == sy.head
        && sx.rows == sy.rows && sx.row == sy.row && sx.cell == sy.cell);
    match ev {
        EventView::Start(tag, at) => {
            match tag {
                TagView::Heading(_) => lemma_flush_agree(x, y),
                TagView::Image(_) => lemma_flush_agree(x, y),
                TagView::Table => lemma_flush_agree(x, y),
                _ => {},
            }
        },
        EventView::End(tag) => {
            match tag {
                MdTagEnd::Heading(_) => {
                    let h = DraftView::Heading {
                        level: x.head_level,
                        markup: x.head_markup + "</span>"@,
                        text: text::trim(x.head_text),
                        line: x.head_line,
                    };
                    lemma_agree_push(x.blocks, y.blocks, h, h);
                },
                MdTagEnd::Image => {
                    lemma_agree_push(
                        x.blocks,
                        y.blocks,
                        DraftView::Image { path: image_path(x.img_url, d1), url: x.img_url, alt: x.img_alt },
                        DraftView::Image { path: image_path(y.img_url, d2), url: y.img_url, alt: y.img_alt },
                    );
                },
                MdTagEnd::CodeBlock => {
                    let fx = flush(Scan { in_code: false, ..x });
                    let fy = flush(Scan { in_code: false, ..y });
                    lemma_flush_agree(Scan { in_code: false, ..x }, Scan { in_code: false, ..y });
                    let c = DraftView::Code { code: x.code, lang: x.lang };
                    lemma_agree_push(fx.blocks, fy.blocks, c, c);
                },
                MdTagEnd::Table => {
                    let t = DraftView::Table { head: x.head, rows: x.rows };
                    lemma_agree_push(x.blocks, y.blocks, t, t);
                },
                _ => {},
            }
        },
        _ => {},
    }
}

proof fn lemma_scan_agree(
    events: Seq<EventView>,
    starts: Seq<usize>,
    d1: Option<Seq<char>>,
    d2: Option<Seq<char>>,
)
    ensures
        scans_agree(scan_events(events, starts, d1), scan_events(events, starts, d2)),
    decreases events.len(),
{
    if events.len() > 0 {
        lemma_scan_agree(events.drop_last(), starts, d1, d2);
        lemma_event_agree(
            scan_events(events.drop_last(), starts, d1),
            scan_events(events.drop_last(), starts, d2),
            events.last(),
            starts,
            d1,
            d2,
        );
    } else {
        assert(draft_runs_agree(Seq::empty(), Seq::empty()));
    }
}

/// Two preview blocks are the same, but for the resolved path of an image.
pub open spec fn blocks_agree(a: BlockView, b: BlockView) -> bool {
    match (a, b) {
        (
            BlockView::Image { url: u1, alt: a1, .. },
            BlockView::Image { url: u2, alt: a2, .. },
        ) => u1 == u2 && a1 == a2,
        _ => a == b,
    }
}

/// The base directory only moves image paths: previews of one source under
/// two base directories have as many blocks, and agree block by block but
/// for the resolved paths of images.
pub proof fn law_base_dir_only_moves_image_paths(
    source: Seq<char>,
    d1: Option<Seq<char>>,
    d2: Option<Seq<char>>,
    light: bool,
)
    ensures
        preview_blocks(source, d1, light).len() == preview_blocks(source, d2, light).len(),
        forall|i: int|
            0 <= i < preview_blocks(source, d1, light).len() ==> blocks_agree(
                #[trigger] preview_blocks(source, d1, light)[i],
                preview_blocks(source, d2, light)[i],
            ),
{
    let events = markdown_events(source, MARKDOWN_OPTIONS);
    let starts = line_starts_of(vstd::utf8::encode_utf8(source));
    lemma_scan_agree(events, starts, d1, d2);
    lemma_flush_agree(scan_events(events, starts, d1), scan_events(events, starts, d2));
    let a = drafts_of(events, starts, d1);
    let b = drafts_of(events, starts, d2);
    assert forall|i: int| 0 <= i < preview_blocks(source, d1, light).len() implies blocks_agree(
        #[trigger] preview_blocks(source, d1, light)[i],
        preview_blocks(source, d2, light)[i],
    ) by {
        assert(drafts_agree(a[i], b[i]));
    }
}

/// Every image draft holds the path its URL resolves to under `base_dir`.
pub open spec fn images_resolved(blocks: Seq<DraftView>, base_dir: Option<Seq<char>>) -> bool {
    forall|i: int|
        0 <= i < blocks.len() ==> (#[trigger] blocks[i] matches DraftView::Image { path, url, .. }
            ==> path == image_path(url, base_dir))
}

proof fn lemma_push_resolved(blocks: Seq<DraftView>, d: DraftView, base: Option<Seq<char>>)
    requires
        images_resolved(blocks, base),
        d matches DraftView::Image { path, url, .. } ==> path == image_path(url, base),
    ensures
        images_resolved(blocks.push(d), base),
{
    assert forall|i: int| 0 <= i < blocks.push(d).len() implies (#[trigger] blocks.push(d)[i] matches DraftView::Image { path, url, .. }
        ==> path == image_path(url, base)) by {
        if i < blocks.len() {
            assert(blocks.push(d)[i] == blocks[i]);
        }
    }
}

proof fn lemma_flush_resolved(st: Scan, base: Option<Seq<char>>)
    requires
        images_resolved(st.blocks, base),
    ensures
        images_resolved(flush(st).blocks, base),
{
    let t = text::trim(st.out);
    if t.len() > 0 {
        lemma_push_resolved(st.blocks, DraftView::Markup(t), base);
    }
}

proof fn lemma_event_resolved(st: Scan, ev: EventView, starts: Seq<usize>, base: Option<Seq<char>>)
    requires
        images_resolved(st.blocks, base),
    ensures
        images_resolved(scan_event(st, ev, starts, base).blocks, base),
{
    match ev {
        EventView::Start(tag, at) => {
            match tag {
                TagView::Heading(_) => lemma_flush_resolved(st, base),
                TagView::Image(_) => lemma_flush_resolved(st, base),
                TagView::Table => lemma_flush_resolved(st, base),
                _ => {},
            }
        },
        EventView::End(tag) => {
            match tag {
                MdTagEnd::Heading(_) => {
                    lemma_push_resolved(
                        st.blocks,
                        DraftView::Heading {
                            level: st.head_level,
                            markup: st.head_markup + "</span>"@,
                            text: text::trim(st.head_text),
                            line: st.head_line,
                        },
                        base,
                    );
                },
                MdTagEnd::Image => {
                    lemma_push_resolved(
                        st.blocks,
                        DraftView::Image {
                            path: image_path(st.img_url, base),
                            url: st.img_url,
                            alt: st.img_alt,
                        },
                        base,
                    );
                },
                MdTagEnd::CodeBlock => {
                    let f = flush(Scan { in_code: false, ..st });
                    lemma_flush_resolved(Scan { in_code: false, ..st }, base);
                    lemma_push_resolved(f.blocks, DraftView::Code { code: st.code, lang: st.lang }, base);
                },
                MdTagEnd::Table => {
                    lemma_push_resolved(st.blocks, DraftView::Table { head: st.head, rows: st.rows }, base);
                },
                _ => {},
            }
        },
        _ => {},
    }
}

proof fn lemma_scan_resolved(events: Seq<EventView>, starts: Seq<usize>, base: Option<Seq<char>>)
    ensures
        images_resolved(scan_events(events, starts, base).blocks, base),
    decreases events.len(),
{
    if events.len() > 0 {
        lemma_scan_resolved(events.drop_last(), starts, base);
        lemma_event_resolved(scan_events(events.drop_last(), starts, base), events.last(), starts, base);
    }
}

/// Every image of the preview holds the local path its URL resolves to:
/// none for a remote URL (http, https, data), the path itself when absolute,
/// else the path under the base directory, if any.
pub proof fn law_images_resolve_their_url(source: Seq<char>, base_dir: Option<Seq<char>>, light: bool)
    ensures
        forall|i: int|
            0 <= i < preview_blocks(source, base_dir, light).len() ==> (
            #[trigger] preview_blocks(source, base_dir, light)[i] matches BlockView::Image {
                path,
                url,
                ..
            } ==> path == image_path(url, base_dir)),
{
    let events = markdown_events(source, MARKDOWN_OPTIONS);
    let starts = line_starts_of(vstd::utf8::encode_utf8(source));
    lemma_scan_resolved(events, starts, base_dir);
    lemma_flush_resolved(scan_events(events, starts, base_dir), base_dir);
    let a = drafts_of(events, starts, base_dir);
    assert forall|i: int| 0 <= i < preview_blocks(source, base_dir, light).len() implies (
    #[trigger] preview_blocks(source, base_dir, light)[i] matches BlockView::Image {
        path,
        url,
        ..
    } ==> path == image_path(url, base_dir)) by {
        assert(a[i] matches DraftView::Image { path, url, .. } ==> path == image_path(url, base_dir));
    }
}

} // verus!
