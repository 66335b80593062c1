//! Decisions of the editor window that depend on plain values only: which
//! panes a view mode shows, tab and window titles, when a document is dirty
//! or reloaded, where a file opens, table layout, outline labels, export
//! names and search result labels.

use vstd::prelude::*;

use crate::fs;
use crate::style::same_text;
use crate::text;
use crate::text::{chars_of, push_char, push_decimal, push_spaces, string_of};

verus! {

/// The view mode of a document tab.
#[derive(PartialEq, Eq, Structural, Clone, Copy)]
pub enum Mode {
    Preview,
    Split,
    Edit,
}

/// Which panes a mode shows: `(editor, preview)`.
pub fn mode_panes(mode: Mode) -> (r: (bool, bool))
    ensures
        r == (match mode {
            Mode::Preview => (false, true),
            Mode::Split => (true, true),
            Mode::Edit => (true, false),
        }),
{
    match mode {
        Mode::Preview => (false, true),
        Mode::Split => (true, true),
        Mode::Edit => (true, false),
    }
}

/// The name a document goes by: its file name, or "Untitled".
pub open spec fn doc_name(path: Option<Seq<char>>) -> Seq<char> {
    match path {
        Some(p) => match fs::file_name(p) {
            Some(n) => n,
            None => "Untitled"@,
        },
        None => "Untitled"@,
    }
}

/// The view of an optional string slice.
pub open spec fn opt_str(s: Option<&str>) -> Option<Seq<char>> {
    match s {
        Some(x) => Some(x@),
        None => None,
    }
}

/// The title of a document tab: its name, after a bullet when it has unsaved
/// changes.
pub fn tab_title(path: Option<&str>, dirty: bool) -> (r: String)
    ensures
        r@ == (if dirty {
            "• "@ + doc_name(opt_str(path))
        } else {
            doc_name(opt_str(path))
        }),
{
    let name = match path {
        Some(p) => match fs::path_file_name(p) {
            Some(n) => n,
            None => "Untitled".to_string(),
        },
        None => "Untitled".to_string(),
    };
    if dirty {
        let mut t = "• ".to_string();
        t.append(name.as_str());
        t
    } else {
        name
    }
}

/// The window title: the open file's name before the app name, or the app
/// name alone.
pub fn window_title(path: Option<&str>) -> (r: String)
    ensures
        r@ == (match path {
            Some(p) => match fs::file_name(p@) {
                Some(n) => n + " — Mark-Hulk"@,
                None => "Mark-Hulk"@,
            },
            None => "Mark-Hulk"@,
        }),
{
    let name = match path {
        Some(p) => fs::path_file_name(p),
        None => None,
    };
    match name {
        Some(n) => {
            let mut t = n;
            t.append(" — Mark-Hulk");
            t
        },
        None => "Mark-Hulk".to_string(),
    }
}

/// The number of grid columns a table needs: the widest of its header and
/// rows.
pub open spec fn columns_of(head_len: nat, rows: Seq<nat>) -> nat
    decreases rows.len(),
{
    if rows.len() == 0 {
        head_len
    } else {
        let c = columns_of(head_len, rows.drop_last());
        if rows.last() > c {
            rows.last()
        } else {
            c
        }
    }
}

/// The number of grid columns a table needs.
pub fn table_columns(head: &Vec<String>, rows: &Vec<Vec<String>>) -> (r: usize)
    ensures
        r == columns_of(head.len() as nat, rows@.map_values(|row: Vec<String>| row.len() as nat)),
{
    let ghost lens = rows@.map_values(|row: Vec<String>| row.len() as nat);
    let mut c = head.len();
    let mut k: usize = 0;
    while k < rows.len()
        invariant
            k <= rows.len(),
            lens == rows@.map_values(|row: Vec<String>| row.len() as nat),
            c == columns_of(head.len() as nat, lens.take(k as int)),
        decreases rows.len() - k,
    {
        assert(lens.take(k + 1).drop_last() =~= lens.take(k as int));
        if rows[k].len() > c {
            c = rows[k].len();
        }
        k += 1;
    }
    assert(lens.take(rows.len() as int) =~= lens);
    c
}

/// The markup of a table cell label: a blank cell shows a space, a header
/// cell is bold.
pub open spec fn cell_markup_of(markup: Seq<char>, bold: bool) -> Seq<char> {
    if text::trim(markup).len() == 0 {
        " "@
    } else if bold {
        "<b>"@ + markup + "</b>"@
    } else {
        markup
    }
}

/// The markup of a table cell label.
pub fn cell_markup(markup: &str, bold: bool) -> (r: String)
    ensures
        r@ == cell_markup_of(markup@, bold),
{
    if text::trimmed(markup).as_str().is_empty() {
        " ".to_string()
    } else if bold {
        let mut m = "<b>".to_string();
        m.append(markup);
        m.append("</b>");
        m
    } else {
        markup.to_string()
    }
}

/// The label of an outline entry: its text, indented four spaces per level
/// below the first.
pub fn outline_label(level: u8, item_text: &str) -> (r: String)
    ensures
        r@ == text::spaces(4 * (if level > 0 {
            (level - 1) as nat
        } else {
            0nat
        })) + item_text@,
{
    let mut out = String::new();
    let depth: usize = if level > 0 {
        (level - 1) as usize
    } else {
        0
    };
    push_spaces(&mut out, 4 * depth);
    out.append(item_text);
    out
}

/// The stem of a file name, as `Path::file_stem` gives it: the name without
/// its extension.
pub open spec fn stem_of(name: Seq<char>) -> Seq<char> {
    match fs::extension(name) {
        Some(e) => name.take(name.len() - e.len() - 1),
        None => name,
    }
}

/// The title an exported document gets: the stem of its file name, or
/// "Untitled".
pub open spec fn export_title_of(path: Option<Seq<char>>) -> Seq<char> {
    match path {
        Some(p) => match fs::file_name(p) {
            Some(n) => stem_of(n),
            None => "Untitled"@,
        },
        None => "Untitled"@,
    }
}

/// The title an exported document gets.
pub fn export_title(path: Option<&str>) -> (r: String)
    ensures
        r@ == export_title_of(opt_str(path)),
{
    match path {
        Some(p) => match fs::path_file_name(p) {
            Some(n) => {
                let cs = chars_of(n.as_str());
                let mut d = cs.len();
                while d > 0 && cs[d - 1] != '.'
                    invariant
                        d <= cs.len(),
                        forall|i: int| d <= i < cs.len() ==> #[trigger] cs@[i] != '.',
                    decreases d,
                {
                    d -= 1;
                }
                proof {
                    fs::lemma_after_last_dot(cs@, d as int);
                }
                if d >= 2 {
                    string_of(&cs, 0, d - 1)
                } else {
                    n
                }
            },
            None => "Untitled".to_string(),
        },
        None => "Untitled".to_string(),
    }
}

/// Whether an edit of the buffer marks the document as having unsaved
/// changes: not while the buffer is being filled from disk, and only when it
/// is not marked already.
pub fn marks_dirty(loading: bool, dirty: bool) -> (r: bool)
    ensures
        r == (!loading && !dirty),
{
    !loading && !dirty
}

/// Whether a change on disk to the file `changed` reloads a document: only
/// when it is the document's own file and the document has no unsaved
/// changes.
pub fn reloads_on_change(changed: &str, doc_path: Option<&str>, dirty: bool) -> (r: bool)
    ensures
        r == (opt_str(doc_path) == Some(changed@) && !dirty),
{
    match doc_path {
        Some(p) => !dirty && same_text(p, changed),
        None => false,
    }
}

/// Where a file opens.
#[derive(PartialEq, Eq, Structural, Clone, Copy, Debug)]
pub enum OpenTarget {
    /// The tab at this index already shows the file: focus it.
    Focus(usize),
    /// Load the file into the current tab.
    Reuse,
    /// Open a new tab for the file.
    New,
}

/// The tab's document is the file `path`.
pub open spec fn shows_file(doc_path: Option<String>, path: Seq<char>) -> bool {
    match doc_path {
        Some(p) => p@ == path,
        None => false,
    }
}

/// No tab shows the file `path`.
pub open spec fn shown_nowhere(doc_paths: Seq<Option<String>>, path: Seq<char>) -> bool {
    forall|j: int| 0 <= j < doc_paths.len() ==> !shows_file(#[trigger] doc_paths[j], path)
}

/// The current tab is an untitled document with nothing typed in it.
pub open spec fn current_is_blank(
    doc_paths: Seq<Option<String>>,
    current: Option<usize>,
    current_chars: usize,
) -> bool {
    match current {
        Some(c) => c < doc_paths.len() && doc_paths[c as int] is None && current_chars == 0,
        None => false,
    }
}

/// Where the file `path` opens, given the files of the open tabs, the index
/// of the current tab and the number of characters in it: the first tab
/// already showing the file is focused; else the current tab is reused when
/// it is an untitled, empty document; else a new tab opens.
pub fn open_target(
    doc_paths: &Vec<Option<String>>,
    path: &str,
    current: Option<usize>,
    current_chars: usize,
) -> (r: OpenTarget)
    ensures
        match r {
            OpenTarget::Focus(i) => i < doc_paths@.len() && shows_file(doc_paths@[i as int], path@)
                && shown_nowhere(doc_paths@.take(i as int), path@),
            OpenTarget::Reuse => shown_nowhere(doc_paths@, path@) && current_is_blank(
                doc_paths@,
                current,
                current_chars,
            ),
            OpenTarget::New => shown_nowhere(doc_paths@, path@) && !current_is_blank(
                doc_paths@,
                current,
                current_chars,
            ),
        },
{
    let mut i: usize = 0;
    while i < doc_paths.len()
        invariant
            i <= doc_paths.len(),
            shown_nowhere(doc_paths@.take(i as int), path@),
        decreases doc_paths.len() - i,
    {
        let found = match &doc_paths[i] {
            Some(p) => same_text(p.as_str(), path),
            None => false,
        };
        if found {
            return OpenTarget::Focus(i);
        }
        proof {
            assert forall|j: int| 0 <= j < i + 1 implies !shows_file(
                #[trigger] doc_paths@.take(i + 1)[j],
                path@,
            ) by {
                if j < i {
                    assert(doc_paths@.take(i + 1)[j] == doc_paths@.take(i as int)[j]);
                }
            }
        }
        i += 1;
    }
    assert(doc_paths@.take(doc_paths.len() as int) =~= doc_paths@);
    let blank = match current {
        Some(c) => c < doc_paths.len() && doc_paths[c].is_none() && current_chars == 0,
        None => false,
    };
    if blank {
        OpenTarget::Reuse
    } else {
        OpenTarget::New
    }
}

/// The formats a document exports to.
#[derive(PartialEq, Eq, Structural, Clone, Copy)]
pub enum ExportKind {
    Html,
    Pdf,
}

/// The file extension of an export format.
pub fn export_extension(kind: ExportKind) -> (r: &'static str)
    ensures
        r@ == (match kind {
            ExportKind::Html => "html"@,
            ExportKind::Pdf => "pdf"@,
        }),
{
    match kind {
        ExportKind::Html => "html",
        ExportKind::Pdf => "pdf",
    }
}

/// The file name the export dialog proposes: the title and the format's
/// extension.
pub fn export_file_name(title: &str, kind: ExportKind) -> (r: String)
    ensures
        r@ == title@ + "."@ + (match kind {
            ExportKind::Html => "html"@,
            ExportKind::Pdf => "pdf"@,
        }),
{
    let mut n = title.to_string();
    n.append(".");
    n.append(export_extension(kind));
    n
}

/// The heading of a search result: the file name and line number.
pub fn hit_label(name: &str, line: usize) -> (r: String)
    ensures
        r@ == name@ + ":"@ + text::decimal(line as nat),
{
    let mut t = name.to_string();
    t.append(":");
    push_decimal(&mut t, line as u64);
    t
}

/// Whether a selection is used as the find text: it is not empty and holds
/// no line break.
pub fn seeds_find(selection: &str) -> (r: bool)
    ensures
        r == (selection@.len() > 0 && !selection@.contains('\n')),
{
    let cs = chars_of(selection);
    if cs.len() == 0 {
        return false;
    }
    let mut k: usize = 0;
    while k < cs.len()
        invariant
            k <= cs.len(),
            cs@ == selection@,
            forall|i: int| 0 <= i < k ==> cs@[i] != '\n',
        decreases cs.len() - k,
    {
        if cs[k] == '\n' {
            assert(cs@[k as int] == '\n');
            return false;
        }
        k += 1;
    }
    true
}

} // verus!
