//! Workspace files: which paths are Markdown, the workspace tree of
//! directories and Markdown files, and the search over their lines.
//!
//! Reading the disk is left to the caller: the tree is built from a snapshot
//! of directory entries, and the search runs over file contents handed in.

use vstd::prelude::*;

use crate::text;
use crate::text::{chars_of, has_prefix, string_of};

verus! {

// ---------------------------------------------------------------------------
// Paths
// ---------------------------------------------------------------------------

/// The characters after the last `/` of `p` (all of `p` when it has none).
pub open spec fn last_segment(p: Seq<char>) -> Seq<char>
    decreases p.len(),
{
    if p.len() == 0 || p.last() == '/' {
        Seq::empty()
    } else {
        last_segment(p.drop_last()).push(p.last())
    }
}

/// The final component of a path, as `Path::file_name` gives it: trailing
/// slashes and `.` components are skipped, and a final `..` has none.
pub open spec fn file_name(p: Seq<char>) -> Option<Seq<char>>
    decreases p.len(),
{
    if p.len() == 0 {
        None
    } else if p.last() == '/' {
        file_name(p.drop_last())
    } else {
        let seg = last_segment(p);
        if seg == seq!['.'] {
            file_name(p.take(p.len() - 1))
        } else if seg == seq!['.', '.'] {
            None
        } else {
            Some(seg)
        }
    }
}

/// The characters after the last `.` of `name` (all of it when it has none).
pub open spec fn after_last_dot(name: Seq<char>) -> Seq<char>
    decreases name.len(),
{
    if name.len() == 0 || name.last() == '.' {
        Seq::empty()
    } else {
        after_last_dot(name.drop_last()).push(name.last())
    }
}

/// The extension of a file name, as `Path::extension` gives it: what follows
/// the last `.`, when that `.` is not the name's first character.
pub open spec fn extension(name: Seq<char>) -> Option<Seq<char>> {
    let a = after_last_dot(name);
    if a.len() < name.len() && name.len() - a.len() - 1 > 0 {
        Some(a)
    } else {
        None
    }
}

/// The path names a Markdown file: its extension is `md`, `markdown` or
/// `mdx`.
pub open spec fn is_markdown_path(p: Seq<char>) -> bool {
    match file_name(p) {
        Some(n) => match extension(n) {
            Some(e) => e == "md"@ || e == "markdown"@ || e == "mdx"@,
            None => false,
        },
        None => false,
    }
}

/// The workspace skips dot-files, `node_modules` and `target`.
pub open spec fn is_hidden_name(name: Seq<char>) -> bool {
    (name.len() > 0 && name[0] == '.') || name == "node_modules"@ || name == "target"@
}

proof fn lemma_last_segment(p: Seq<char>, k: int)
    requires
        0 <= k <= p.len(),
        k == 0 || p[k - 1] == '/',
        forall|i: int| k <= i < p.len() ==> #[trigger] p[i] != '/',
    ensures
        last_segment(p) == p.subrange(k, p.len() as int),
    decreases p.len(),
{
    if p.len() > k {
        lemma_last_segment(p.drop_last(), k);
        assert(p.drop_last().subrange(k, p.len() - 1).push(p.last()) =~= p.subrange(k, p.len() as int));
    } else {
        assert(p.subrange(k, p.len() as int) =~= Seq::<char>::empty());
    }
}

pub proof fn lemma_after_last_dot(name: Seq<char>, k: int)
    requires
        0 <= k <= name.len(),
        k == 0 || name[k - 1] == '.',
        forall|i: int| k <= i < name.len() ==> #[trigger] name[i] != '.',
    ensures
        after_last_dot(name) == name.subrange(k, name.len() as int),
    decreases name.len(),
{
    if name.len() > k {
        lemma_after_last_dot(name.drop_last(), k);
        assert(name.drop_last().subrange(k, name.len() - 1).push(name.last()) =~= name.subrange(
            k,
            name.len() as int,
        ));
    } else {
        assert(name.subrange(k, name.len() as int) =~= Seq::<char>::empty());
    }
}

/// Whether the characters `s[from..to]` spell `lit`.
fn span_is(s: &Vec<char>, from: usize, to: usize, lit: &str) -> (r: bool)
    requires
        from <= to <= s.len(),
    ensures
        r == (s@.subrange(from as int, to as int) == lit@),
{
    let l = chars_of(lit);
    if to - from != l.len() {
        return false;
    }
    let mut k: usize = 0;
    while k < l.len()
        invariant
            k <= l.len() == to - from,
            from <= to <= s.len(),
            l@ == lit@,
            forall|i: int| 0 <= i < k ==> s@[from + i] == #[trigger] l@[i],
        decreases l.len() - k,
    {
        if s[from + k] != l[k] {
            assert(s@.subrange(from as int, to as int)[k as int] != l@[k as int]);
            return false;
        }
        k += 1;
    }
    assert(s@.subrange(from as int, to as int) =~= l@);
    true
}

/// The bounds `[start, end)` of the final component of the path `p`, as
/// [`file_name`] says, if it has one.
fn file_name_bounds(p: &Vec<char>) -> (r: Option<(usize, usize)>)
    ensures
        match r {
            Some((a, b)) => a <= b <= p.len() && file_name(p@) == Some(
                p@.subrange(a as int, b as int),
            ),
            None => file_name(p@) is None,
        },
{
    let mut end: usize = p.len();
    assert(p@.take(end as int) =~= p@);
    loop
        invariant
            end <= p.len(),
            file_name(p@) == file_name(p@.take(end as int)),
        decreases end,
    {
        if end == 0 {
            return None;
        }
        let ghost q = p@.take(end as int);
        if p[end - 1] == '/' {
            assert(q.drop_last() =~= p@.take(end - 1));
            end -= 1;
        } else {
            let mut start = end;
            while start > 0 && p[start - 1] != '/'
                invariant
                    start <= end <= p.len(),
                    forall|i: int| start <= i < end ==> #[trigger] p@[i] != '/',
                decreases start,
            {
                start -= 1;
            }
            proof {
                lemma_last_segment(q, start as int);
                assert(q.subrange(start as int, end as int) =~= p@.subrange(start as int, end as int));
            }
            let ghost seg = p@.subrange(start as int, end as int);
            proof {
                reveal_strlit(".");
                reveal_strlit("..");
                assert("."@ =~= seq!['.']);
                assert(".."@ =~= seq!['.', '.']);
                assert(q.last() == p@[end - 1]);
                assert(last_segment(q) == seg);
            }
            if span_is(p, start, end, ".") {
                proof {
                    assert(q.take(q.len() - 1) =~= p@.take(start as int));
                }
                end = start;
            } else if span_is(p, start, end, "..") {
                return None;
            } else {
                return Some((start, end));
            }
        }
    }
}

/// The final component of `path`, if it has one (`Path::file_name`).
pub fn path_file_name(path: &str) -> (r: Option<String>)
    ensures
        match r {
            Some(n) => file_name(path@) == Some(n@),
            None => file_name(path@) is None,
        },
{
    let p = chars_of(path);
    match file_name_bounds(&p) {
        Some((a, b)) => Some(string_of(&p, a, b)),
        None => None,
    }
}

/// Whether `path` names a Markdown file (`.md`, `.markdown` or `.mdx`).
pub fn is_markdown(path: &str) -> (r: bool)
    ensures
        r == is_markdown_path(path@),
{
    let p = chars_of(path);
    match file_name_bounds(&p) {
        None => false,
        Some((a, b)) => {
            let ghost name = p@.subrange(a as int, b as int);
            let mut d = b;
            while d > a && p[d - 1] != '.'
                invariant
                    a <= d <= b <= p.len(),
                    forall|i: int| d <= i < b ==> #[trigger] p@[i] != '.',
                decreases d,
            {
                d -= 1;
            }
            proof {
                lemma_after_last_dot(name, d - a);
                assert(name.subrange(d - a, name.len() as int) =~= p@.subrange(d as int, b as int));
            }
            if d - a <= 1 {
                false
            } else {
                proof {
                    reveal_strlit("md");
                    reveal_strlit("markdown");
                    reveal_strlit("mdx");
                }
                span_is(&p, d, b, "md") || span_is(&p, d, b, "markdown") || span_is(&p, d, b, "mdx")
            }
        },
    }
}

/// Whether the path's file name has an extension, as `Path::extension`
/// tells it.
pub fn has_extension(path: &str) -> (r: bool)
    ensures
        r == (match file_name(path@) {
            Some(n) => extension(n) is Some,
            None => false,
        }),
{
    let p = chars_of(path);
    match file_name_bounds(&p) {
        None => false,
        Some((a, b)) => {
            let ghost name = p@.subrange(a as int, b as int);
            let mut d = b;
            while d > a && p[d - 1] != '.'
                invariant
                    a <= d <= b <= p.len(),
                    forall|i: int| d <= i < b ==> #[trigger] p@[i] != '.',
                decreases d,
            {
                d -= 1;
            }
            proof {
                lemma_after_last_dot(name, d - a);
                assert(name.subrange(d - a, name.len() as int) =~= p@.subrange(d as int, b as int));
            }
            d - a > 1
        },
    }
}

/// Whether the workspace search skips an entry met `depth` levels below its
/// root: a hidden entry below the root is skipped with everything under it;
/// the root itself is always searched.
pub fn walk_skips(depth: usize, name: &str) -> (r: bool)
    ensures
        r == (depth > 0 && is_hidden_name(name@)),
{
    depth > 0 && is_hidden(name)
}

/// A launch argument and whether it names an existing file.
pub struct LaunchArg {
    pub arg: String,
    pub is_file: bool,
}

/// The argument is an existing Markdown file.
pub open spec fn launches(a: LaunchArg) -> bool {
    a.is_file && is_markdown_path(a.arg@)
}

/// The file the app was launched with: the first of the arguments (those
/// after the program's name) that is an existing Markdown file.
pub fn launch_file_from_args(args: &Vec<LaunchArg>) -> (r: Option<String>)
    ensures
        match r {
            Some(s) => exists|i: int|
                0 <= i < args@.len() && launches(#[trigger] args@[i]) && s@ == args@[i].arg@
                    && forall|j: int| 0 <= j < i ==> !launches(#[trigger] args@[j]),
            None => forall|j: int| 0 <= j < args@.len() ==> !launches(#[trigger] args@[j]),
        },
{
    let mut i: usize = 0;
    while i < args.len()
        invariant
            i <= args.len(),
            forall|j: int| 0 <= j < i ==> !launches(#[trigger] args@[j]),
        decreases args.len() - i,
    {
        if args[i].is_file && is_markdown(args[i].arg.as_str()) {
            let s = args[i].arg.clone();
            assert(launches(args@[i as int]));
            return Some(s);
        }
        i += 1;
    }
    None
}

/// Whether a directory entry is skipped by the workspace: dot-files,
/// `node_modules` and `target`.
pub fn is_hidden(name: &str) -> (r: bool)
    ensures
        r == is_hidden_name(name@),
{
    let n = chars_of(name);
    assert(n@.subrange(0, n@.len() as int) =~= n@);
    (n.len() > 0 && n[0] == '.') || span_is(&n, 0, n.len(), "node_modules") || span_is(
        &n,
        0,
        n.len(),
        "target",
    )
}

// ---------------------------------------------------------------------------
// The workspace tree
// ---------------------------------------------------------------------------

/// A snapshot of a directory entry as read from disk: its name, its path,
/// whether it is a directory and, for a directory, its entries in the order
/// they were read.
pub struct DirEntry {
    pub name: String,
    pub path: String,
    pub is_dir: bool,
    pub children: Vec<DirEntry>,
}

/// A node in the workspace file tree (directories and Markdown files only).
pub struct TreeNode {
    pub name: String,
    pub path: String,
    pub is_dir: bool,
    pub children: Vec<TreeNode>,
}

/// The mathematical value of a [`DirEntry`].
pub struct EntryView {
    pub name: Seq<char>,
    pub path: Seq<char>,
    pub is_dir: bool,
    pub children: Seq<EntryView>,
}

/// The mathematical value of a [`TreeNode`].
pub struct TreeView {
    pub name: Seq<char>,
    pub path: Seq<char>,
    pub is_dir: bool,
    pub children: Seq<TreeView>,
}

/// The value of a directory entry.
pub open spec fn entry_view(e: DirEntry) -> EntryView
    decreases e,
{
    EntryView {
        name: e.name@,
        path: e.path@,
        is_dir: e.is_dir,
        children: entries_view(e.children@),
    }
}

/// The values of directory entries.
pub open spec fn entries_view(es: Seq<DirEntry>) -> Seq<EntryView>
    decreases es,
{
    if es.len() == 0 {
        Seq::empty()
    } else {
        entries_view(es.subrange(0, es.len() - 1)).push(entry_view(es[es.len() - 1]))
    }
}

/// The value of a tree node.
pub open spec fn tree_view(t: TreeNode) -> TreeView
    decreases t,
{
    TreeView { name: t.name@, path: t.path@, is_dir: t.is_dir, children: trees_view(t.children@) }
}

/// The values of tree nodes.
pub open spec fn trees_view(ts: Seq<TreeNode>) -> Seq<TreeView>
    decreases ts,
{
    if ts.len() == 0 {
        Seq::empty()
    } else {
        trees_view(ts.subrange(0, ts.len() - 1)).push(tree_view(ts[ts.len() - 1]))
    }
}

/// The order of the tree: directories before files, then by lower-cased name.
pub open spec fn sort_key_le(a: TreeView, b: TreeView) -> bool {
    ||| (a.is_dir && !b.is_dir)
    ||| (a.is_dir == b.is_dir && text::lex_le(text::lowercase(a.name), text::lowercase(b.name)))
}

/// `x` placed after every node of `s` that does not sort after it.
pub open spec fn insert_sorted(s: Seq<TreeView>, x: TreeView) -> Seq<TreeView>
    decreases s.len(),
{
    if s.len() == 0 || sort_key_le(s.last(), x) {
        s.push(x)
    } else {
        insert_sorted(s.drop_last(), x).push(s.last())
    }
}

/// `s` stably sorted by [`sort_key_le`].
pub open spec fn sort_nodes(s: Seq<TreeView>) -> Seq<TreeView>
    decreases s.len(),
{
    if s.len() == 0 {
        Seq::empty()
    } else {
        insert_sorted(sort_nodes(s.drop_last()), s.last())
    }
}

/// The tree of an entry: a directory lists, sorted, the Markdown files and
/// the non-empty directories among its entries, skipping hidden ones; any
/// other entry is a leaf.
pub open spec fn built(e: EntryView) -> TreeView
    decreases e,
{
    if e.is_dir {
        TreeView { name: e.name, path: e.path, is_dir: true, children: sort_nodes(kept(e.children)) }
    } else {
        TreeView { name: e.name, path: e.path, is_dir: false, children: Seq::empty() }
    }
}

/// The trees kept from a run of directory entries, in read order.
pub open spec fn kept(es: Seq<EntryView>) -> Seq<TreeView>
    decreases es,
{
    if es.len() == 0 {
        Seq::empty()
    } else {
        let rest = kept(es.subrange(0, es.len() - 1));
        let x = es[es.len() - 1];
        if is_hidden_name(x.name) {
            rest
        } else if x.is_dir {
            let t = built(x);
            if t.children.len() > 0 {
                rest.push(t)
            } else {
                rest
            }
        } else if is_markdown_path(x.path) {
            rest.push(TreeView { name: x.name, path: x.path, is_dir: false, children: Seq::empty() })
        } else {
            rest
        }
    }
}

proof fn lemma_trees_view(s: Seq<TreeNode>)
    ensures
        trees_view(s).len() == s.len(),
        forall|i: int| 0 <= i < s.len() ==> #[trigger] trees_view(s)[i] == tree_view(s[i]),
    decreases s.len(),
{
    if s.len() > 0 {
        lemma_trees_view(s.subrange(0, s.len() - 1));
    }
}

proof fn lemma_entries_view(s: Seq<DirEntry>)
    ensures
        entries_view(s).len() == s.len(),
        forall|i: int| 0 <= i < s.len() ==> #[trigger] entries_view(s)[i] == entry_view(s[i]),
    decreases s.len(),
{
    if s.len() > 0 {
        lemma_entries_view(s.subrange(0, s.len() - 1));
    }
}

proof fn lemma_insert_at(s: Seq<TreeView>, x: TreeView, j: int)
    requires
        0 <= j <= s.len(),
        j == 0 || sort_key_le(s[j - 1], x),
        forall|i: int| j <= i < s.len() ==> !sort_key_le(#[trigger] s[i], x),
    ensures
        insert_sorted(s, x) == s.insert(j, x),
    decreases s.len(),
{
    if j == s.len() {
        assert(s.push(x) =~= s.insert(j, x));
    } else {
        assert(!sort_key_le(s.last(), x));
        lemma_insert_at(s.drop_last(), x, j);
        assert(s.drop_last().insert(j, x).push(s.last()) =~= s.insert(j, x));
    }
}

/// Whether `(dir_a, low_a)` sorts no later than `(dir_b, low_b)`.
fn key_le(dir_a: bool, low_a: &Vec<char>, dir_b: bool, low_b: &Vec<char>) -> (r: bool)
    ensures
        r == ((dir_a && !dir_b) || (dir_a == dir_b && text::lex_le(low_a@, low_b@))),
{
    (dir_a && !dir_b) || (dir_a == dir_b && text::lex_le_chars(low_a, low_b))
}

/// Sorts tree nodes stably: directories first, then by lower-cased name.
pub fn sort_tree_nodes(nodes: Vec<TreeNode>) -> (r: Vec<TreeNode>)
    ensures
        trees_view(r@) == sort_nodes(trees_view(nodes@)),
{
    let ghost nv = trees_view(nodes@);
    proof {
        lemma_trees_view(nodes@);
    }
    let mut out: Vec<TreeNode> = Vec::new();
    let mut dirs: Vec<bool> = Vec::new();
    let mut lows: Vec<Vec<char>> = Vec::new();
    for node in iter: nodes
        invariant
            nv == trees_view(iter.seq()),
            nv.len() == iter.seq().len(),
            forall|i: int| 0 <= i < iter.seq().len() ==> #[trigger] nv[i] == tree_view(iter.seq()[i]),
            trees_view(out@) == sort_nodes(nv.take(iter.index() as int)),
            dirs@.len() == out@.len(),
            lows@.len() == out@.len(),
            forall|i: int|
                0 <= i < out@.len() ==> dirs@[i] == (#[trigger] out@[i]).is_dir && lows@[i]@
                    == text::lowercase(out@[i].name@),
    {
        let ghost i = iter.index();
        let ghost s = trees_view(out@);
        let ghost x = tree_view(node);
        proof {
            lemma_trees_view(out@);
            assert(nv[i] == x);
        }
        let low = text::chars_of(text::to_lowercase(node.name.as_str()).as_str());
        let d = node.is_dir;
        let mut j = out.len();
        while j > 0 && !key_le(dirs[j - 1], &lows[j - 1], d, &low)
            invariant
                j <= out@.len(),
                s == trees_view(out@),
                s.len() == out@.len(),
                forall|k: int| 0 <= k < out@.len() ==> #[trigger] s[k] == tree_view(out@[k]),
                dirs@.len() == out@.len(),
                lows@.len() == out@.len(),
                forall|k: int|
                    0 <= k < out@.len() ==> dirs@[k] == (#[trigger] out@[k]).is_dir && lows@[k]@
                        == text::lowercase(out@[k].name@),
                d == x.is_dir,
                low@ == text::lowercase(x.name),
                forall|k: int| j <= k < s.len() ==> !sort_key_le(#[trigger] s[k], x),
            decreases j,
        {
            proof {
                assert(s[j - 1] == tree_view(out@[j - 1]));
            }
            j -= 1;
        }
        proof {
            if j > 0 {
                assert(s[j - 1] == tree_view(out@[j - 1]));
            }
            lemma_insert_at(s, x, j as int);
        }
        let ghost po = out@;
        let ghost pd = dirs@;
        let ghost pl = lows@;
        out.insert(j, node);
        dirs.insert(j, d);
        lows.insert(j, low);
        proof {
            lemma_trees_view(out@);
            assert(trees_view(out@) =~= s.insert(j as int, x));
            assert(nv.take(i + 1).drop_last() =~= nv.take(i));
            assert(nv.take(i + 1).last() == x);
            assert forall|k: int| 0 <= k < out@.len() implies dirs@[k] == (#[trigger] out@[k]).is_dir
                && lows@[k]@ == text::lowercase(out@[k].name@) by {
                if k < j {
                    assert(out@[k] == po[k] && dirs@[k] == pd[k] && lows@[k] == pl[k]);
                } else if k > j {
                    assert(out@[k] == po[k - 1] && dirs@[k] == pd[k - 1] && lows@[k] == pl[k - 1]);
                }
            }
        }
    }
    assert(nv.take(nv.len() as int) =~= nv);
    out
}

/// Builds the tree of directories and Markdown files under `entry`: hidden
/// entries are skipped, directories with nothing to show are pruned, and
/// each directory's children are sorted directories first, then by
/// lower-cased name.
pub fn build_tree(entry: &DirEntry) -> (r: TreeNode)
    ensures
        tree_view(r) == built(entry_view(*entry)),
    decreases entry,
{
    if !entry.is_dir {
        let r = TreeNode {
            name: entry.name.clone(),
            path: entry.path.clone(),
            is_dir: false,
            children: Vec::new(),
        };
        assert(trees_view(r.children@) =~= Seq::<TreeView>::empty());
        return r;
    }
    let ghost ev = entries_view(entry.children@);
    proof {
        lemma_entries_view(entry.children@);
    }
    let mut keep: Vec<TreeNode> = Vec::new();
    let n = entry.children.len();
    let mut k: usize = 0;
    while k < n
        invariant
            k <= n == entry.children@.len(),
            ev == entries_view(entry.children@),
            ev.len() == n,
            forall|i: int| 0 <= i < n ==> #[trigger] ev[i] == entry_view(entry.children@[i]),
            trees_view(keep@) == kept(ev.take(k as int)),
        decreases n - k,
    {
        let c = &entry.children[k];
        let ghost x = ev[k as int];
        let ghost before = trees_view(keep@);
        let ghost old_keep = keep@;
        proof {
            assert(x == entry_view(*c));
            assert(ev.take(k + 1).subrange(0, k as int) =~= ev.take(k as int));
            assert(ev.take(k + 1)[k as int] == x);
        }
        if is_hidden(c.name.as_str()) {
        } else if c.is_dir {
            proof {
                assert(decreases_to!(entry => entry.children));
                assert(decreases_to!(entry.children => entry.children@));
                assert(decreases_to!(entry.children@ => entry.children@[k as int]));
            }
            let t = build_tree(c);
            if t.children.len() > 0 {
                proof {
                    lemma_trees_view(t.children@);
                }
                keep.push(t);
                proof {
                    assert(keep@.subrange(0, keep@.len() - 1) =~= old_keep);
                    assert(trees_view(keep@) =~= before.push(tree_view(t)));
                }
            } else {
                proof {
                    lemma_trees_view(t.children@);
                }
            }
        } else if is_markdown(c.path.as_str()) {
            let t = TreeNode {
                name: c.name.clone(),
                path: c.path.clone(),
                is_dir: false,
                children: Vec::new(),
            };
            keep.push(t);
            proof {
                assert(trees_view(t.children@) =~= Seq::<TreeView>::empty());
                assert(keep@.subrange(0, keep@.len() - 1) =~= old_keep);
                assert(trees_view(keep@) =~= before.push(tree_view(t)));
            }
        }
        k += 1;
    }
    assert(ev.take(n as int) =~= ev);
    let children = sort_tree_nodes(keep);
    TreeNode { name: entry.name.clone(), path: entry.path.clone(), is_dir: true, children }
}

// ---------------------------------------------------------------------------
// Laws of the tree
// ---------------------------------------------------------------------------

/// The nodes are in tree order.
pub open spec fn nodes_sorted(s: Seq<TreeView>) -> bool {
    forall|i: int, j: int| 0 <= i < j < s.len() ==> sort_key_le(#[trigger] s[i], #[trigger] s[j])
}

proof fn lemma_key_total(a: TreeView, b: TreeView)
    ensures
        sort_key_le(a, b) || sort_key_le(b, a),
{
    text::lemma_lex_total(text::lowercase(a.name), text::lowercase(b.name));
}

proof fn lemma_key_trans(a: TreeView, b: TreeView, c: TreeView)
    requires
        sort_key_le(a, b),
        sort_key_le(b, c),
    ensures
        sort_key_le(a, c),
{
    if a.is_dir == b.is_dir && b.is_dir == c.is_dir {
        text::lemma_lex_trans(
            text::lowercase(a.name),
            text::lowercase(b.name),
            text::lowercase(c.name),
        );
    }
}

proof fn lemma_insert_sorted(s: Seq<TreeView>, x: TreeView)
    requires
        nodes_sorted(s),
    ensures
        nodes_sorted(insert_sorted(s, x)),
        insert_sorted(s, x).len() == s.len() + 1,
        forall|y: TreeView| #[trigger] insert_sorted(s, x).contains(y) ==> y == x || s.contains(y),
    decreases s.len(),
{
    if s.len() == 0 || sort_key_le(s.last(), x) {
        let r = s.push(x);
        assert forall|i: int, j: int| 0 <= i < j < r.len() implies sort_key_le(
            #[trigger] r[i],
            #[trigger] r[j],
        ) by {
            if j == s.len() && i < s.len() - 1 {
                lemma_key_trans(s[i], s.last(), x);
            }
        }
        assert forall|y: TreeView| #[trigger] r.contains(y) implies y == x || s.contains(y) by {
            let k = choose|k: int| 0 <= k < r.len() && r[k] == y;
            if k < s.len() {
                assert(s[k] == y);
            }
        }
    } else {
        let p = s.drop_last();
        lemma_insert_sorted(p, x);
        let q = insert_sorted(p, x);
        let r = q.push(s.last());
        lemma_key_total(s.last(), x);
        assert forall|i: int| 0 <= i < q.len() implies sort_key_le(#[trigger] q[i], s.last()) by {
            assert(q.contains(q[i]));
            if q[i] != x {
                let k = choose|k: int| 0 <= k < p.len() && p[k] == q[i];
                assert(s[k] == p[k]);
            }
        }
        assert forall|i: int, j: int| 0 <= i < j < r.len() implies sort_key_le(
            #[trigger] r[i],
            #[trigger] r[j],
        ) by {
            if j == q.len() {
                assert(r[i] == q[i]);
            } else {
                assert(r[i] == q[i] && r[j] == q[j]);
            }
        }
        assert forall|y: TreeView| #[trigger] r.contains(y) implies y == x || s.contains(y) by {
            let k = choose|k: int| 0 <= k < r.len() && r[k] == y;
            if k == q.len() {
                assert(s[s.len() - 1] == y);
            } else {
                assert(q.contains(q[k]));
                if y != x {
                    let m = choose|m: int| 0 <= m < p.len() && p[m] == y;
                    assert(s[m] == y);
                }
            }
        }
    }
}

proof fn lemma_sort_nodes(s: Seq<TreeView>)
    ensures
        nodes_sorted(sort_nodes(s)),
        sort_nodes(s).len() == s.len(),
        forall|y: TreeView| #[trigger] sort_nodes(s).contains(y) ==> s.contains(y),
    decreases s.len(),
{
    if s.len() > 0 {
        let p = s.drop_last();
        lemma_sort_nodes(p);
        lemma_insert_sorted(sort_nodes(p), s.last());
        assert forall|y: TreeView| #[trigger] sort_nodes(s).contains(y) implies s.contains(y) by {
            if y != s.last() {
                assert(sort_nodes(p).contains(y));
                let m = choose|m: int| 0 <= m < p.len() && p[m] == y;
                assert(s[m] == y);
            } else {
                assert(s[s.len() - 1] == y);
            }
        }
    }
}

/// A child the tree shows is not hidden, and is a Markdown file or a
/// directory with something to show.
pub open spec fn shown(t: TreeView) -> bool {
    &&& !is_hidden_name(t.name)
    &&& if t.is_dir {
        t.children.len() > 0
    } else {
        is_markdown_path(t.path)
    }
}

proof fn lemma_kept_shown(es: Seq<EntryView>)
    ensures
        forall|y: TreeView| #[trigger] kept(es).contains(y) ==> shown(y),
    decreases es.len(),
{
    if es.len() > 0 {
        let p = es.subrange(0, es.len() - 1);
        lemma_kept_shown(p);
        let rest = kept(p);
        assert forall|y: TreeView| #[trigger] kept(es).contains(y) implies shown(y) by {
            let k = choose|k: int| 0 <= k < kept(es).len() && kept(es)[k] == y;
            let x = es[es.len() - 1];
            if k < rest.len() {
                assert(kept(es)[k] == rest[k]);
                assert(rest.contains(y));
            } else {
                assert(!is_hidden_name(x.name));
                if x.is_dir {
                    assert(y == built(x));
                } else {
                    assert(y == TreeView { name: x.name, path: x.path, is_dir: false, children: Seq::empty() });
                }
            }
        }
    }
}

/// Each directory of the workspace tree lists its children directories
/// first, then files, each group ordered by lower-cased name.
pub proof fn law_tree_children_sorted(e: EntryView)
    ensures
        nodes_sorted(built(e).children),
{
    if e.is_dir {
        lemma_sort_nodes(kept(e.children));
    }
}

/// The workspace tree shows only Markdown files and directories that
/// contain something to show; hidden entries never appear.
pub proof fn law_tree_shows_only_markdown(e: EntryView)
    ensures
        forall|i: int| 0 <= i < built(e).children.len() ==> shown(#[trigger] built(e).children[i]),
{
    if e.is_dir {
        lemma_sort_nodes(kept(e.children));
        lemma_kept_shown(e.children);
        assert forall|i: int| 0 <= i < built(e).children.len() implies shown(
            #[trigger] built(e).children[i],
        ) by {
            assert(sort_nodes(kept(e.children)).contains(built(e).children[i]));
        }
    }
}

// ---------------------------------------------------------------------------
// Search
// ---------------------------------------------------------------------------

/// The most hits a workspace search reports.
pub const MAX_HITS: usize = 500;

/// The most characters of a matched line a hit keeps.
pub const HIT_TEXT_CHARS: usize = 200;

/// A line without one trailing carriage return.
pub open spec fn strip_cr(l: Seq<char>) -> Seq<char> {
    if l.len() > 0 && l.last() == '\r' {
        l.drop_last()
    } else {
        l
    }
}

/// Lines split so far, and the line being read.
pub struct LineSplit {
    pub done: Seq<Seq<char>>,
    pub cur: Seq<char>,
}

/// The split after reading `s`.
pub open spec fn split_prefix(s: Seq<char>) -> LineSplit
    decreases s.len(),
{
    if s.len() == 0 {
        LineSplit { done: Seq::empty(), cur: Seq::empty() }
    } else {
        let st = split_prefix(s.drop_last());
        if s.last() == '\n' {
            LineSplit { done: st.done.push(strip_cr(st.cur)), cur: Seq::empty() }
        } else {
            LineSplit { done: st.done, cur: st.cur.push(s.last()) }
        }
    }
}

/// The lines of `s`, as `str::lines` gives them: split at each `\n`, a `\r`
/// before it dropped, and no empty line after a final `\n`.
pub open spec fn lines_of(s: Seq<char>) -> Seq<Seq<char>> {
    let st = split_prefix(s);
    if st.cur.len() > 0 {
        st.done.push(st.cur)
    } else {
        st.done
    }
}

/// `needle` occurs in `hay`.
pub open spec fn contains_seq(hay: Seq<char>, needle: Seq<char>) -> bool {
    exists|i: int|
        0 <= i && i + needle.len() <= hay.len() && #[trigger] hay.subrange(i, i + needle.len())
            == needle
}

/// At most the first `n` characters of `s`.
pub open spec fn first_chars(s: Seq<char>, n: nat) -> Seq<char> {
    if s.len() <= n {
        s
    } else {
        s.take(n as int)
    }
}

/// A single matched line from a workspace search.
pub struct SearchHit {
    pub path: String,
    pub name: String,
    pub line: usize,
    pub text: String,
}

/// The mathematical value of a [`SearchHit`].
pub struct HitView {
    pub path: Seq<char>,
    pub name: Seq<char>,
    pub line: usize,
    pub text: Seq<char>,
}

impl View for SearchHit {
    type V = HitView;

    open spec fn view(&self) -> HitView {
        HitView { path: self.path@, name: self.name@, line: self.line, text: self.text@ }
    }
}

/// The views of hits.
pub open spec fn hits_view(h: Seq<SearchHit>) -> Seq<HitView> {
    h.map_values(|x: SearchHit| x@)
}

/// The name a hit shows for its file.
pub open spec fn hit_name(path: Seq<char>) -> Seq<char> {
    match file_name(path) {
        Some(n) => n,
        None => Seq::empty(),
    }
}

/// The search query as matched: trimmed and lower-cased.
pub open spec fn normalized_query(query: Seq<char>) -> Seq<char> {
    text::lowercase(text::trim(query))
}

/// A line matches when its lower-cased text contains the query.
pub open spec fn line_matches(line: Seq<char>, q: Seq<char>) -> bool {
    contains_seq(text::lowercase(line), q)
}

/// The hits among `lines` of the file at `path`, in order: each matching
/// line with its 1-based number and its trimmed text, cut to
/// [`HIT_TEXT_CHARS`] characters.
pub open spec fn hits_in(lines: Seq<Seq<char>>, q: Seq<char>, path: Seq<char>) -> Seq<HitView>
    decreases lines.len(),
{
    if lines.len() == 0 {
        Seq::empty()
    } else {
        let rest = hits_in(lines.drop_last(), q, path);
        if line_matches(lines.last(), q) {
            rest.push(
                HitView {
                    path,
                    name: hit_name(path),
                    line: lines.len() as usize,
                    text: first_chars(text::trim(lines.last()), HIT_TEXT_CHARS as nat),
                },
            )
        } else {
            rest
        }
    }
}

/// Hits beyond [`MAX_HITS`] are dropped.
pub open spec fn capped(h: Seq<HitView>) -> Seq<HitView> {
    if h.len() > MAX_HITS {
        h.take(MAX_HITS as int)
    } else {
        h
    }
}

/// The lines of `s`.
pub fn split_lines(s: &str) -> (r: Vec<String>)
    ensures
        r.deep_view() == lines_of(s@),
{
    let cs = chars_of(s);
    let n = cs.len();
    let mut done: Vec<String> = Vec::new();
    let mut start: usize = 0;
    let mut k: usize = 0;
    while k < n
        invariant
            start <= k <= n == cs.len(),
            cs@ == s@,
            done.deep_view() == split_prefix(cs@.take(k as int)).done,
            cs@.subrange(start as int, k as int) == split_prefix(cs@.take(k as int)).cur,
        decreases n - k,
    {
        let ghost pre = split_prefix(cs@.take(k as int));
        assert(cs@.take(k + 1).drop_last() =~= cs@.take(k as int));
        assert(cs@.take(k + 1).last() == cs@[k as int]);
        if cs[k] == '\n' {
            let end = if k > start && cs[k - 1] == '\r' {
                k - 1
            } else {
                k
            };
            let line = string_of(&cs, start, end);
            proof {
                let cur = cs@.subrange(start as int, k as int);
                if k > start && cs@[k - 1] == '\r' {
                    assert(cur.last() == '\r');
                    assert(cur.drop_last() =~= cs@.subrange(start as int, end as int));
                }
                assert(line@ == strip_cr(cur));
            }
            done.push(line);
            assert(done.deep_view() =~= pre.done.push(strip_cr(pre.cur)));
            start = k + 1;
            assert(cs@.subrange(start as int, k + 1) =~= Seq::<char>::empty());
        } else {
            assert(cs@.subrange(start as int, k + 1) =~= pre.cur.push(cs@[k as int]));
        }
        k += 1;
    }
    assert(cs@.take(n as int) =~= cs@);
    if start < n {
        let line = string_of(&cs, start, n);
        done.push(line);
        assert(done.deep_view() =~= lines_of(s@));
    }
    done
}

/// Whether `needle` occurs in `hay`.
pub fn contains_chars(hay: &Vec<char>, needle: &Vec<char>) -> (r: bool)
    ensures
        r == contains_seq(hay@, needle@),
{
    if needle.len() > hay.len() {
        return false;
    }
    let last = hay.len() - needle.len();
    let mut i: usize = 0;
    while i <= last
        invariant
            last == hay.len() - needle.len(),
            needle.len() <= hay.len(),
            i <= last + 1,
            forall|j: int| 0 <= j < i ==> #[trigger] hay@.subrange(j, j + needle.len()) != needle@,
        decreases last + 1 - i,
    {
        let mut k: usize = 0;
        while k < needle.len() && hay[i + k] == needle[k]
            invariant
                i <= last,
                last == hay.len() - needle.len(),
                k <= needle.len(),
                forall|m: int| 0 <= m < k ==> hay@[i + m] == needle@[m],
            decreases needle.len() - k,
        {
            k += 1;
        }
        if k == needle.len() {
            assert(hay@.subrange(i as int, i + needle.len()) =~= needle@);
            return true;
        }
        assert(hay@.subrange(i as int, i + needle.len())[k as int] != needle@[k as int]);
        i += 1;
    }
    false
}

/// The search query as matched: trimmed and lower-cased.
pub fn normalize_query(query: &str) -> (r: String)
    ensures
        r@ == normalized_query(query@),
{
    text::to_lowercase(text::trimmed(query).as_str())
}

/// The query a workspace search matches with: the trimmed, lower-cased
/// query, or `None` when the query is blank and the search finds nothing.
pub fn search_query(query: &str) -> (r: Option<String>)
    ensures
        match r {
            Some(q) => q@ == normalized_query(query@) && q@.len() > 0,
            None => text::trim(query@).len() == 0,
        },
        r is None <==> text::trim(query@).len() == 0,
{
    let t = text::trimmed(query);
    if t.as_str().is_empty() {
        None
    } else {
        Some(text::to_lowercase(t.as_str()))
    }
}

/// Appends to `hits` the hits in the file at `path` with contents
/// `content` for the normalized query `q`, stopping once [`MAX_HITS`] hits
/// are reached; returns whether they are.
pub fn search_text(hits: &mut Vec<SearchHit>, path: &str, content: &str, q: &str) -> (full: bool)
    requires
        old(hits)@.len() < MAX_HITS,
    ensures
        hits_view(final(hits)@) == capped(hits_view(old(hits)@) + hits_in(lines_of(content@), q@, path@)),
        full == (final(hits)@.len() >= MAX_HITS),
{
    let lines = split_lines(content);
    let ghost lv = lines.deep_view();
    let ghost h0 = hits_view(hits@);
    let qc = chars_of(q);
    let name = match path_file_name(path) {
        Some(n) => n,
        None => String::new(),
    };
    let n = lines.len();
    let mut i: usize = 0;
    while i < n
        invariant
            i <= n == lines@.len(),
            lv == lines.deep_view(),
            lv == lines_of(content@),
            qc@ == q@,
            name@ == hit_name(path@),
            h0 == hits_view(old(hits)@),
            h0.len() < MAX_HITS,
            hits_view(hits@) == h0 + hits_in(lv.take(i as int), q@, path@),
            hits@.len() < MAX_HITS,
        decreases n - i,
    {
        let ghost before = hits_view(hits@);
        let line = &lines[i];
        assert(lv.take(i + 1).drop_last() =~= lv.take(i as int));
        assert(lv.take(i + 1).last() == line@);
        let low = chars_of(text::to_lowercase(line.as_str()).as_str());
        if contains_chars(&low, &qc) {
            let t = chars_of(text::trimmed(line.as_str()).as_str());
            let cut = if t.len() <= HIT_TEXT_CHARS {
                t.len()
            } else {
                HIT_TEXT_CHARS
            };
            let text = string_of(&t, 0, cut);
            assert(text@ =~= first_chars(text::trim(line@), HIT_TEXT_CHARS as nat));
            hits.push(SearchHit { path: path.to_string(), name: name.clone(), line: i + 1, text });
            assert(hits_view(hits@) =~= before.push(hits_view(hits@).last()));
            assert(hits_view(hits@) =~= h0 + hits_in(lv.take(i + 1), q@, path@));
            if hits.len() >= MAX_HITS {
                proof {
                    lemma_hits_in_prefix(lv, q@, path@, i + 1);
                    let all = h0 + hits_in(lv, q@, path@);
                    let cur = h0 + hits_in(lv.take(i + 1), q@, path@);
                    assert(cur.len() == MAX_HITS);
                    assert(all.take(MAX_HITS as int) =~= cur);
                }
                return true;
            }
        }
        i += 1;
    }
    assert(lv.take(n as int) =~= lv);
    false
}

proof fn lemma_hits_in_prefix(lines: Seq<Seq<char>>, q: Seq<char>, path: Seq<char>, k: int)
    requires
        0 <= k <= lines.len(),
    ensures
        hits_in(lines, q, path).len() >= hits_in(lines.take(k), q, path).len(),
        hits_in(lines, q, path).take(hits_in(lines.take(k), q, path).len() as int) == hits_in(
            lines.take(k),
            q,
            path,
        ),
    decreases lines.len(),
{
    if k == lines.len() {
        assert(lines.take(k) =~= lines);
        assert(hits_in(lines, q, path).take(hits_in(lines, q, path).len() as int) =~= hits_in(
            lines,
            q,
            path,
        ));
    } else {
        lemma_hits_in_prefix(lines.drop_last(), q, path, k);
        assert(lines.drop_last().take(k) =~= lines.take(k));
        let a = hits_in(lines.drop_last(), q, path);
        let b = hits_in(lines.take(k), q, path);
        assert(hits_in(lines, q, path).take(b.len() as int) =~= a.take(b.len() as int));
    }
}

/// Every hit names a line of the file, 1-based, whose lower-cased text
/// contains the query, and shows at most [`HIT_TEXT_CHARS`] characters.
pub proof fn law_hits_match_their_line(lines: Seq<Seq<char>>, q: Seq<char>, path: Seq<char>)
    requires
        lines.len() <= usize::MAX,
    ensures
        forall|k: int|
            0 <= k < hits_in(lines, q, path).len() ==> {
                let h = #[trigger] hits_in(lines, q, path)[k];
                &&& 1 <= h.line <= lines.len()
                &&& line_matches(lines[h.line - 1], q)
                &&& h.path == path
                &&& h.text.len() <= HIT_TEXT_CHARS
            },
    decreases lines.len(),
{
    if lines.len() > 0 {
        law_hits_match_their_line(lines.drop_last(), q, path);
        let rest = hits_in(lines.drop_last(), q, path);
        assert forall|k: int| 0 <= k < hits_in(lines, q, path).len() implies {
            let h = #[trigger] hits_in(lines, q, path)[k];
            &&& 1 <= h.line <= lines.len()
            &&& line_matches(lines[h.line - 1], q)
            &&& h.path == path
            &&& h.text.len() <= HIT_TEXT_CHARS
        } by {
            if k < rest.len() {
                assert(hits_in(lines, q, path)[k] == rest[k]);
                assert(lines.drop_last()[rest[k].line - 1] == lines[rest[k].line - 1]);
            } else {
                assert(line_matches(lines.last(), q));
                assert(lines.last() == lines[lines.len() - 1]);
            }
        }
    }
}

/// Completeness of the search: a line whose lower-cased text holds the
/// query at some position `at` gives a hit for that line, with the file's
/// path and name and the line's trimmed text.
pub proof fn law_matching_lines_give_hits(
    lines: Seq<Seq<char>>,
    q: Seq<char>,
    path: Seq<char>,
    k: int,
    at: int,
)
    requires
        lines.len() <= usize::MAX,
        0 <= k < lines.len(),
        0 <= at,
        at + q.len() <= text::lowercase(lines[k]).len(),
        text::lowercase(lines[k]).subrange(at, at + q.len()) == q,
    ensures
        exists|j: int|
            0 <= j < hits_in(lines, q, path).len() && #[trigger] hits_in(lines, q, path)[j] == (HitView {
                path,
                name: hit_name(path),
                line: (k + 1) as usize,
                text: first_chars(text::trim(lines[k]), HIT_TEXT_CHARS as nat),
            }),
    decreases lines.len(),
{
    let rest = hits_in(lines.drop_last(), q, path);
    let h = HitView {
        path,
        name: hit_name(path),
        line: (k + 1) as usize,
        text: first_chars(text::trim(lines[k]), HIT_TEXT_CHARS as nat),
    };
    if k == lines.len() - 1 {
        let hay = text::lowercase(lines[k]);
        assert(hay.subrange(at, at + q.len()) == q);
        assert(line_matches(lines.last(), q));
        assert(hits_in(lines, q, path)[rest.len() as int] == h);
    } else {
        assert(lines.drop_last()[k] == lines[k]);
        law_matching_lines_give_hits(lines.drop_last(), q, path, k, at);
        let j = choose|j: int| 0 <= j < rest.len() && #[trigger] rest[j] == h;
        assert(hits_in(lines, q, path)[j] == rest[j]);
    }
}

} // verus!
