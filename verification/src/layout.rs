//! Pagination of the PDF export: where pages break in laid-out text.

use vstd::prelude::*;

verus! {

/// The page breaks chosen so far and where the current page starts.
pub struct Pages {
    pub breaks: Seq<i32>,
    pub start: int,
}

/// Pagination after the given lines, each the `(top, bottom)` of a laid-out
/// line: a line whose bottom lies more than `page_height` below the current
/// page's start opens a new page at its top.
pub open spec fn paginate(lines: Seq<(i32, i32)>, page_height: i32) -> Pages
    decreases lines.len(),
{
    if lines.len() == 0 {
        Pages { breaks: seq![0i32], start: 0 }
    } else {
        let p = paginate(lines.drop_last(), page_height);
        let (top, bottom) = lines.last();
        if bottom - p.start > page_height {
            Pages { breaks: p.breaks.push(top), start: top as int }
        } else {
            p
        }
    }
}

/// `y` is the top of one of the lines.
pub open spec fn is_line_top(lines: Seq<(i32, i32)>, y: i32) -> bool {
    exists|i: int| 0 <= i < lines.len() && (#[trigger] lines[i]).0 == y
}

/// Every page starts at 0 or at the top of a line, and the first at 0.
pub proof fn law_pages_start_at_line_tops(lines: Seq<(i32, i32)>, page_height: i32)
    ensures
        paginate(lines, page_height).breaks.len() >= 1,
        paginate(lines, page_height).breaks[0] == 0,
        forall|k: int|
            1 <= k < paginate(lines, page_height).breaks.len() ==> is_line_top(
                lines,
                #[trigger] paginate(lines, page_height).breaks[k],
            ),
    decreases lines.len(),
{
    if lines.len() > 0 {
        let prev = lines.drop_last();
        law_pages_start_at_line_tops(prev, page_height);
        let b = paginate(lines, page_height).breaks;
        let pb = paginate(prev, page_height).breaks;
        assert forall|k: int| 1 <= k < b.len() implies is_line_top(lines, #[trigger] b[k]) by {
            if k < pb.len() {
                assert(b[k] == pb[k]);
                assert(is_line_top(prev, pb[k]));
                let i = choose|i: int| 0 <= i < prev.len() && (#[trigger] prev[i]).0 == pb[k];
                assert(lines[i] == prev[i]);
            } else {
                assert(lines[lines.len() - 1].0 == b[k]);
            }
        }
    }
}

/// The page breaks of laid-out text: the first page starts at 0, and a new
/// page starts at the top of each line that would overflow the page before
/// it. `lines` are the `(top, bottom)` of the lines, in order.
pub fn page_breaks(lines: &Vec<(i32, i32)>, page_height: i32) -> (r: Vec<i32>)
    ensures
        r@ == paginate(lines@, page_height).breaks,
        r@.len() >= 1,
        r@[0] == 0,
{
    let mut breaks: Vec<i32> = Vec::new();
    breaks.push(0);
    let mut start: i32 = 0;
    let mut k: usize = 0;
    while k < lines.len()
        invariant
            k <= lines.len(),
            breaks@ == paginate(lines@.take(k as int), page_height).breaks,
            start as int == paginate(lines@.take(k as int), page_height).start,
        decreases lines.len() - k,
    {
        assert(lines@.take(k + 1).drop_last() =~= lines@.take(k as int));
        assert(lines@.take(k + 1).last() == lines@[k as int]);
        let (top, bottom) = lines[k];
        if (bottom as i64) - (start as i64) > page_height as i64 {
            start = top;
            breaks.push(top);
        }
        k += 1;
    }
    assert(lines@.take(lines.len() as int) =~= lines@);
    proof {
        law_pages_start_at_line_tops(lines@, page_height);
    }
    breaks
}

/// How much of the laid-out text page `k` shows: from its break down to the
/// next page's break, so that a line moved to the next page is not also cut
/// at this page's foot, but never more than `page_height` nor less than
/// nothing; the last page shows a full page.
pub open spec fn visible_height(breaks: Seq<i32>, k: int, page_height: i32) -> i32 {
    if k + 1 < breaks.len() {
        let d = breaks[k + 1] - breaks[k];
        if d < 0 {
            0
        } else if d > page_height {
            page_height
        } else {
            d as i32
        }
    } else {
        page_height
    }
}

/// The visible height of each page, given the page breaks.
pub fn visible_heights(breaks: &Vec<i32>, page_height: i32) -> (r: Vec<i32>)
    ensures
        r@.len() == breaks@.len(),
        forall|k: int| 0 <= k < r@.len() ==> #[trigger] r@[k] == visible_height(breaks@, k, page_height),
{
    let mut r: Vec<i32> = Vec::new();
    let mut k: usize = 0;
    while k < breaks.len()
        invariant
            k <= breaks.len(),
            r@.len() == k,
            forall|j: int| 0 <= j < k ==> #[trigger] r@[j] == visible_height(breaks@, j, page_height),
        decreases breaks.len() - k,
    {
        let h = if k + 1 < breaks.len() {
            let d = (breaks[k + 1] as i64) - (breaks[k] as i64);
            if d < 0 {
                0
            } else if d > page_height as i64 {
                page_height
            } else {
                d as i32
            }
        } else {
            page_height
        };
        r.push(h);
        k += 1;
    }
    r
}

} // verus!
