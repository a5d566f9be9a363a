//! The mathematical model of the display layout: how a text is cut into
//! display lines under a wrap width, and how a line's offsets map to display
//! columns when each tab spans four columns.

use vstd::prelude::*;

verus! {

/// Display columns taken by one character.
pub open spec fn char_width(c: char) -> int {
    if c == '\t' {
        4
    } else {
        1
    }
}

/// The first offset, from `j` on, that the line starting at `start` does not
/// take in, `cols` columns having been used so far. A line stops at the end
/// of the text, at a newline, or at the first character that does not fit
/// in `limit` columns; its first character is always taken.
pub open spec fn scan_end(text: Seq<char>, start: int, j: int, cols: int, limit: int) -> int
    decreases text.len() - j,
{
    if j < start || j >= text.len() || text[j] == '\n' || (j > start && cols + char_width(text[j])
        > limit) {
        j
    } else {
        scan_end(text, start, j + 1, cols + char_width(text[j]), limit)
    }
}

/// The offset of the last space in `[start, e)`, or -1 where there is none.
pub open spec fn last_space(text: Seq<char>, start: int, e: int) -> int
    decreases e - start,
{
    if e <= start {
        -1
    } else if text[e - 1] == ' ' {
        e - 1
    } else {
        last_space(text, start, e - 1)
    }
}

/// Where the scan of the line starting at `start` stops.
pub open spec fn chunk_end(text: Seq<char>, start: int, limit: int) -> int {
    scan_end(text, start, start, 0, limit)
}

/// The line has used up its columns: the character after it does not fit.
pub open spec fn chunk_full(text: Seq<char>, start: int, limit: int) -> bool {
    let e = chunk_end(text, start, limit);
    start < e < text.len() && columns_of(text, start, e - start) + char_width(text[e]) > limit
}

/// A full line that would split a word (the character after it is no
/// space, nor is its own last one), with at least two characters left after
/// it, is cut back to just after its last space, where it has one.
pub open spec fn chunk_cut(text: Seq<char>, start: int, limit: int) -> bool {
    let e = chunk_end(text, start, limit);
    &&& chunk_full(text, start, limit)
    &&& e + 1 < text.len()
    &&& text[e] != ' '
    &&& text[e - 1] != ' '
    &&& last_space(text, start, e) >= start
}

/// The line ends at a newline reached within its columns; after a full
/// line the newline starts the next line instead.
pub open spec fn chunk_newline(text: Seq<char>, start: int, limit: int) -> bool {
    let e = chunk_end(text, start, limit);
    e < text.len() && text[e] == '\n' && !chunk_full(text, start, limit)
}

/// The line is full and a space follows it, with more text after that
/// space: the space separates this line from the next one.
pub open spec fn chunk_space(text: Seq<char>, start: int, limit: int) -> bool {
    let e = chunk_end(text, start, limit);
    e + 1 < text.len() && text[e] == ' '
}

/// The number of characters of the line starting at `start`.
pub open spec fn chunk_len(text: Seq<char>, start: int, limit: int) -> int {
    let e = chunk_end(text, start, limit);
    if chunk_cut(text, start, limit) {
        last_space(text, start, e) - start + 1
    } else {
        e - start
    }
}

/// The character after the line (a newline or a separating space) belongs
/// to no line's characters.
pub open spec fn chunk_skips(text: Seq<char>, start: int, limit: int) -> bool {
    chunk_newline(text, start, limit) || chunk_space(text, start, limit)
}

/// The offsets, relative to `start`, of the tabs among the `n` characters
/// from `start`, in increasing order.
pub open spec fn tab_offsets(text: Seq<char>, start: int, n: int) -> Seq<int>
    decreases n,
{
    if n <= 0 {
        Seq::empty()
    } else if text[start + n - 1] == '\t' {
        tab_offsets(text, start, n - 1).push(n - 1)
    } else {
        tab_offsets(text, start, n - 1)
    }
}

/// A display line: where it starts in the text, how many characters it
/// holds (a newline or separating space after it not counted), and the
/// line-relative offsets of its tabs.
pub struct LineView {
    pub start: int,
    pub len: int,
    pub tabs: Seq<int>,
}

/// The line starting at `start`.
pub open spec fn line_at(text: Seq<char>, start: int, limit: int) -> LineView {
    let n = chunk_len(text, start, limit);
    LineView { start, len: n, tabs: tab_offsets(text, start, n) }
}

/// Where the line after the one starting at `start` starts.
pub open spec fn next_start(text: Seq<char>, start: int, limit: int) -> int {
    start + chunk_len(text, start, limit) + if chunk_skips(text, start, limit) {
        1int
    } else {
        0int
    }
}

/// The lines of the text from `start` on; a text that ends on a newline
/// gets an empty last line for the cursor to rest on.
pub open spec fn lines_from(text: Seq<char>, start: int, limit: int) -> Seq<LineView>
    decreases text.len() - start,
{
    if start < 0 || start >= text.len() {
        Seq::empty()
    } else {
        let next = next_start(text, start, limit);
        let line = line_at(text, start, limit);
        if next >= text.len() && chunk_newline(text, start, limit) {
            seq![line, LineView { start: next, len: 0, tabs: Seq::empty() }]
        } else if next <= start || next >= text.len() {
            seq![line]
        } else {
            seq![line] + lines_from(text, next, limit)
        }
    }
}

/// The line map of a text under a wrap width of `limit` columns; an empty
/// text has one empty line.
pub open spec fn line_map(text: Seq<char>, limit: int) -> Seq<LineView> {
    if text.len() == 0 {
        seq![LineView { start: 0, len: 0, tabs: Seq::empty() }]
    } else {
        lines_from(text, 0, limit)
    }
}

} // verus!

verus! {

/// A scan never stops before `j`, nor past the end of the text.
pub proof fn lemma_scan_end_bounds(text: Seq<char>, start: int, j: int, cols: int, limit: int)
    requires
        start <= j,
    ensures
        j <= scan_end(text, start, j, cols, limit),
        j <= text.len() ==> scan_end(text, start, j, cols, limit) <= text.len(),
    decreases text.len() - j,
{
    if !(j < start || j >= text.len() || text[j] == '\n' || (j > start && cols + char_width(
        text[j],
    ) > limit)) {
        lemma_scan_end_bounds(text, start, j + 1, cols + char_width(text[j]), limit);
    }
}

/// The last space lies in the range searched.
pub proof fn lemma_last_space_bounds(text: Seq<char>, start: int, e: int)
    ensures
        last_space(text, start, e) == -1 || (start <= last_space(text, start, e) < e
            && text[last_space(text, start, e)] == ' '),
    decreases e - start,
{
    if e > start && text[e - 1] != ' ' {
        lemma_last_space_bounds(text, start, e - 1);
    }
}

/// Every line of a non-empty rest of the text moves the start forward, and
/// ends within the text.
pub proof fn lemma_chunk_progress(text: Seq<char>, start: int, limit: int)
    requires
        0 <= start < text.len(),
    ensures
        start < next_start(text, start, limit),
        start <= chunk_end(text, start, limit) <= text.len(),
        0 <= chunk_len(text, start, limit) <= chunk_end(text, start, limit) - start,
        next_start(text, start, limit) <= text.len() + 1,
{
    lemma_scan_end_bounds(text, start, start, 0, limit);
    let e = chunk_end(text, start, limit);
    if text[start] != '\n' {
        lemma_scan_end_bounds(text, start, start + 1, char_width(text[start]), limit);
    }
    lemma_last_space_bounds(text, start, e);
}

} // verus!

verus! {

/// The display width of a line: each tab takes three columns more than
/// its one character.
pub open spec fn line_width(line: LineView) -> int {
    line.len + 3 * line.tabs.len()
}

/// The tab offsets of a line are in range and strictly increasing.
pub open spec fn tabs_ok(line: LineView) -> bool {
    &&& line.tabs.len() <= line.len
    &&& forall|j: int| 0 <= j < line.tabs.len() ==> 0 <= #[trigger] line.tabs[j] < line.len
    &&& forall|j: int, k: int|
        0 <= j < k < line.tabs.len() ==> #[trigger] line.tabs[j] < #[trigger] line.tabs[k]
}

/// Snaps `col` to a boundary of the first tab, from tab `i` on, whose span
/// holds it: its start in the first half, its end in the second half.
pub open spec fn rectify_from(tabs: Seq<int>, i: int, col: int) -> int
    decreases tabs.len() - i,
{
    if i < 0 || i >= tabs.len() {
        col
    } else {
        let t = tabs[i] + 3 * i;
        if t <= col && col < t + 2 {
            t
        } else if t + 2 <= col && col < t + 4 {
            t + 4
        } else {
            rectify_from(tabs, i + 1, col)
        }
    }
}

/// `col` snapped out of any tab span of the line.
pub open spec fn rectify_column(line: LineView, col: int) -> int {
    rectify_from(line.tabs, 0, col)
}

/// The line-relative offset shown at display column `col`, tabs from `i`
/// on still to pass.
pub open spec fn offset_from(tabs: Seq<int>, i: int, col: int) -> int
    decreases tabs.len() - i,
{
    if i < 0 || i >= tabs.len() {
        col - 3 * tabs.len()
    } else {
        let c = col - 3 * i;
        if c < tabs[i] {
            c
        } else if c < tabs[i] + 2 {
            tabs[i]
        } else if c < tabs[i] + 4 {
            tabs[i] + 1
        } else {
            offset_from(tabs, i + 1, col)
        }
    }
}

/// The line-relative offset that display column `col` of a line stands
/// for, once clamped to the line's width and snapped out of tab spans.
pub open spec fn column_offset(line: LineView, col: int) -> int {
    let w = line_width(line);
    let c = if col < w {
        col
    } else {
        w
    };
    offset_from(line.tabs, 0, rectify_column(line, c))
}

/// The number of tabs, from tab `i` on, that come before the first one at
/// or after line-relative offset `p`, plus `i`.
pub open spec fn tabs_before(tabs: Seq<int>, i: int, p: int) -> int
    decreases tabs.len() - i,
{
    if i < 0 || i >= tabs.len() || tabs[i] >= p {
        i
    } else {
        tabs_before(tabs, i + 1, p)
    }
}

/// The display column of line-relative offset `p`.
pub open spec fn offset_column(line: LineView, p: int) -> int {
    p + 3 * tabs_before(line.tabs, 0, p)
}

/// The index of the line holding text offset `o`, searching from line `i`:
/// the first line whose range reaches to the next line's start, else the
/// last line.
pub open spec fn line_index_from(m: Seq<LineView>, i: int, o: int) -> int
    decreases m.len() - i,
{
    if i < 0 || i + 1 >= m.len() {
        m.len() - 1
    } else if m[i].start <= o && o < m[i + 1].start {
        i
    } else {
        line_index_from(m, i + 1, o)
    }
}

/// The index of the line holding text offset `o`.
pub open spec fn line_index(m: Seq<LineView>, o: int) -> int {
    line_index_from(m, 0, o)
}

/// The shape of a line map of a text of `n` characters: lines in order,
/// each at most one character (a newline or a separating space) after the
/// end of the one before, the last one ending with the text.
pub open spec fn map_ok(m: Seq<LineView>, n: int) -> bool {
    &&& m.len() >= 1
    &&& forall|i: int|
        0 <= i < m.len() ==> 0 <= #[trigger] m[i].start && 0 <= m[i].len && m[i].start + m[i].len
            <= n && tabs_ok(m[i])
    &&& forall|i: int|
        0 <= i < m.len() - 1 ==> #[trigger] m[i].start + m[i].len <= m[i + 1].start <= m[i].start
            + m[i].len + 1 && m[i].start < m[i + 1].start
    &&& m[m.len() - 1].start + m[m.len() - 1].len == n
}

/// The tabs of a run of characters are in range and increasing.
pub proof fn lemma_tab_offsets(text: Seq<char>, start: int, n: int)
    requires
        0 <= n,
    ensures
        tabs_ok(LineView { start, len: n, tabs: tab_offsets(text, start, n) }),
    decreases n,
{
    if n > 0 {
        lemma_tab_offsets(text, start, n - 1);
    }
}

/// The lines from any start within the text form a well-shaped map
/// beginning at that start.
pub proof fn lemma_lines_from(text: Seq<char>, start: int, limit: int)
    requires
        0 <= start < text.len(),
    ensures
        map_ok(lines_from(text, start, limit), text.len() as int),
        lines_from(text, start, limit)[0].start == start,
    decreases text.len() - start,
{
    lemma_chunk_progress(text, start, limit);
    let n = chunk_len(text, start, limit);
    lemma_tab_offsets(text, start, n);
    let next = next_start(text, start, limit);
    if next >= text.len() && chunk_newline(text, start, limit) {
    } else if next >= text.len() {
    } else {
        lemma_lines_from(text, next, limit);
        let rest = lines_from(text, next, limit);
        let m = lines_from(text, start, limit);
        assert(m == seq![line_at(text, start, limit)] + rest);
        assert forall|i: int| 0 <= i < m.len() - 1 implies #[trigger] m[i].start + m[i].len
            <= m[i + 1].start <= m[i].start + m[i].len + 1 && m[i].start < m[i + 1].start by {
            if i > 0 {
                assert(m[i] == rest[i - 1]);
                assert(m[i + 1] == rest[i]);
            }
        }
        assert forall|i: int| 0 <= i < m.len() implies 0 <= #[trigger] m[i].start && 0 <= m[i].len
            && m[i].start + m[i].len <= text.len() && tabs_ok(m[i]) by {
            if i > 0 {
                assert(m[i] == rest[i - 1]);
            }
        }
    }
}

/// The line map of any text is well shaped and starts at offset 0.
pub proof fn lemma_line_map(text: Seq<char>, limit: int)
    ensures
        map_ok(line_map(text, limit), text.len() as int),
        line_map(text, limit)[0].start == 0,
{
    if text.len() > 0 {
        lemma_lines_from(text, 0, limit);
    } else {
        let m = line_map(text, limit);
        assert(tabs_ok(m[0]));
    }
}

} // verus!

verus! {

/// Tab offsets that are non-negative and strictly increasing.
pub open spec fn sorted_tabs(tabs: Seq<int>) -> bool {
    &&& forall|j: int| 0 <= j < tabs.len() ==> 0 <= #[trigger] tabs[j]
    &&& forall|j: int, k: int| 0 <= j < k < tabs.len() ==> #[trigger] tabs[j] < #[trigger] tabs[k]
}

proof fn lemma_tabs_before(tabs: Seq<int>, i: int, p: int)
    requires
        0 <= i <= tabs.len(),
    ensures
        i <= tabs_before(tabs, i, p) <= tabs.len(),
        forall|j: int| i <= j < tabs_before(tabs, i, p) ==> #[trigger] tabs[j] < p,
        tabs_before(tabs, i, p) < tabs.len() ==> tabs[tabs_before(tabs, i, p)] >= p,
    decreases tabs.len() - i,
{
    if i < tabs.len() && tabs[i] < p {
        lemma_tabs_before(tabs, i + 1, p);
    }
}

proof fn lemma_offset_of_column(tabs: Seq<int>, i: int, m: int, p: int)
    requires
        sorted_tabs(tabs),
        0 <= i <= m <= tabs.len(),
        forall|j: int| 0 <= j < m ==> #[trigger] tabs[j] < p,
        m < tabs.len() ==> tabs[m] >= p,
    ensures
        offset_from(tabs, i, p + 3 * m) == p,
    decreases m - i,
{
    if i < m {
        lemma_offset_of_column(tabs, i + 1, m, p);
    }
}

proof fn lemma_rectify_fixed(tabs: Seq<int>, i: int, m: int, p: int)
    requires
        sorted_tabs(tabs),
        0 <= i <= tabs.len(),
        0 <= m <= tabs.len(),
        forall|j: int| 0 <= j < m ==> #[trigger] tabs[j] < p,
        m < tabs.len() ==> tabs[m] >= p,
    ensures
        rectify_from(tabs, i, p + 3 * m) == p + 3 * m,
    decreases tabs.len() - i,
{
    if i < tabs.len() {
        if i >= m && m < tabs.len() {
            assert(tabs[i] >= tabs[m]) by {
                if i > m {
                    assert(tabs[m] < tabs[i]);
                }
            }
        }
        lemma_rectify_fixed(tabs, i + 1, m, p);
    }
}

/// Every offset of a line is shown at a column outside any tab span, within
/// the line's width, and that column maps back to the same offset.
pub proof fn lemma_offset_column_round_trip(line: LineView, p: int)
    requires
        tabs_ok(line),
        0 <= p <= line.len,
    ensures
        0 <= offset_column(line, p) <= line_width(line),
        rectify_column(line, offset_column(line, p)) == offset_column(line, p),
        column_offset(line, offset_column(line, p)) == p,
{
    let tabs = line.tabs;
    lemma_tabs_before(tabs, 0, p);
    let m = tabs_before(tabs, 0, p);
    lemma_rectify_fixed(tabs, 0, m, p);
    lemma_offset_of_column(tabs, 0, m, p);
}

/// The display column at which tab `i` starts.
pub open spec fn tab_column(tabs: Seq<int>, i: int) -> int {
    tabs[i] + 3 * i
}

proof fn lemma_tab_columns_apart(tabs: Seq<int>, j: int, i: int)
    requires
        sorted_tabs(tabs),
        0 <= j < i < tabs.len(),
    ensures
        tab_column(tabs, j) + 4 <= tab_column(tabs, i),
{
    assert(tabs[j] < tabs[i]);
}

proof fn lemma_rectify_in_span(tabs: Seq<int>, j: int, i: int, col: int)
    requires
        sorted_tabs(tabs),
        0 <= j <= i < tabs.len(),
        tab_column(tabs, i) <= col < tab_column(tabs, i) + 4,
    ensures
        rectify_from(tabs, j, col) == if col < tab_column(tabs, i) + 2 {
            tab_column(tabs, i)
        } else {
            tab_column(tabs, i) + 4
        },
    decreases i - j,
{
    if j < i {
        lemma_tab_columns_apart(tabs, j, i);
        lemma_rectify_in_span(tabs, j + 1, i, col);
    }
}

proof fn lemma_offset_of_tab(tabs: Seq<int>, j: int, i: int, col: int)
    requires
        sorted_tabs(tabs),
        0 <= j <= i + 1,
        0 <= i < tabs.len(),
        col == tab_column(tabs, i) || col == tab_column(tabs, i) + 4,
        j == i + 1 ==> col == tab_column(tabs, i) + 4,
    ensures
        offset_from(tabs, j, col) == if col == tab_column(tabs, i) {
            tabs[i]
        } else {
            tabs[i] + 1
        },
    decreases i + 1 - j,
{
    if j < i {
        lemma_tab_columns_apart(tabs, j, i);
        lemma_offset_of_tab(tabs, j + 1, i, col);
    } else if j == i && col != tab_column(tabs, i) {
        lemma_offset_of_tab(tabs, j + 1, i, col);
    } else if j == i + 1 && i + 1 < tabs.len() {
        assert(tabs[i] < tabs[i + 1]);
    }
}

/// A column in the first half of a tab's span snaps to the tab's start
/// column and stands for the tab itself; one in the second half snaps to
/// the tab's end column and stands for the offset after the tab.
pub proof fn lemma_column_in_tab(line: LineView, i: int, col: int)
    requires
        tabs_ok(line),
        0 <= i < line.tabs.len(),
        tab_column(line.tabs, i) <= col < tab_column(line.tabs, i) + 4,
    ensures
        col < tab_column(line.tabs, i) + 2 ==> rectify_column(line, col) == tab_column(
            line.tabs,
            i,
        ) && column_offset(line, col) == line.tabs[i],
        col >= tab_column(line.tabs, i) + 2 ==> rectify_column(line, col) == tab_column(
            line.tabs,
            i,
        ) + 4 && column_offset(line, col) == line.tabs[i] + 1,
{
    let tabs = line.tabs;
    assert(tab_column(tabs, i) + 4 <= line_width(line)) by {
        assert(tabs[i] < line.len);
    }
    lemma_rectify_in_span(tabs, 0, i, col);
    let r = rectify_from(tabs, 0, col);
    lemma_offset_of_tab(tabs, 0, i, r);
}

proof fn lemma_rectify_outside(tabs: Seq<int>, j: int, col: int)
    requires
        sorted_tabs(tabs),
        0 <= j <= tabs.len(),
        forall|k: int|
            j <= k < tabs.len() ==> !(tab_column(tabs, k) <= col < #[trigger] tab_column(tabs, k)
                + 4),
    ensures
        rectify_from(tabs, j, col) == col,
    decreases tabs.len() - j,
{
    if j < tabs.len() {
        assert(!(tab_column(tabs, j) <= col < tab_column(tabs, j) + 4));
        lemma_rectify_outside(tabs, j + 1, col);
    }
}

/// Snapping a column out of tab spans twice gives what snapping once gives.
pub proof fn lemma_rectify_idempotent(line: LineView, col: int)
    requires
        tabs_ok(line),
    ensures
        rectify_column(line, rectify_column(line, col)) == rectify_column(line, col),
{
    let tabs = line.tabs;
    if exists|i: int| 0 <= i < tabs.len() && tab_column(tabs, i) <= col < #[trigger] tab_column(tabs, i) + 4 {
        let i = choose|i: int|
            0 <= i < tabs.len() && tab_column(tabs, i) <= col < #[trigger] tab_column(tabs, i) + 4;
        lemma_rectify_in_span(tabs, 0, i, col);
        let r = rectify_column(line, col);
        if r == tab_column(tabs, i) {
            lemma_rectify_in_span(tabs, 0, i, r);
        } else if i + 1 < tabs.len() && tab_column(tabs, i + 1) == r {
            lemma_rectify_in_span(tabs, 0, i + 1, r);
        } else {
            assert forall|k: int| 0 <= k < tabs.len() implies !(tab_column(tabs, k) <= r
                < #[trigger] tab_column(tabs, k) + 4) by {
                if k < i {
                    lemma_tab_columns_apart(tabs, k, i);
                } else if k > i + 1 {
                    lemma_tab_columns_apart(tabs, i + 1, k);
                    lemma_tab_columns_apart(tabs, i, i + 1);
                } else if k == i + 1 {
                    lemma_tab_columns_apart(tabs, i, i + 1);
                }
            }
            lemma_rectify_outside(tabs, 0, r);
        }
    } else {
        lemma_rectify_outside(tabs, 0, col);
    }
}

} // verus!

verus! {

/// The display column at which text offset `o` is shown.
pub open spec fn cursor_column(m: Seq<LineView>, o: int) -> int {
    let k = line_index(m, o);
    offset_column(m[k], o - m[k].start)
}

/// The text offset that display column `col` of line `k` stands for.
pub open spec fn offset_at(m: Seq<LineView>, k: int, col: int) -> int {
    m[k].start + column_offset(m[k], col)
}

proof fn lemma_line_index_from(m: Seq<LineView>, n: int, i: int, o: int)
    requires
        map_ok(m, n),
        0 <= i < m.len(),
        m[i].start <= o <= n,
    ensures
        i <= line_index_from(m, i, o) < m.len(),
        m[line_index_from(m, i, o)].start <= o <= m[line_index_from(m, i, o)].start + m[line_index_from(m, i, o)].len,
    decreases m.len() - i,
{
    if i + 1 < m.len() {
        assert(m[i].start + m[i].len <= m[i + 1].start <= m[i].start + m[i].len + 1);
        if !(o < m[i + 1].start) {
            lemma_line_index_from(m, n, i + 1, o);
        }
    }
}

/// Every offset of the text lies in the line that `line_index` finds, at
/// most at its end.
pub proof fn lemma_line_index(m: Seq<LineView>, n: int, o: int)
    requires
        map_ok(m, n),
        m[0].start == 0,
        0 <= o <= n,
    ensures
        0 <= line_index(m, o) < m.len(),
        m[line_index(m, o)].start <= o <= m[line_index(m, o)].start + m[line_index(m, o)].len,
{
    lemma_line_index_from(m, n, 0, o);
}

/// Mapping a text offset to its line and display column and back gives the
/// same offset; the column lies within the line's width and outside any
/// tab span.
pub proof fn lemma_offset_cursor_round_trip(text: Seq<char>, limit: int, o: int)
    requires
        0 <= o <= text.len(),
    ensures
        0 <= line_index(line_map(text, limit), o) < line_map(text, limit).len(),
        line_map(text, limit)[line_index(line_map(text, limit), o)].start <= o
            <= line_map(text, limit)[line_index(line_map(text, limit), o)].start + line_map(
            text,
            limit,
        )[line_index(line_map(text, limit), o)].len,
        tabs_ok(line_map(text, limit)[line_index(line_map(text, limit), o)]),
        0 <= cursor_column(line_map(text, limit), o) <= line_width(
            line_map(text, limit)[line_index(line_map(text, limit), o)],
        ),
        offset_at(
            line_map(text, limit),
            line_index(line_map(text, limit), o),
            cursor_column(line_map(text, limit), o),
        ) == o,
{
    let m = line_map(text, limit);
    lemma_line_map(text, limit);
    lemma_line_index(m, text.len() as int, o);
    let k = line_index(m, o);
    assert(0 <= m[k].start);
    lemma_offset_column_round_trip(m[k], o - m[k].start);
}

/// A display column inside a tab's span on any line stands for one of the
/// tab's two boundary offsets: the tab itself in the first half of the
/// span, the offset after it in the second half.
pub proof fn lemma_tab_column_offset(text: Seq<char>, limit: int, k: int, i: int, col: int)
    requires
        0 <= k < line_map(text, limit).len(),
        0 <= i < line_map(text, limit)[k].tabs.len(),
        tab_column(line_map(text, limit)[k].tabs, i) <= col < tab_column(
            line_map(text, limit)[k].tabs,
            i,
        ) + 4,
    ensures
        col < tab_column(line_map(text, limit)[k].tabs, i) + 2 ==> offset_at(
            line_map(text, limit),
            k,
            col,
        ) == line_map(text, limit)[k].start + line_map(text, limit)[k].tabs[i],
        col >= tab_column(line_map(text, limit)[k].tabs, i) + 2 ==> offset_at(
            line_map(text, limit),
            k,
            col,
        ) == line_map(text, limit)[k].start + line_map(text, limit)[k].tabs[i] + 1,
{
    let m = line_map(text, limit);
    lemma_line_map(text, limit);
    assert(0 <= m[k].start);
    assert(tabs_ok(m[k]));
    lemma_column_in_tab(m[k], i, col);
}

} // verus!

verus! {

/// A snapped column of a line never passes the line's width.
pub proof fn lemma_rectify_bound(tabs: Seq<int>, i: int, len: int, col: int)
    requires
        tabs_ok(LineView { start: 0, len, tabs }),
        0 <= i,
        0 <= col <= len + 3 * tabs.len(),
    ensures
        0 <= rectify_from(tabs, i, col) <= len + 3 * tabs.len(),
    decreases tabs.len() - i,
{
    if i < tabs.len() {
        assert(0 <= tabs[i] < len);
        lemma_rectify_bound(tabs, i + 1, len, col);
    }
}

} // verus!

verus! {

/// Each line of a line map lies within the text and has well-formed tabs.
pub proof fn lemma_map_line(text: Seq<char>, limit: int, k: int)
    requires
        0 <= k < line_map(text, limit).len(),
    ensures
        0 <= line_map(text, limit)[k].start,
        0 <= line_map(text, limit)[k].len,
        line_map(text, limit)[k].start + line_map(text, limit)[k].len <= text.len(),
        tabs_ok(line_map(text, limit)[k]),
{
    lemma_line_map(text, limit);
    assert(0 <= line_map(text, limit)[k].start);
}

} // verus!

verus! {

/// A run of characters as drawn: each tab becomes four spaces.
pub open spec fn expand_tabs(s: Seq<char>) -> Seq<char>
    decreases s.len(),
{
    if s.len() == 0 {
        Seq::empty()
    } else {
        expand_tabs(s.drop_last()) + if s.last() == '\t' {
            seq![' ', ' ', ' ', ' ']
        } else {
            seq![s.last()]
        }
    }
}

/// The characters of a line as drawn.
pub open spec fn rendered(text: Seq<char>, line: LineView) -> Seq<char> {
    expand_tabs(text.subrange(line.start, line.start + line.len))
}

} // verus!

verus! {

/// The display columns taken by the first `n` characters from `start`.
pub open spec fn columns_of(text: Seq<char>, start: int, n: int) -> int {
    n + 3 * tab_offsets(text, start, n).len()
}

pub proof fn lemma_columns_step(text: Seq<char>, start: int, n: int)
    requires
        0 <= n,
    ensures
        columns_of(text, start, n + 1) == columns_of(text, start, n) + char_width(text[start + n]),
{
    assert(tab_offsets(text, start, n + 1) == if text[start + n] == '\t' {
        tab_offsets(text, start, n).push(n)
    } else {
        tab_offsets(text, start, n)
    });
}

proof fn lemma_columns_monotone(text: Seq<char>, start: int, n1: int, n2: int)
    requires
        0 <= n1 <= n2,
    ensures
        columns_of(text, start, n1) <= columns_of(text, start, n2),
    decreases n2 - n1,
{
    if n1 < n2 {
        lemma_columns_step(text, start, n2 - 1);
        lemma_columns_monotone(text, start, n1, n2 - 1);
    }
}

proof fn lemma_scan_fits(text: Seq<char>, start: int, j: int, cols: int, limit: int)
    requires
        start <= j,
        cols == columns_of(text, start, j - start),
        j <= start + 1 || cols <= limit,
    ensures
        columns_of(text, start, scan_end(text, start, j, cols, limit) - start) <= limit || scan_end(
            text,
            start,
            j,
            cols,
            limit,
        ) <= start + 1,
    decreases text.len() - j,
{
    if !(j < start || j >= text.len() || text[j] == '\n' || (j > start && cols + char_width(
        text[j],
    ) > limit)) {
        lemma_columns_step(text, start, j - start);
        lemma_scan_fits(text, start, j + 1, cols + char_width(text[j]), limit);
    }
}

/// A line is never wider than the wrap width, except a line of a single
/// character that is wider than it alone.
pub proof fn lemma_line_fits(text: Seq<char>, start: int, limit: int)
    requires
        0 <= start < text.len(),
    ensures
        line_width(line_at(text, start, limit)) <= limit || chunk_len(text, start, limit) <= 1,
{
    lemma_chunk_progress(text, start, limit);
    lemma_scan_fits(text, start, start, 0, limit);
    let e = chunk_end(text, start, limit);
    lemma_columns_monotone(text, start, chunk_len(text, start, limit), e - start);
}

proof fn lemma_lines_from_fit(text: Seq<char>, start: int, limit: int)
    requires
        0 <= start < text.len(),
    ensures
        forall|k: int|
            0 <= k < lines_from(text, start, limit).len() ==> (line_width(
                #[trigger] lines_from(text, start, limit)[k],
            ) <= limit || lines_from(text, start, limit)[k].len <= 1) && lines_from(
                text,
                start,
                limit,
            )[k].tabs == tab_offsets(
                text,
                lines_from(text, start, limit)[k].start,
                lines_from(text, start, limit)[k].len,
            ),
    decreases text.len() - start,
{
    lemma_chunk_progress(text, start, limit);
    lemma_line_fits(text, start, limit);
    let next = next_start(text, start, limit);
    let m = lines_from(text, start, limit);
    if next >= text.len() && chunk_newline(text, start, limit) {
    } else if next >= text.len() {
    } else {
        lemma_lines_from_fit(text, next, limit);
        let rest = lines_from(text, next, limit);
        assert forall|k: int| 0 <= k < m.len() implies (line_width(#[trigger] m[k]) <= limit
            || m[k].len <= 1) && m[k].tabs == tab_offsets(text, m[k].start, m[k].len) by {
            if k > 0 {
                assert(m[k] == rest[k - 1]);
            }
        }
    }
}

/// No line of a line map is wider than the wrap width, except a line of a
/// single character that is wider than it alone (a tab under a width below
/// four).
pub proof fn lemma_line_map_fits(text: Seq<char>, limit: int, k: int)
    requires
        0 <= k < line_map(text, limit).len(),
    ensures
        line_width(line_map(text, limit)[k]) <= limit || line_map(text, limit)[k].len <= 1,
        limit >= 4 ==> line_width(line_map(text, limit)[k]) <= limit,
        line_map(text, limit)[k].tabs == tab_offsets(
            text,
            line_map(text, limit)[k].start,
            line_map(text, limit)[k].len,
        ),
        limit >= 4 ==> text_width(
            text.subrange(
                line_map(text, limit)[k].start,
                line_map(text, limit)[k].start + line_map(text, limit)[k].len,
            ),
        ) <= limit,
{
    lemma_line_map(text, limit);
    let line = line_map(text, limit)[k];
    assert(0 <= line.start);
    if text.len() > 0 {
        lemma_lines_from_fit(text, 0, limit);
        assert(tabs_ok(line));
    }
    lemma_text_width(text, line.start, line.len);
}

/// The display width of a run of characters: four columns for a tab, one
/// for any other character.
pub open spec fn text_width(s: Seq<char>) -> int
    decreases s.len(),
{
    if s.len() == 0 {
        0
    } else {
        text_width(s.drop_last()) + char_width(s.last())
    }
}

/// Counting a line's columns by its tab list agrees with summing the
/// widths of its characters.
pub proof fn lemma_text_width(text: Seq<char>, start: int, n: int)
    requires
        0 <= start,
        0 <= n,
        start + n <= text.len(),
    ensures
        columns_of(text, start, n) == text_width(text.subrange(start, start + n)),
    decreases n,
{
    if n > 0 {
        lemma_text_width(text, start, n - 1);
        lemma_columns_step(text, start, n - 1);
        let sub = text.subrange(start, start + n);
        assert(sub.drop_last() =~= text.subrange(start, start + n - 1));
    }
}

/// A line that is full, where the character after it (a newline too) is
/// no space and at least one more follows that one, ends just after its
/// last space where it has one: the break never splits a word that a space
/// before it could have moved to the next line.
pub proof fn lemma_wrap_at_space(text: Seq<char>, start: int, limit: int)
    requires
        0 <= start < text.len(),
        chunk_full(text, start, limit),
        chunk_end(text, start, limit) + 1 < text.len(),
        text[chunk_end(text, start, limit)] != ' ',
        exists|s: int| start <= s < chunk_end(text, start, limit) && #[trigger] text[s] == ' ',
    ensures
        chunk_len(text, start, limit) >= 1,
        text[start + chunk_len(text, start, limit) - 1] == ' ',
        forall|s: int|
            start + chunk_len(text, start, limit) <= s < chunk_end(text, start, limit) ==> #[trigger] text[s]
                != ' ',
{
    lemma_chunk_progress(text, start, limit);
    let e = chunk_end(text, start, limit);
    lemma_last_space_bounds(text, start, e);
    lemma_last_space_is_last(text, start, e);
    let s = choose|s: int| start <= s < e && #[trigger] text[s] == ' ';
    assert(last_space(text, start, e) >= s);
}

proof fn lemma_last_space_is_last(text: Seq<char>, start: int, e: int)
    ensures
        forall|s: int|
            last_space(text, start, e) < s < e && start <= s ==> #[trigger] text[s] != ' ',
    decreases e - start,
{
    if e > start && text[e - 1] != ' ' {
        lemma_last_space_is_last(text, start, e - 1);
    }
}

} // verus!

verus! {

/// A line map has a first line, and its first column stands for offset 0.
pub proof fn lemma_start_offset(text: Seq<char>, limit: int)
    ensures
        line_map(text, limit).len() >= 1,
        offset_at(line_map(text, limit), 0, 0) == 0,
{
    lemma_line_map(text, limit);
    let m = line_map(text, limit);
    assert(0 <= m[0].start);
    lemma_offset_column_round_trip(m[0], 0);
    assert(tabs_before(m[0].tabs, 0, 0) == 0);
}

} // verus!

verus! {

proof fn lemma_offset_from_bound(tabs: Seq<int>, len: int, i: int, col: int)
    requires
        tabs_ok(LineView { start: 0, len, tabs }),
        0 <= i <= tabs.len(),
        3 * i <= col <= len + 3 * tabs.len(),
    ensures
        0 <= offset_from(tabs, i, col) <= len,
    decreases tabs.len() - i,
{
    if i < tabs.len() {
        assert(0 <= tabs[i] < len);
        if col - 3 * i >= tabs[i] + 4 {
            lemma_offset_from_bound(tabs, len, i + 1, col);
        }
    }
}

/// Any display column of a line stands for an offset within the line.
pub proof fn lemma_column_offset_bound(line: LineView, col: int)
    requires
        tabs_ok(line),
        0 <= col,
    ensures
        0 <= column_offset(line, col) <= line.len,
{
    let w = line_width(line);
    let c = if col < w {
        col
    } else {
        w
    };
    lemma_rectify_bound(line.tabs, 0, line.len, c);
    assert(tabs_ok(LineView { start: 0, len: line.len, tabs: line.tabs }));
    lemma_offset_from_bound(line.tabs, line.len, 0, rectify_column(line, c));
}

} // verus!

verus! {

/// The number of tabs, from tab `i` on, whose whole span ends at or before
/// display column `col`, plus `i`.
pub open spec fn spans_before(tabs: Seq<int>, i: int, col: int) -> int
    decreases tabs.len() - i,
{
    if i < 0 || i >= tabs.len() || tab_column(tabs, i) + 4 > col {
        i
    } else {
        spans_before(tabs, i + 1, col)
    }
}

proof fn lemma_spans_before(tabs: Seq<int>, i: int, col: int)
    requires
        0 <= i <= tabs.len(),
        forall|j: int| 0 <= j < i ==> tab_column(tabs, j) + 4 <= col,
    ensures
        i <= spans_before(tabs, i, col) <= tabs.len(),
        forall|j: int| 0 <= j < spans_before(tabs, i, col) ==> tab_column(tabs, j) + 4 <= col,
        spans_before(tabs, i, col) < tabs.len() ==> tab_column(tabs, spans_before(tabs, i, col)) + 4
            > col,
    decreases tabs.len() - i,
{
    if i < tabs.len() && tab_column(tabs, i) + 4 <= col {
        lemma_spans_before(tabs, i + 1, col);
    }
}

/// A display column of a line that lies within its width and not strictly
/// inside a tab's span needs no snapping, and the offset it stands for is
/// shown at that same column; only the line's last column stands for the
/// offset at its end.
pub proof fn lemma_column_offset_round_trip(line: LineView, col: int)
    requires
        tabs_ok(line),
        0 <= col <= line_width(line),
        forall|i: int|
            0 <= i < line.tabs.len() ==> !(tab_column(line.tabs, i) < col < #[trigger] tab_column(
                line.tabs,
                i,
            ) + 4),
    ensures
        rectify_column(line, col) == col,
        0 <= column_offset(line, col) <= line.len,
        column_offset(line, col) == line.len ==> col == line_width(line),
        offset_column(line, column_offset(line, col)) == col,
{
    let tabs = line.tabs;
    assert(sorted_tabs(tabs));
    lemma_spans_before(tabs, 0, col);
    let m = spans_before(tabs, 0, col);
    let p = col - 3 * m;
    if m < tabs.len() {
        assert(!(tab_column(tabs, m) < col < tab_column(tabs, m) + 4));
        assert(tabs[m] < line.len);
    }
    if m > 0 {
        assert(tab_column(tabs, m - 1) + 4 <= col);
        assert(tabs[m - 1] >= 0);
    }
    assert forall|j: int| 0 <= j < m implies #[trigger] tabs[j] < p by {
        assert(tab_column(tabs, m - 1) + 4 <= col);
        if j < m - 1 {
            assert(tabs[j] < tabs[m - 1]);
        }
    }
    lemma_rectify_fixed(tabs, 0, m, p);
    lemma_offset_of_column(tabs, 0, m, p);
    lemma_tabs_before(tabs, 0, p);
    let q = tabs_before(tabs, 0, p);
    if q < m {
        assert(tabs[q] < p);
    }
    if q > m {
        assert(tabs[m] < p);
    }
}

proof fn lemma_starts_increase(m: Seq<LineView>, n: int, a: int, b: int)
    requires
        map_ok(m, n),
        0 <= a <= b < m.len(),
    ensures
        m[a].start <= m[b].start,
    decreases b - a,
{
    if a < b {
        assert(m[a].start < m[a + 1].start);
        lemma_starts_increase(m, n, a + 1, b);
    }
}

proof fn lemma_line_index_is(m: Seq<LineView>, n: int, i: int, k: int, o: int)
    requires
        map_ok(m, n),
        0 <= i <= k < m.len(),
        m[k].start <= o,
        k + 1 < m.len() ==> o < m[k + 1].start,
    ensures
        line_index_from(m, i, o) == k,
    decreases k - i,
{
    if i < k {
        lemma_starts_increase(m, n, i + 1, k);
        lemma_line_index_is(m, n, i + 1, k, o);
    }
}

/// Mapping a display position of any line to a text offset and back gives
/// the same line and column, for every column within the line's width that
/// is not strictly inside a tab's span, except the last column of a line
/// whose next line starts right at its end (that offset is shown at the
/// start of the next line).
pub proof fn lemma_cursor_offset_round_trip(text: Seq<char>, limit: int, k: int, col: int)
    requires
        0 <= k < line_map(text, limit).len(),
        0 <= col <= line_width(line_map(text, limit)[k]),
        forall|i: int|
            0 <= i < line_map(text, limit)[k].tabs.len() ==> !(tab_column(
                line_map(text, limit)[k].tabs,
                i,
            ) < col < #[trigger] tab_column(line_map(text, limit)[k].tabs, i) + 4),
        !(k + 1 < line_map(text, limit).len() && col == line_width(line_map(text, limit)[k])
            && line_map(text, limit)[k + 1].start == line_map(text, limit)[k].start + line_map(
            text,
            limit,
        )[k].len),
    ensures
        line_index(line_map(text, limit), offset_at(line_map(text, limit), k, col)) == k,
        cursor_column(line_map(text, limit), offset_at(line_map(text, limit), k, col)) == col,
{
    let m = line_map(text, limit);
    lemma_line_map(text, limit);
    assert(0 <= m[k].start);
    lemma_column_offset_round_trip(m[k], col);
    let o = offset_at(m, k, col);
    if k + 1 < m.len() {
        assert(m[k].start + m[k].len <= m[k + 1].start);
    }
    lemma_line_index_is(m, text.len() as int, 0, k, o);
}

} // verus!
