//! The editor: owns the text, its line map, the viewport and the cursor, and
//! runs every edit and movement through them in a fixed order.

use vstd::prelude::*;
use vstd::std_specs::iter::IteratorSpec;
use crate::gap_buffer::{TextGapBuffer, MAX_CHARS};
use crate::layout::{
    char_width, columns_of, lemma_columns_step, chunk_end, chunk_len, chunk_newline, chunk_space, cursor_column, expand_tabs,
    last_space, lemma_chunk_progress, lemma_last_space_bounds, lemma_map_line,
    lemma_offset_cursor_round_trip, lemma_rectify_bound, line_at, line_index, line_index_from,
    lemma_start_offset, lemma_column_offset_bound, line_map, line_width, lines_from, next_start, offset_at, offset_from, rectify_column,
    rectify_from, rendered, scan_end, tab_offsets, tabs_before, tabs_ok, LineView,
};

verus! {

/// The paragraph a new editor starts with.
pub const SAMPLE_TEXT: &'static str = "But I must explain to you how all this mistaken idea of denouncing pleasure and praising pain was born and I will give you a complete account of the system, and expound the actual teachings of the great explorer of the truth, the master-builder of human happiness. No one rejects, dislikes, or avoids pleasure itself, because it is pleasure, but because those who do not know how to pursue pleasure rationally encounter consequences that are extremely painful. Nor again is there anyone who loves or pursues or desires to obtain pain of itself, because it is pain, but because occasionally circumstances occur in which toil and pain can procure him some great pleasure. To take a trivial example, which of us ever undertakes laborious physical exercise, except to obtain some advantage from it?\nBut who has any right to find fault with a man who chooses to enjoy a pleasure that has no annoying consequences, or one who avoids a pain that produces no resultant pleasure?";

/// A direction of cursor movement.
#[derive(Debug, Clone, Copy, PartialEq, Eq, Structural)]
pub enum Direction {
    LEFT,
    DOWN,
    UP,
    RIGHT,
}

/// A cursor position: `row` counts from the first visible line, `column` is
/// a display column with tabs expanded.
#[derive(Debug, Clone, Copy, PartialEq, Eq, Structural)]
pub struct Cursor {
    pub row: usize,
    pub column: usize,
}

/// One display line of the line map.
pub struct LineInfo {
    pub index: usize,
    pub tabs: Vec<u16>,
    pub len: u16,
}

impl View for LineInfo {
    type V = LineView;

    open spec fn view(&self) -> LineView {
        LineView {
            start: self.index as int,
            len: self.len as int,
            tabs: self.tabs@.map_values(|t: u16| t as int),
        }
    }
}

/// The views of a sequence of display lines.
pub open spec fn views(v: Seq<LineInfo>) -> Seq<LineView> {
    v.map_values(|l: LineInfo| l@)
}

/// One wrap decision: the line's length, whether a newline or a separating
/// space follows it, and its tabs.
pub struct LineChunk {
    pub len: u16,
    pub end_of_line: bool,
    pub wrapped_at_space: bool,
    pub tabs: Vec<u16>,
}

/// A screen rectangle: its top left corner and its size.
#[derive(Debug, Clone, Copy, PartialEq, Eq, Structural)]
pub struct ScreenDimensions {
    pub row: u16,
    pub column: u16,
    pub max_rows: u16,
    pub max_cols: u16,
}

/// The editing rectangle inside a screen rectangle, a border of two cells
/// left on each side.
pub open spec fn interior(d: ScreenDimensions) -> ScreenDimensions {
    ScreenDimensions {
        row: (d.row + 2) as u16,
        column: (d.column + 2) as u16,
        max_rows: (d.max_rows - 4) as u16,
        max_cols: (d.max_cols - 4) as u16,
    }
}

/// A screen rectangle that leaves room for at least one text row inside
/// its border.
pub open spec fn dims_ok(d: ScreenDimensions) -> bool {
    &&& d.row + 2 <= u16::MAX
    &&& d.column + 2 <= u16::MAX
    &&& d.max_rows >= 5
    &&& d.max_cols >= 4
}

/// The first visible line after the cursor moved to line `k`: unchanged
/// where `k` is visible from `top`, else scrolled just far enough.
pub open spec fn scrolled(top: int, k: int, rows: int) -> int {
    if k < top {
        k
    } else if k >= top + rows {
        k + 1 - rows
    } else {
        top
    }
}

/// The first visible line after a deletion: one line up where the lines
/// from `top` no longer fill the rows.
pub open spec fn pulled_up(top: int, n: int, rows: int) -> int {
    if top > 0 && n < top + rows {
        top - 1
    } else {
        top
    }
}

/// The first visible line after a resize: where the lines from `top` no
/// longer fill the rows, pulled back to leave one row more than fill them.
pub open spec fn clamped_top(top: int, n: int, rows: int) -> int {
    if top > 0 && n < top + rows {
        if n > rows + 1 {
            n - rows - 1
        } else {
            0
        }
    } else {
        top
    }
}

pub struct Editor {
    cursor: Cursor,
    window_dim: ScreenDimensions,
    editor_dim: ScreenDimensions,
    gap_buffer: TextGapBuffer,
    title: String,
    line_offset: usize,
    line_map: Vec<LineInfo>,
}

impl Editor {
    /// The text being edited.
    pub closed spec fn text(&self) -> Seq<char> {
        self.gap_buffer@
    }

    /// The editor's state is consistent: the line map is the one of the text
    /// under the current wrap width, and the cursor's line is visible.
    pub closed spec fn wf(&self) -> bool {
        &&& self.gap_buffer.wf()
        &&& self.editor_dim == interior(self.window_dim)
        &&& 1 <= self.editor_dim.max_rows
        &&& views(self.line_map@) == line_map(self.text(), self.editor_dim.max_cols as int)
        &&& self.line_offset + self.cursor.row < self.line_map@.len()
        &&& self.cursor.row < self.editor_dim.max_rows
    }

    /// What the editor's consistency gives a caller: the line map is the
    /// text's under the wrap width, the cursor's line exists and is
    /// visible, and the cursor stands for an offset within the text.
    pub proof fn lemma_wf(&self)
        requires
            self.wf(),
        ensures
            self.lines() == line_map(self.text(), self.wrap_width()),
            1 <= self.visible_rows(),
            self.cursor_pos().row < self.visible_rows(),
            self.top() + self.cursor_pos().row < self.lines().len(),
            0 <= self.offset() <= self.text().len(),
            self.text().len() <= MAX_CHARS,
            self.buffer_wf(),
            0 <= self.top(),
    {
        self.gap_buffer.lemma_wf();
        let k = self.top() + self.cursor_pos().row;
        lemma_map_line(self.text(), self.wrap_width(), k);
        lemma_column_offset_bound(self.lines()[k], self.cursor_pos().column as int);
    }

    /// The display lines of the text.
    pub closed spec fn lines(&self) -> Seq<LineView> {
        views(self.line_map@)
    }

    /// The index of the first visible line.
    pub closed spec fn top(&self) -> int {
        self.line_offset as int
    }

    /// The cursor, relative to the first visible line.
    pub closed spec fn cursor_pos(&self) -> Cursor {
        self.cursor
    }

    /// The outer screen rectangle.
    pub closed spec fn window(&self) -> ScreenDimensions {
        self.window_dim
    }

    /// The number of text rows on screen.
    pub open spec fn visible_rows(&self) -> int {
        interior(self.window()).max_rows as int
    }

    /// The wrap width in display columns.
    pub open spec fn wrap_width(&self) -> int {
        interior(self.window()).max_cols as int
    }

    /// The cursor is where text offset `o` is shown, the view having been
    /// scrolled from first line `top` just far enough to show it.
    pub open spec fn cursor_at(&self, o: int, top: int) -> bool {
        &&& self.top() == scrolled(top, line_index(self.lines(), o), self.visible_rows())
        &&& self.top() + self.cursor_pos().row == line_index(self.lines(), o)
        &&& self.cursor_pos().column == cursor_column(self.lines(), o)
    }

    /// The size of the window that the text's storage reopens with.
    pub closed spec fn reopen_size(&self) -> nat {
        self.gap_buffer.reopen_size()
    }

    /// The title shown above the text.
    pub closed spec fn title_text(&self) -> Seq<char> {
        self.title@
    }

    /// The text offset the cursor stands for.
    pub open spec fn offset(&self) -> int {
        offset_at(self.lines(), self.top() + self.cursor_pos().row, self.cursor_pos().column as int)
    }

    /// The text's storage is well formed.
    pub closed spec fn buffer_wf(&self) -> bool {
        self.gap_buffer.wf()
    }

    pub fn get_line_chunk(&self, start: usize, limit: u16) -> (r: LineChunk)
        requires
            self.buffer_wf(),
        ensures
            r.len == chunk_len(self.text(), start as int, limit as int),
            r.end_of_line == chunk_newline(self.text(), start as int, limit as int),
            r.wrapped_at_space == chunk_space(self.text(), start as int, limit as int),
            r.tabs@.map_values(|t: u16| t as int) == tab_offsets(
                self.text(),
                start as int,
                r.len as int,
            ),
    {
        let ghost text = self.gap_buffer@;
        let n = self.gap_buffer.len();
        let lim = limit as usize;
        let mut i = start;
        let mut cols: usize = 0;
        let mut ls: Option<usize> = None;
        let mut stop = false;
        while !stop
            invariant
                self.gap_buffer.wf(),
                text == self.gap_buffer@,
                n == text.len(),
                lim == limit,
                start <= i,
                i <= n || i == start,
                scan_end(text, start as int, i as int, cols as int, lim as int) == chunk_end(
                    text,
                    start as int,
                    lim as int,
                ),
                stop ==> i >= n || text[i as int] == '\n' || (i > start && cols + char_width(
                    text[i as int],
                ) > lim),
                match ls {
                    Some(p) => p as int,
                    None => -1int,
                } == last_space(text, start as int, i as int),
                i - start <= cols,
                cols == columns_of(text, start as int, i - start),
                i == start ==> cols == 0,
                cols <= lim + 4,
                i > start + 1 ==> cols <= lim,
            decreases (if i <= n {
                n - i
            } else {
                0
            }) + (if stop {
                0int
            } else {
                1int
            }),
        {
            if i >= n {
                stop = true;
            } else {
                let ch = match self.gap_buffer.get(i) {
                    Ok(c) => c,
                    Err(_) => '\n',
                };
                let w: usize = if ch == '\t' {
                    4
                } else {
                    1
                };
                if ch == '\n' || (i > start && cols + w > lim) {
                    stop = true;
                } else {
                    if ch == ' ' {
                        ls = Some(i);
                    }
                    proof {
                        lemma_columns_step(text, start as int, i - start);
                    }
                    cols = cols + w;
                    i = i + 1;
                }
            }
        }
        let ghost e = i as int;
        assert(e == chunk_end(text, start as int, lim as int));
        let mut len: usize = i - start;
        let mut newline = false;
        let mut space = false;
        if i < n {
            let c = match self.gap_buffer.get(i) {
                Ok(c) => c,
                Err(_) => '\n',
            };
            let w: usize = if c == '\t' {
                4
            } else {
                1
            };
            let mut cut = false;
            let full = i > start && cols + w > lim;
            if full && i + 1 < n && c != ' ' {
                let prev = match self.gap_buffer.get(i - 1) {
                    Ok(c) => c,
                    Err(_) => ' ',
                };
                if prev != ' ' {
                    if let Some(p) = ls {
                        proof {
                            lemma_last_space_bounds(text, start as int, e);
                        }
                        len = p - start + 1;
                        cut = true;
                    }
                }
            }
            if !cut {
                if c == '\n' && !full {
                    newline = true;
                } else if i + 1 < n && c == ' ' {
                    space = true;
                }
            }
        }
        let mut tabs: Vec<u16> = Vec::new();
        let mut k: usize = 0;
        while k < len
            invariant
                self.gap_buffer.wf(),
                text == self.gap_buffer@,
                len <= 65535,
                n == text.len(),
                len > 0 ==> start + len <= n,
                k <= len,
                tabs@.map_values(|t: u16| t as int) == tab_offsets(text, start as int, k as int),
            decreases len - k,
        {
            let c = match self.gap_buffer.get(start + k) {
                Ok(c) => c,
                Err(_) => ' ',
            };
            let ghost before = tabs@;
            assert(c == text[start + k]);
            assert(tab_offsets(text, start as int, k + 1) == if text[start + k] == '\t' {
                tab_offsets(text, start as int, k as int).push(k as int)
            } else {
                tab_offsets(text, start as int, k as int)
            });
            if c == '\t' {
                tabs.push(k as u16);
                assert(tabs@.map_values(|t: u16| t as int) =~= before.map_values(|t: u16| t as int).push(k as int));
            }
            k = k + 1;
        }
        LineChunk { len: len as u16, end_of_line: newline, wrapped_at_space: space, tabs }
    }

    /// `column` snapped out of the tab spans of `line`: a column in the
    /// first half of a tab's span goes to the tab's start column, one in
    /// the second half to its end column.
    pub fn get_tab_rectified(&self, line: &LineInfo, column: usize) -> (r: usize)
        requires
            tabs_ok(line@),
        ensures
            r == rectify_column(line@, column as int),
    {
        let ghost tabs = line@.tabs;
        let n = line.tabs.len();
        let mut i: usize = 0;
        while i < n
            invariant
                n == tabs.len(),
                n <= 65535,
                i <= n,
                tabs == line@.tabs,
                rectify_from(tabs, i as int, column as int) == rectify_from(tabs, 0, column as int),
            decreases n - i,
        {
            let t = line.tabs[i] as usize + 3 * i;
            if t <= column && column < t + 2 {
                return t;
            } else if t + 2 <= column && column < t + 4 {
                return t + 4;
            }
            i = i + 1;
        }
        column
    }

    /// The cursor with its column clamped to its line's width and snapped
    /// out of tab spans.
    pub fn get_rel_cursor(&self) -> (r: Cursor)
        requires
            self.wf(),
        ensures
            r.row == self.cursor_pos().row,
            r.column == rectify_column(
                self.lines()[self.top() + self.cursor_pos().row],
                if self.cursor_pos().column < line_width(self.lines()[self.top() + self.cursor_pos().row]) {
                    self.cursor_pos().column as int
                } else {
                    line_width(self.lines()[self.top() + self.cursor_pos().row])
                },
            ),
            r.column <= line_width(self.lines()[self.top() + self.cursor_pos().row]),
    {
        let _nlines = self.line_map.len();
        let k = self.line_offset + self.cursor.row;
        proof {
            lemma_map_line(self.text(), self.editor_dim.max_cols as int, k as int);
        }
        let line = &self.line_map[k];
        assert(line@ == self.lines()[k as int]);
        let w = line.len as usize + 3 * line.tabs.len();
        let column = if self.cursor.column < w {
            self.cursor.column
        } else {
            w
        };
        proof {
            lemma_rectify_bound(line@.tabs, 0, line@.len, column as int);
        }
        Cursor { row: self.cursor.row, column: self.get_tab_rectified(line, column) }
    }

    /// The text offset the cursor stands for.
    #[verifier::rlimit(30)]
    pub fn get_current_index(&self) -> (r: usize)
        requires
            self.wf(),
        ensures
            r == self.offset(),
            r <= self.text().len(),
    {
        let rel = self.get_rel_cursor();
        let _tl = self.gap_buffer.len();
        let _nlines = self.line_map.len();
        let k = self.line_offset + rel.row;
        proof {
            lemma_map_line(self.text(), self.editor_dim.max_cols as int, k as int);
        }
        let line = &self.line_map[k];
        let ghost lv = self.lines()[k as int];
        assert(line@ == lv);
        let ghost tabs = lv.tabs;
        let col = rel.column;
        let ghost target = lv.start + offset_from(tabs, 0, col as int);
        assert(self.offset() == target);
        let n = line.tabs.len();
        let mut i: usize = 0;
        while i < n
            invariant
                target == lv.start + offset_from(tabs, 0, col as int),
                target == self.offset(),
                n == tabs.len(),
                tabs == line@.tabs,
                line@ == lv,
                tabs_ok(lv),
                lv.start + lv.len <= self.text().len(),
                self.text().len() <= usize::MAX,
                i <= n,
                col >= 3 * i,
                col <= lv.len + 3 * n,
                offset_from(tabs, i as int, col as int) == offset_from(tabs, 0, col as int),
            decreases n - i,
        {
            let c = col - 3 * i;
            let t = line.tabs[i] as usize;
            assert(0 <= tabs[i as int] < lv.len);
            assert(t == tabs[i as int]);
            assert(offset_from(tabs, i as int, col as int) == if c < t {
                c as int
            } else if c < t + 2 {
                t as int
            } else if c < t + 4 {
                t + 1
            } else {
                offset_from(tabs, i + 1, col as int)
            });
            if c < t {
                return line.index + c;
            } else if c < t + 2 {
                return line.index + t;
            } else if c < t + 4 {
                return line.index + t + 1;
            }
            i = i + 1;
        }
        assert(offset_from(tabs, n as int, col as int) == col - 3 * n);
        line.index + (col - 3 * n)
    }

    /// The index of the line that holds text offset `index`.
    pub fn get_index_line(&self, index: usize) -> (r: usize)
        requires
            self.lines().len() >= 1,
        ensures
            r == line_index(self.lines(), index as int),
    {
        let n = self.line_map.len();
        let mut i: usize = 0;
        while i + 1 < n
            invariant
                n == self.line_map@.len(),
                n >= 1,
                i < n,
                line_index_from(self.lines(), i as int, index as int) == line_index(
                    self.lines(),
                    index as int,
                ),
            decreases n - i,
        {
            let line = &self.line_map[i];
            let next_line = &self.line_map[i + 1];
            assert(line@ == self.lines()[i as int]);
            assert(next_line@ == self.lines()[i + 1]);
            if index >= line.index && index < next_line.index {
                return i;
            }
            i = i + 1;
        }
        n - 1
    }

    /// The cursor at text offset `index`, its row counted from the first
    /// visible line.
    pub fn get_cursor_from_index(&self, index: usize) -> (r: Cursor)
        requires
            self.wf(),
            index <= self.text().len(),
            self.top() <= line_index(self.lines(), index as int),
        ensures
            r.row == line_index(self.lines(), index as int) - self.top(),
            r.column == cursor_column(self.lines(), index as int),
    {
        proof {
            lemma_offset_cursor_round_trip(self.text(), self.wrap_width(), index as int);
        }
        let k = self.get_index_line(index);
        let line = &self.line_map[k];
        let ghost lv = self.lines()[k as int];
        assert(line@ == lv);
        let p = index - line.index;
        let n = line.tabs.len();
        let mut found: usize = 0;
        while found < n
            invariant_except_break
                n == lv.tabs.len(),
                line@ == lv,
                found <= n,
                tabs_before(lv.tabs, found as int, p as int) == tabs_before(lv.tabs, 0, p as int),
            ensures
                found == tabs_before(lv.tabs, 0, p as int),
                found <= n,
            decreases n - found,
        {
            if line.tabs[found] as usize >= p {
                break;
            }
            found = found + 1;
        }
        assert(n <= lv.len);
        Cursor { row: k - self.line_offset, column: p + 3 * found }
    }


    /// Puts the cursor at text offset `index`, scrolling just far enough
    /// for its line to be visible.
    fn place_cursor(&mut self, index: usize)
        requires
            old(self).gap_buffer.wf(),
            old(self).editor_dim == interior(old(self).window_dim),
            1 <= old(self).editor_dim.max_rows,
            views(old(self).line_map@) == line_map(old(self).text(), old(self).editor_dim.max_cols as int),
            index <= old(self).text().len(),
        ensures
            final(self).wf(),
            final(self).text() == old(self).text(),
            final(self).lines() == old(self).lines(),
            final(self).window() == old(self).window(),
            final(self).reopen_size() == old(self).reopen_size(),
            final(self).top() == scrolled(
                old(self).top(),
                line_index(old(self).lines(), index as int),
                final(self).visible_rows(),
            ),
            final(self).top() + final(self).cursor_pos().row == line_index(old(self).lines(), index as int),
            final(self).cursor_pos().column == cursor_column(old(self).lines(), index as int),
            final(self).offset() == index,
    {
        proof {
            lemma_offset_cursor_round_trip(self.text(), self.editor_dim.max_cols as int, index as int);
        }
        let k = self.get_index_line(index);
        let _nlines = self.line_map.len();
        let rows = self.editor_dim.max_rows as usize;
        if k < self.line_offset {
            self.line_offset = k;
        } else if k - self.line_offset >= rows {
            self.line_offset = k + 1 - rows;
        }
        self.cursor = Cursor { row: 0, column: 0 };
        let c = self.get_cursor_from_index(index);
        self.cursor = c;
    }

    /// An editor holding `text`, laid out inside `window_dim`, with the
    /// cursor at the start of the text and the first line at the top.
    pub fn with_text(window_dim: ScreenDimensions, title: String, text: &str) -> (r: Self)
        requires
            dims_ok(window_dim),
            text@.len() < MAX_CHARS,
        ensures
            r.wf(),
            r.text() == text@,
            r.lines() == line_map(r.text(), r.wrap_width()),
            r.window() == window_dim,
            r.top() == 0,
            r.cursor_pos() == (Cursor { row: 0, column: 0 }),
            r.offset() == 0,
            r.title_text() == title@,
            r.reopen_size() == 100,
    {
        let mut gap_buffer = TextGapBuffer::new();
        let mut chars = text.chars();
        let ghost all = text@;
        loop
            invariant
                gap_buffer.wf(),
                gap_buffer.point() == gap_buffer@.len(),
                gap_buffer.reopen_size() == 100,
                gap_buffer@ + chars.remaining() == all,
                all.len() < MAX_CHARS,
            ensures
                gap_buffer.wf(),
                gap_buffer@ == all,
                gap_buffer.reopen_size() == 100,
            decreases all.len() - gap_buffer@.len(),
        {
            let ghost before = chars.remaining();
            match chars.next() {
                Some(c) => {
                    let ghost t0 = gap_buffer@;
                    assert(t0.push(c) + chars.remaining() =~= t0 + before);
                    gap_buffer.insert_ch(c);
                    assert(gap_buffer@ =~= t0.push(c));
                },
                None => {
                    assert(gap_buffer@ =~= all);
                    break;
                },
            }
        }
        let editor_dim = ScreenDimensions {
            row: window_dim.row + 2,
            column: window_dim.column + 2,
            max_rows: window_dim.max_rows - 4,
            max_cols: window_dim.max_cols - 4,
        };
        let mut instance = Editor {
            cursor: Cursor { row: 0, column: 0 },
            window_dim,
            editor_dim,
            gap_buffer,
            title,
            line_offset: 0,
            line_map: Vec::new(),
        };
        instance.line_map = instance.get_line_map(editor_dim.max_cols);
        proof {
            lemma_start_offset(instance.text(), editor_dim.max_cols as int);
            assert(views(instance.line_map@).len() == instance.line_map@.len());
        }
        instance
    }

    /// An editor holding the sample paragraph, laid out inside `window_dim`.
    pub fn new(window_dim: ScreenDimensions, title: String) -> (r: Self)
        requires
            dims_ok(window_dim),
        ensures
            r.wf(),
            r.text() == SAMPLE_TEXT@,
            r.lines() == line_map(r.text(), r.wrap_width()),
            r.window() == window_dim,
            r.top() == 0,
            r.cursor_pos() == (Cursor { row: 0, column: 0 }),
            r.offset() == 0,
            r.title_text() == title@,
    {
        proof {
            reveal_strlit("But I must explain to you how all this mistaken idea of denouncing pleasure and praising pain was born and I will give you a complete account of the system, and expound the actual teachings of the great explorer of the truth, the master-builder of human happiness. No one rejects, dislikes, or avoids pleasure itself, because it is pleasure, but because those who do not know how to pursue pleasure rationally encounter consequences that are extremely painful. Nor again is there anyone who loves or pursues or desires to obtain pain of itself, because it is pain, but because occasionally circumstances occur in which toil and pain can procure him some great pleasure. To take a trivial example, which of us ever undertakes laborious physical exercise, except to obtain some advantage from it?\nBut who has any right to find fault with a man who chooses to enjoy a pleasure that has no annoying consequences, or one who avoids a pain that produces no resultant pleasure?");
        }
        Editor::with_text(window_dim, title, SAMPLE_TEXT)
    }

    /// Moves the cursor one step in `direction`; `magnitude` is not read.
    /// Left and right step one text offset, never before the start nor past
    /// the end; up and down step one line, scrolling at the edges of the
    /// visible rows.
    pub fn move_cursor(&mut self, direction: Direction, magnitude: u16)
        requires
            old(self).wf(),
        ensures
            final(self).wf(),
            final(self).text() == old(self).text(),
            final(self).lines() == old(self).lines(),
            final(self).window() == old(self).window(),
            final(self).reopen_size() == old(self).reopen_size(),
            direction == Direction::LEFT ==> if old(self).offset() > 0 {
                final(self).offset() == old(self).offset() - 1 && final(self).cursor_at(
                    old(self).offset() - 1,
                    old(self).top(),
                )
            } else {
                *final(self) == *old(self)
            },
            direction == Direction::RIGHT ==> if old(self).offset() < old(self).text().len() {
                final(self).offset() == old(self).offset() + 1 && final(self).cursor_at(
                    old(self).offset() + 1,
                    old(self).top(),
                )
            } else {
                *final(self) == *old(self)
            },
            direction == Direction::UP ==> final(self).cursor_pos().column == old(self).cursor_pos().column
                && if old(self).cursor_pos().row > 0 {
                    final(self).top() == old(self).top()
                    && final(self).cursor_pos().row == old(self).cursor_pos().row - 1
                } else {
                    final(self).top() == (if old(self).top() > 0 { old(self).top() - 1 } else { 0 })
                    && final(self).cursor_pos().row == 0
                },
            direction == Direction::DOWN ==> final(self).cursor_pos().column == old(self).cursor_pos().column
                && if old(self).top() + old(self).cursor_pos().row + 1 < old(self).lines().len()
                    && old(self).cursor_pos().row + 1 < old(self).visible_rows() {
                    final(self).top() == old(self).top()
                    && final(self).cursor_pos().row == old(self).cursor_pos().row + 1
                } else if old(self).top() + old(self).cursor_pos().row + 1 < old(self).lines().len() {
                    final(self).top() == old(self).top() + 1
                    && final(self).cursor_pos().row == old(self).cursor_pos().row
                } else {
                    final(self).top() == old(self).top()
                    && final(self).cursor_pos().row == old(self).cursor_pos().row
                },
    {
        match direction {
            Direction::LEFT => {
                let index = self.get_current_index();
                if index > 0 {
                    self.place_cursor(index - 1);
                }
            },
            Direction::RIGHT => {
                let index = self.get_current_index();
                if index < self.gap_buffer.len() {
                    self.place_cursor(index + 1);
                }
            },
            Direction::UP => {
                if self.cursor.row > 0 {
                    self.cursor.row = self.cursor.row - 1;
                } else if self.line_offset > 0 {
                    self.line_offset = self.line_offset - 1;
                }
            },
            Direction::DOWN => {
                let n = self.line_map.len();
                let rows = self.editor_dim.max_rows as usize;
                let visible = if rows < n - self.line_offset {
                    rows
                } else {
                    n - self.line_offset
                };
                if self.cursor.row + 1 == visible {
                    if rows < n - self.line_offset {
                        self.line_offset = self.line_offset + 1;
                    }
                } else {
                    self.cursor.row = self.cursor.row + 1;
                }
            },
        }
    }


    /// Inserts `ch` at the cursor; the cursor ends after it.
    pub fn insert_ch(&mut self, ch: char)
        requires
            old(self).wf(),
            old(self).text().len() < MAX_CHARS,
        ensures
            final(self).wf(),
            final(self).text() == old(self).text().insert(old(self).offset(), ch),
            final(self).lines() == line_map(final(self).text(), final(self).wrap_width()),
            final(self).window() == old(self).window(),
            final(self).reopen_size() == old(self).reopen_size(),
            final(self).offset() == old(self).offset() + 1,
            final(self).cursor_at(old(self).offset() + 1, old(self).top()),
    {
        let curr_index = self.get_current_index();
        self.gap_buffer.move_window(curr_index);
        self.gap_buffer.insert_ch(ch);
        self.line_map = self.get_line_map(self.editor_dim.max_cols);
        self.place_cursor(curr_index + 1);
    }

    /// Deletes the character before the cursor; does nothing at the start
    /// of the text. Where the lines from the first visible one no longer
    /// fill the visible rows, the view scrolls up by one line first.
    pub fn delete_ch(&mut self)
        requires
            old(self).wf(),
        ensures
            final(self).wf(),
            old(self).offset() == 0 ==> *final(self) == *old(self),
            old(self).offset() > 0 ==> {
                &&& final(self).text() == old(self).text().remove(old(self).offset() - 1)
                &&& final(self).lines() == line_map(final(self).text(), final(self).wrap_width())
                &&& final(self).window() == old(self).window()
                &&& final(self).reopen_size() == old(self).reopen_size()
                &&& final(self).offset() == old(self).offset() - 1
                &&& final(self).cursor_at(
                    old(self).offset() - 1,
                    pulled_up(old(self).top(), final(self).lines().len() as int, old(self).visible_rows()),
                )
            },
    {
        let curr_index = self.get_current_index();
        if curr_index == 0 {
            return;
        }
        self.gap_buffer.move_window(curr_index);
        self.gap_buffer.delete_ch();
        self.line_map = self.get_line_map(self.editor_dim.max_cols);
        let n = self.line_map.len();
        let rows = self.editor_dim.max_rows as usize;
        if self.line_offset > 0 && (n <= self.line_offset || n - self.line_offset < rows) {
            self.line_offset = self.line_offset - 1;
        }
        self.place_cursor(curr_index - 1);
    }

    /// Lays the editor out inside a new screen rectangle: the text is
    /// wrapped anew to the new width, the first visible line is pulled back
    /// where the lines from it no longer fill the rows, and the cursor keeps
    /// its text offset.
    pub fn resize_redraw(&mut self, window_dim: ScreenDimensions)
        requires
            old(self).wf(),
            dims_ok(window_dim),
        ensures
            final(self).wf(),
            final(self).text() == old(self).text(),
            final(self).window() == window_dim,
            final(self).lines() == line_map(final(self).text(), final(self).wrap_width()),
            final(self).reopen_size() == old(self).reopen_size(),
            final(self).offset() == old(self).offset(),
            final(self).cursor_at(
                old(self).offset(),
                clamped_top(old(self).top(), final(self).lines().len() as int, final(self).visible_rows()),
            ),
    {
        let index = self.get_current_index();
        self.window_dim = window_dim;
        self.editor_dim = ScreenDimensions {
            row: window_dim.row + 2,
            column: window_dim.column + 2,
            max_rows: window_dim.max_rows - 4,
            max_cols: window_dim.max_cols - 4,
        };
        self.line_map = self.get_line_map(self.editor_dim.max_cols);
        let n = self.line_map.len();
        let rows = self.editor_dim.max_rows as usize;
        if self.line_offset > 0 && (n <= self.line_offset || n - self.line_offset < rows) {
            self.line_offset = if n > rows + 1 {
                n - rows - 1
            } else {
                0
            };
        }
        self.place_cursor(index);
    }


    /// The cursor, its row counted from the first visible line.
    pub fn cursor(&self) -> (r: Cursor)
        ensures
            r == self.cursor_pos(),
    {
        self.cursor
    }

    /// The index of the first visible line.
    pub fn line_offset(&self) -> (r: usize)
        ensures
            r == self.top(),
    {
        self.line_offset
    }

    /// The outer screen rectangle.
    pub fn window_dim(&self) -> (r: ScreenDimensions)
        ensures
            r == self.window(),
    {
        self.window_dim
    }

    /// The editing rectangle inside the border.
    pub fn editor_dim(&self) -> (r: ScreenDimensions)
        requires
            self.wf(),
        ensures
            r == interior(self.window()),
    {
        self.editor_dim
    }

    /// The title shown above the text.
    pub fn title(&self) -> (r: &String)
        ensures
            r@ == self.title_text(),
    {
        &self.title
    }

    /// The current line map.
    pub fn line_map(&self) -> (r: &Vec<LineInfo>)
        ensures
            views(r@) == self.lines(),
    {
        &self.line_map
    }


    /// The number of characters of the text.
    pub fn text_len(&self) -> (r: usize)
        requires
            self.wf(),
        ensures
            r == self.text().len(),
            r <= MAX_CHARS,
    {
        self.gap_buffer.len()
    }

    /// The whole text.
    pub fn contents(&self) -> (r: Vec<char>)
        requires
            self.wf(),
        ensures
            r@ == self.text(),
    {
        let n = self.gap_buffer.len();
        let mut out: Vec<char> = Vec::new();
        let mut i: usize = 0;
        while i < n
            invariant
                self.gap_buffer.wf(),
                n == self.text().len(),
                i <= n,
                out@ == self.text().subrange(0, i as int),
            decreases n - i,
        {
            let c = match self.gap_buffer.get(i) {
                Ok(c) => c,
                Err(_) => ' ',
            };
            out.push(c);
            i = i + 1;
            assert(out@ =~= self.text().subrange(0, i as int));
        }
        assert(out@ =~= self.text());
        out
    }

    /// The screen position of the cursor: its column clamped to its line
    /// and snapped out of tab spans, inside the editing rectangle.
    pub fn screen_cursor(&self) -> (r: (usize, usize))
        requires
            self.wf(),
        ensures
            r.0 == interior(self.window()).column + rectify_column(
                self.lines()[self.top() + self.cursor_pos().row],
                if self.cursor_pos().column < line_width(self.lines()[self.top() + self.cursor_pos().row]) {
                    self.cursor_pos().column as int
                } else {
                    line_width(self.lines()[self.top() + self.cursor_pos().row])
                },
            ),
            r.1 == interior(self.window()).row + self.cursor_pos().row,
    {
        let rel = self.get_rel_cursor();
        let _nlines = self.line_map.len();
        proof {
            lemma_map_line(
                self.text(),
                self.editor_dim.max_cols as int,
                self.line_offset + self.cursor.row,
            );
            let line = self.line_map@[self.line_offset + self.cursor.row];
            assert(line@ == self.lines()[self.line_offset + self.cursor.row]);
        }
        (self.editor_dim.column as usize + rel.column, self.editor_dim.row as usize + rel.row)
    }

    /// The visible lines as drawn, tabs expanded to four spaces, from the
    /// first visible line on, as many as there are rows and lines.
    pub fn visible_lines(&self) -> (r: Vec<Vec<char>>)
        requires
            self.wf(),
        ensures
            r@.len() == if self.lines().len() - self.top() < self.visible_rows() {
                self.lines().len() - self.top()
            } else {
                self.visible_rows()
            },
            forall|i: int|
                0 <= i < r@.len() ==> #[trigger] r@[i]@ == rendered(
                    self.text(),
                    self.lines()[self.top() + i],
                ),
    {
        let n = self.line_map.len();
        let _tl = self.gap_buffer.len();
        let rows = self.editor_dim.max_rows as usize;
        let count = if n - self.line_offset < rows {
            n - self.line_offset
        } else {
            rows
        };
        let mut out: Vec<Vec<char>> = Vec::new();
        let mut i: usize = 0;
        while i < count
            invariant
                self.wf(),
                n == self.lines().len(),
                count <= n - self.line_offset,
                self.text().len() <= usize::MAX,
                i <= count,
                out@.len() == i,
                forall|j: int|
                    0 <= j < i ==> #[trigger] out@[j]@ == rendered(
                        self.text(),
                        self.lines()[self.top() + j],
                    ),
            decreases count - i,
        {
            let k = self.line_offset + i;
            proof {
                lemma_map_line(self.text(), self.editor_dim.max_cols as int, k as int);
            }
            let line = &self.line_map[k];
            assert(line@ == self.lines()[k as int]);
            let start = line.index;
            let end = line.index + line.len as usize;
            let mut chars: Vec<char> = Vec::new();
            let mut p = start;
            assert(self.text().subrange(start as int, p as int) =~= Seq::<char>::empty());
            while p < end
                invariant
                    self.wf(),
                    start <= p <= end,
                    end <= self.text().len(),
                    chars@ == expand_tabs(self.text().subrange(start as int, p as int)),
                decreases end - p,
            {
                let c = match self.gap_buffer.get(p) {
                    Ok(c) => c,
                    Err(_) => ' ',
                };
                let ghost sub = self.text().subrange(start as int, p + 1);
                assert(sub.drop_last() =~= self.text().subrange(start as int, p as int));
                assert(sub.last() == c);
                if c == '\t' {
                    chars.push(' ');
                    chars.push(' ');
                    chars.push(' ');
                    chars.push(' ');
                } else {
                    chars.push(c);
                }
                proof {
                    let prev = expand_tabs(self.text().subrange(start as int, p as int));
                    if c == '\t' {
                        assert(chars@ =~= prev + seq![' ', ' ', ' ', ' ']);
                    } else {
                        assert(chars@ =~= prev + seq![c]);
                    }
                }
                p = p + 1;
            }
            out.push(chars);
            i = i + 1;
        }
        out
    }

    /// The line map of the whole text under a wrap width of `limit` columns.
    pub fn get_line_map(&self, limit: u16) -> (r: Vec<LineInfo>)
        requires
            self.buffer_wf(),
        ensures
            views(r@) == line_map(self.text(), limit as int),
    {
        let ghost text = self.gap_buffer@;
        let n = self.gap_buffer.len();
        let mut vec: Vec<LineInfo> = Vec::new();
        if n == 0 {
            let tabs: Vec<u16> = Vec::new();
            assert(tabs@.map_values(|t: u16| t as int) =~= Seq::<int>::empty());
            vec.push(LineInfo { index: 0, tabs, len: 0 });
            assert(views(vec@) =~= line_map(text, limit as int));
            return vec;
        }
        let mut index: usize = 0;
        assert(views(vec@) =~= Seq::<LineView>::empty());
        while index < n
            invariant
                self.buffer_wf(),
                text == self.text(),
                n == text.len(),
                0 < n <= MAX_CHARS,
                index <= n + 1,
                views(vec@) + lines_from(text, index as int, limit as int) == lines_from(
                    text,
                    0,
                    limit as int,
                ),
            decreases n + 1 - index,
        {
            let chunk = self.get_line_chunk(index, limit);
            proof {
                lemma_chunk_progress(text, index as int, limit as int);
            }
            let skip = chunk.end_of_line || chunk.wrapped_at_space;
            let next = index + chunk.len as usize + if skip {
                1
            } else {
                0
            };
            assert(next == next_start(text, index as int, limit as int));
            let ghost v0 = views(vec@);
            let ghost line = line_at(text, index as int, limit as int);
            let eol = chunk.end_of_line;
            vec.push(LineInfo { index, len: chunk.len, tabs: chunk.tabs });
            assert(views(vec@) =~= v0.push(line));
            if eol && next >= n {
                let ghost v1 = views(vec@);
                let tabs: Vec<u16> = Vec::new();
                assert(tabs@.map_values(|t: u16| t as int) =~= Seq::<int>::empty());
                vec.push(LineInfo { index: next, len: 0, tabs });
                assert(views(vec@) =~= v1.push(LineView { start: next as int, len: 0, tabs: Seq::empty() }));
                assert(views(vec@) + lines_from(text, next as int, limit as int) =~= v0 + lines_from(text, index as int, limit as int));
            } else if next >= n {
                assert(views(vec@) + lines_from(text, next as int, limit as int) =~= v0 + lines_from(text, index as int, limit as int));
            } else {
                assert(views(vec@) + lines_from(text, next as int, limit as int) =~= v0 + lines_from(text, index as int, limit as int));
            }
            index = next;
        }
        assert(views(vec@) =~= line_map(text, limit as int));
        vec
    }
}

} // verus!
