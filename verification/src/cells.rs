//! The cells of the screen: reading them, taking them for lines of text, and
//! rewriting them.
use crate::boundary::{
    Terminal, cursor_hidden, optional_cell, regex_spans, shown_cell, shown_cursor, terminal_fed,
    terminal_size,
};
use crate::model::{
    CellView, DisplayColor, LineView, OutputTransformRule, ScreenLine, StyledCell, TerminalState,
    cell_views, line_views, row_views, texts,
};
use crate::text::{chars_of, string_of};
use crate::transform::{
    cell_texts, char_columns, columns, fills, joined_text, law_joined_cells_split_back,
    lemma_cell_texts_columns, lemma_joined_push, split_cells_by_display_width, total_columns,
    transform_line, transformed,
};
use vstd::prelude::*;
use vstd::string::StrSliceExecFns;

verus! {

broadcast use vstd::string::group_string_axioms;

/// A cell with nothing in it.
pub open spec fn blank_cell() -> CellView {
    CellView {
        text: " "@,
        fg: DisplayColor::Default,
        bg: DisplayColor::Default,
        bold: false,
        dim: false,
        italic: false,
        underline: false,
        inverse: false,
        wide_continuation: false,
    }
}

impl StyledCell {
    /// A cell with nothing in it.
    pub fn blank() -> (r: StyledCell)
        ensures
            r@ == blank_cell(),
    {
        StyledCell {
            text: " ".to_string(),
            fg: DisplayColor::Default,
            bg: DisplayColor::Default,
            bold: false,
            dim: false,
            italic: false,
            underline: false,
            inverse: false,
            wide_continuation: false,
        }
    }
}

/// How a cell of the terminal is shown: an empty one holds a space, and where
/// there is none a blank one stands.
pub open spec fn styled(cell: Option<CellView>) -> CellView {
    match cell {
        Some(found) => if found.text.len() == 0 {
            CellView { text: " "@, ..found }
        } else {
            found
        },
        None => blank_cell(),
    }
}

/// Turns a cell of the terminal into one that is shown.
pub fn style_cell(cell: Option<StyledCell>) -> (r: StyledCell)
    ensures
        r@ == styled(optional_cell(cell)),
{
    match cell {
        Some(found) => {
            if found.text.as_str().unicode_len() == 0 {
                let mut shown = found;
                shown.text = " ".to_string();
                shown
            } else {
                found
            }
        },
        None => StyledCell::blank(),
    }
}

/// The cells of a terminal of a size that was fed with these pieces of output.
pub open spec fn screen_cells(
    size: (u16, u16),
    fed: Seq<Seq<u8>>,
    rows: u16,
    cols: u16,
) -> Seq<Seq<CellView>> {
    Seq::new(
        rows as nat,
        |row: int|
            Seq::new(
                cols as nat,
                |col: int| styled(shown_cell(size, fed, row as u16, col as u16)),
            ),
    )
}

/// Reads the cells of the terminal.
pub fn collect_screen(terminal: &Terminal, rows: u16, cols: u16) -> (r: Vec<Vec<StyledCell>>)
    ensures
        row_views(r@) == screen_cells(
            terminal_size(*terminal),
            terminal_fed(*terminal),
            rows,
            cols,
        ),
{
    let mut result: Vec<Vec<StyledCell>> = Vec::new();
    let mut row: u16 = 0;
    while row < rows
        invariant
            row <= rows,
            result@.len() == row,
            forall|k: int| 0 <= k < row ==> (#[trigger] result@[k])@.len() == cols,
            forall|k: int, c: int|
                0 <= k < row && 0 <= c < cols ==> (#[trigger] result@[k]@[c])@ == styled(
                    shown_cell(
                        terminal_size(*terminal),
                        terminal_fed(*terminal),
                        k as u16,
                        c as u16,
                    ),
                ),
        decreases rows - row,
    {
        let mut cells: Vec<StyledCell> = Vec::new();
        let mut col: u16 = 0;
        while col < cols
            invariant
                col <= cols,
                cells@.len() == col,
                forall|c: int|
                    0 <= c < col ==> (#[trigger] cells@[c])@ == styled(
                        shown_cell(
                            terminal_size(*terminal),
                            terminal_fed(*terminal),
                            row,
                            c as u16,
                        ),
                    ),
            decreases cols - col,
        {
            cells.push(style_cell(terminal.cell_at(row, col)));
            col = col + 1;
        }
        result.push(cells);
        row = row + 1;
    }
    proof {
        let all = screen_cells(terminal_size(*terminal), terminal_fed(*terminal), rows, cols);
        assert forall|k: int| 0 <= k < rows implies #[trigger] row_views(result@)[k] == all[k] by {
            assert(cell_views(result@[k]@) == all[k]);
        }
        assert(row_views(result@) == all);
    }
    result
}

/// Where the cursor is shown on a screen: never outside of it.
pub open spec fn placed_cursor(
    position: (u16, u16),
    hidden: bool,
    rows: u16,
    cols: u16,
) -> TerminalState {
    TerminalState {
        cursor_row: if position.0 < rows {
            position.0
        } else if rows == 0 {
            0
        } else {
            (rows - 1) as u16
        },
        cursor_col: if position.1 < cols {
            position.1
        } else if cols == 0 {
            0
        } else {
            (cols - 1) as u16
        },
        cursor_visible: !hidden,
    }
}

/// Places the cursor on the screen.
pub fn place_cursor(position: (u16, u16), hidden: bool, rows: u16, cols: u16) -> (r: TerminalState)
    ensures
        r == placed_cursor(position, hidden, rows, cols),
        rows > 0 ==> r.cursor_row < rows,
        cols > 0 ==> r.cursor_col < cols,
{
    TerminalState {
        cursor_row: if position.0 < rows {
            position.0
        } else if rows == 0 {
            0
        } else {
            rows - 1
        },
        cursor_col: if position.1 < cols {
            position.1
        } else if cols == 0 {
            0
        } else {
            cols - 1
        },
        cursor_visible: !hidden,
    }
}

/// Reads where the cursor of the terminal stands.
pub fn collect_terminal_state(terminal: &Terminal, rows: u16, cols: u16) -> (r: TerminalState)
    ensures
        r == placed_cursor(
            shown_cursor(terminal_size(*terminal), terminal_fed(*terminal)),
            cursor_hidden(terminal_size(*terminal), terminal_fed(*terminal)),
            rows,
            cols,
        ),
{
    place_cursor(terminal.cursor(), terminal.hides_cursor(), rows, cols)
}

/// How many columns the cell at a position takes: two where the next cell
/// continues it.
pub open spec fn cell_width(row: Seq<CellView>, i: int) -> nat {
    if i + 1 < row.len() && row[i + 1].wide_continuation {
        2
    } else {
        1
    }
}

/// The text of the first `n` cells; continuations hold none.
pub open spec fn row_text(row: Seq<CellView>, n: int) -> Seq<char>
    decreases n,
{
    if n <= 0 {
        Seq::empty()
    } else if row[n - 1].wide_continuation {
        row_text(row, n - 1)
    } else {
        row_text(row, n - 1) + row[n - 1].text
    }
}

/// The columns of the first `n` cells.
pub open spec fn row_columns(row: Seq<CellView>, n: int) -> nat
    decreases n,
{
    if n <= 0 {
        0
    } else if row[n - 1].wide_continuation {
        row_columns(row, n - 1)
    } else {
        row_columns(row, n - 1) + cell_width(row, n - 1)
    }
}

/// The column behind a character that starts at `col` in a cell that ends at
/// `limit`.
pub open spec fn span_end(c: char, col: nat, limit: nat) -> nat {
    if columns(c) == 0 {
        col
    } else if col + columns(c) < limit {
        col + columns(c)
    } else {
        limit
    }
}

/// The columns of each character in a cell that starts at `col` and ends at
/// `limit`.
pub open spec fn cell_spans(text: Seq<char>, col: nat, limit: nat) -> Seq<(usize, usize)>
    decreases text.len(),
{
    if text.len() == 0 {
        Seq::empty()
    } else {
        let end = span_end(text[0], col, limit);
        seq![(col as usize, end as usize)] + cell_spans(text.drop_first(), end, limit)
    }
}

/// The columns of each character in the first `n` cells.
pub open spec fn row_spans(row: Seq<CellView>, n: int) -> Seq<(usize, usize)>
    decreases n,
{
    if n <= 0 {
        Seq::empty()
    } else if row[n - 1].wide_continuation {
        row_spans(row, n - 1)
    } else {
        row_spans(row, n - 1) + cell_spans(
            row[n - 1].text,
            row_columns(row, n - 1),
            row_columns(row, n),
        )
    }
}

/// A text without the spaces at its end.
pub open spec fn without_trailing_blanks(text: Seq<char>) -> Seq<char>
    decreases text.len(),
{
    if text.len() > 0 && text.last() == ' ' {
        without_trailing_blanks(text.drop_last())
    } else {
        text
    }
}

/// What a row of cells reads as: the text of the cells without the spaces at its
/// end, the columns of its characters, and the columns of the whole row.
pub open spec fn read_line(row: Seq<CellView>) -> LineView {
    let n = row.len() as int;
    let text = without_trailing_blanks(row_text(row, n));
    LineView {
        text,
        char_spans: row_spans(row, n).take(text.len() as int),
        cell_count: row_columns(row, n),
    }
}

/// What rows of cells read as.
pub open spec fn read_lines(rows: Seq<Seq<CellView>>) -> Seq<LineView> {
    rows.map_values(|row: Seq<CellView>| read_line(row))
}

proof fn lemma_cell_spans_len(text: Seq<char>, col: nat, limit: nat)
    ensures
        cell_spans(text, col, limit).len() == text.len(),
    decreases text.len(),
{
    if text.len() > 0 {
        lemma_cell_spans_len(text.drop_first(), span_end(text[0], col, limit), limit);
    }
}

/// Every character of a row has its columns.
pub proof fn lemma_row_spans_len(row: Seq<CellView>, n: int)
    ensures
        row_spans(row, n).len() == row_text(row, n).len(),
    decreases n,
{
    if n > 0 {
        lemma_row_spans_len(row, n - 1);
        if !row[n - 1].wide_continuation {
            lemma_cell_spans_len(row[n - 1].text, row_columns(row, n - 1), row_columns(row, n));
        }
    }
}

proof fn lemma_row_columns_bound(row: Seq<CellView>, n: int)
    requires
        0 <= n <= row.len(),
    ensures
        row_columns(row, n) <= n + if n < row.len() && row[n].wide_continuation {
            1int
        } else {
            0int
        },
    decreases n,
{
    if n > 0 {
        lemma_row_columns_bound(row, n - 1);
    }
}

fn push_cell_spans(spans: &mut Vec<(usize, usize)>, text: &str, start: usize, limit: usize)
    requires
        start <= limit,
    ensures
        final(spans)@ == old(spans)@ + cell_spans(text@, start as nat, limit as nat),
{
    let chars = chars_of(text);
    let ghost all = cell_spans(text@, start as nat, limit as nat);
    let mut col: usize = start;
    let mut i: usize = 0;
    assert(text@.skip(0) == text@);
    while i < chars.len()
        invariant
            chars@ == text@,
            i <= chars@.len(),
            col <= limit,
            old(spans)@ + all == spans@ + cell_spans(
                text@.skip(i as int),
                col as nat,
                limit as nat,
            ),
        decreases chars@.len() - i,
    {
        let ghost before = spans@;
        let c: char = chars[i];
        let width: usize = char_columns(c);
        let end: usize = if width == 0 {
            col
        } else if width < limit - col {
            col + width
        } else {
            limit
        };
        spans.push((col, end));
        proof {
            let rest = text@.skip(i as int);
            assert(rest[0] == c);
            assert(rest.drop_first() == text@.skip(i + 1));
            let tail = cell_spans(text@.skip(i + 1), end as nat, limit as nat);
            assert(before + (seq![(col, end)] + tail) == spans@ + tail);
        }
        col = end;
        i = i + 1;
    }
    assert(spans@ + Seq::<(usize, usize)>::empty() == spans@);
}

/// Reads a row of cells as a line of text.
pub fn screen_line_from_row(row: &[StyledCell]) -> (r: ScreenLine)
    ensures
        r@ == read_line(cell_views(row@)),
        r.char_spans@.len() == r.text@.len(),
        r.cell_count <= row@.len(),
{
    let ghost cells = cell_views(row@);
    let mut text: Vec<char> = Vec::new();
    let mut char_spans: Vec<(usize, usize)> = Vec::new();
    let mut cell_col: usize = 0;
    let mut i: usize = 0;
    while i < row.len()
        invariant
            cells == cell_views(row@),
            i <= row@.len(),
            text@ == row_text(cells, i as int),
            char_spans@ == row_spans(cells, i as int),
            cell_col == row_columns(cells, i as int),
        decreases row@.len() - i,
    {
        proof {
            lemma_row_columns_bound(cells, i as int);
            lemma_row_columns_bound(cells, i + 1);
            assert(cells[i as int] == row@[i as int]@);
        }
        if !row[i].wide_continuation {
            let width: usize = if i + 1 < row.len() && row[i + 1].wide_continuation {
                2
            } else {
                1
            };
            assert(width == cell_width(cells, i as int));
            let cell_text = row[i].text.as_str();
            push_cell_spans(&mut char_spans, cell_text, cell_col, cell_col + width);
            let mut chars = chars_of(cell_text);
            text.append(&mut chars);
            cell_col = cell_col + width;
        }
        i = i + 1;
    }
    let ghost all = text@;
    let ghost spans = char_spans@;
    proof {
        lemma_row_spans_len(cells, i as int);
        lemma_row_columns_bound(cells, i as int);
        assert(spans.take(all.len() as int) == spans);
    }
    while text.len() > 0 && text[text.len() - 1] == ' '
        invariant
            char_spans@.len() == text@.len() <= spans.len(),
            char_spans@ == spans.take(text@.len() as int),
            without_trailing_blanks(text@) == without_trailing_blanks(all),
        decreases text@.len(),
    {
        let ghost before = text@;
        let _ = text.pop();
        let _ = char_spans.pop();
        assert(text@ == before.drop_last());
    }
    ScreenLine { text: string_of(text.as_slice()), char_spans, cell_count: cell_col }
}

/// Reads rows of cells as lines of text.
pub fn screen_lines(cells: &[Vec<StyledCell>]) -> (r: Vec<ScreenLine>)
    ensures
        line_views(r@) == read_lines(row_views(cells@)),
        forall|i: int|
            0 <= i < r@.len() ==> (#[trigger] r@[i]).char_spans@.len() == r@[i].text@.len()
                && r@[i].cell_count <= cells@[i]@.len(),
{
    let mut lines: Vec<ScreenLine> = Vec::new();
    let mut i: usize = 0;
    while i < cells.len()
        invariant
            i <= cells@.len(),
            lines@.len() == i,
            forall|k: int|
                0 <= k < i ==> (#[trigger] lines@[k])@ == read_lines(row_views(cells@))[k],
            forall|k: int|
                0 <= k < i ==> (#[trigger] lines@[k]).char_spans@.len() == lines@[k].text@.len()
                    && lines@[k].cell_count <= cells@[k]@.len(),
        decreases cells@.len() - i,
    {
        lines.push(screen_line_from_row(cells[i].as_slice()));
        i = i + 1;
    }
    assert(line_views(lines@) == read_lines(row_views(cells@)));
    lines
}

/// The columns of the characters in a row follow one another from left to right
/// and lie in the row.
pub proof fn law_spans_follow(row: Seq<CellView>, n: int, i: int, j: int)
    requires
        0 <= n <= row.len() < usize::MAX,
        0 <= i < j < row_spans(row, n).len() || 0 <= i == j < row_spans(row, n).len(),
    ensures
        row_spans(row, n)[i].0 <= row_spans(row, n)[i].1 <= row_columns(row, n),
        i < j ==> row_spans(row, n)[i].1 <= row_spans(row, n)[j].0,
    decreases n,
{
    lemma_row_columns_bound(row, n);
    let before = row_spans(row, n - 1);
    if row[n - 1].wide_continuation {
        law_spans_follow(row, n - 1, i, j);
    } else {
        let start = row_columns(row, n - 1);
        let limit = row_columns(row, n);
        let own = cell_spans(row[n - 1].text, start, limit);
        lemma_row_columns_bound(row, n - 1);
        if j < before.len() {
            law_spans_follow(row, n - 1, i, j);
        } else {
            lemma_cell_spans_follow(row[n - 1].text, start, limit);
            if i < before.len() {
                law_spans_follow(row, n - 1, i, i);
            }
        }
    }
}

proof fn lemma_cell_spans_follow(text: Seq<char>, col: nat, limit: nat)
    requires
        col <= limit <= usize::MAX,
    ensures
        forall|i: int|
            0 <= i < cell_spans(text, col, limit).len() ==> col <= (#[trigger] cell_spans(
                text,
                col,
                limit,
            )[i]).0 <= cell_spans(text, col, limit)[i].1 <= limit,
        forall|i: int, j: int|
            0 <= i < j < cell_spans(text, col, limit).len() ==> (#[trigger] cell_spans(
                text,
                col,
                limit,
            )[i]).1 <= (#[trigger] cell_spans(text, col, limit)[j]).0,
    decreases text.len(),
{
    if text.len() > 0 {
        let end = span_end(text[0], col, limit);
        let rest = cell_spans(text.drop_first(), end, limit);
        let all = cell_spans(text, col, limit);
        lemma_cell_spans_follow(text.drop_first(), end, limit);
        assert forall|i: int| 0 <= i < all.len() implies col <= (#[trigger] all[i]).0 <= all[i].1
            <= limit by {
            if i > 0 {
                assert(all[i] == rest[i - 1]);
            }
        }
        assert forall|i: int, j: int| 0 <= i < j < all.len() implies (#[trigger] all[i]).1 <= (
        #[trigger] all[j]).0 by {
            assert(all[j] == rest[j - 1]);
            if i > 0 {
                assert(all[i] == rest[i - 1]);
            }
        }
    }
}

/// Whether every continuation follows the cell that it continues.
pub open spec fn paired(row: Seq<CellView>) -> bool {
    forall|i: int|
        0 <= i < row.len() && (#[trigger] row[i]).wide_continuation ==> i > 0 && !row[i
            - 1].wide_continuation
}

/// A row has as many columns as cells.
pub proof fn law_columns_are_cells(row: Seq<CellView>)
    requires
        paired(row),
    ensures
        row_columns(row, row.len() as int) == row.len(),
{
    lemma_columns_are_cells(row, row.len() as int);
}

proof fn lemma_columns_are_cells(row: Seq<CellView>, n: int)
    requires
        paired(row),
        0 <= n <= row.len(),
    ensures
        row_columns(row, n) == n + if n < row.len() && row[n].wide_continuation {
            1int
        } else {
            0int
        },
    decreases n,
{
    if n > 0 {
        lemma_columns_are_cells(row, n - 1);
        if n < row.len() && row[n].wide_continuation {
            assert(!row[n - 1].wide_continuation);
        }
    } else if row.len() > 0 {
        assert(!row[0].wide_continuation);
    }
}

/// The columns of each of the first `n` cells that is no continuation.
pub open spec fn visible_widths(row: Seq<CellView>, n: int) -> Seq<usize>
    decreases n,
{
    if n <= 0 {
        Seq::empty()
    } else if row[n - 1].wide_continuation {
        visible_widths(row, n - 1)
    } else {
        visible_widths(row, n - 1).push(cell_width(row, n - 1) as usize)
    }
}

/// The texts that the rules leave for the visible cells of a row: they are
/// joined, rewritten, and cut to the columns of the cells.
pub open spec fn rewritten_texts(row: Seq<CellView>, rules: Seq<OutputTransformRule>) -> Seq<
    Seq<char>,
> {
    let n = row.len() as int;
    cell_texts(transformed(row_text(row, n), rules), visible_widths(row, n))
}

/// A row after the rules: the visible cells get their new texts, and everything
/// else stays.
pub open spec fn rewritten_row(row: Seq<CellView>, rules: Seq<OutputTransformRule>) -> Seq<
    CellView,
> {
    row.map(
        |i: int, cell: CellView|
            if cell.wide_continuation {
                cell
            } else {
                CellView {
                    text: rewritten_texts(row, rules)[visible_widths(row, i).len() as int],
                    ..cell
                }
            },
    )
}

/// The screen after the rules; without rules it stays as it is.
pub open spec fn rewritten_screen(
    rows: Seq<Seq<CellView>>,
    rules: Seq<OutputTransformRule>,
) -> Seq<Seq<CellView>> {
    if rules.len() == 0 {
        rows
    } else {
        rows.map_values(|row: Seq<CellView>| rewritten_row(row, rules))
    }
}

proof fn lemma_visible_before(row: Seq<CellView>, i: int, n: int)
    requires
        0 <= i <= n <= row.len(),
    ensures
        visible_widths(row, i).len() <= visible_widths(row, n).len(),
        i < n && !row[i].wide_continuation ==> visible_widths(row, i).len() < visible_widths(
            row,
            n,
        ).len() && visible_widths(row, n)[visible_widths(row, i).len() as int] == cell_width(row, i),
    decreases n - i,
{
    if i < n {
        lemma_visible_before(row, i, n - 1);
    }
}

fn rewrite_row(row: &mut Vec<StyledCell>, rules: &[OutputTransformRule])
    ensures
        cell_views(final(row)@) == rewritten_row(cell_views(old(row)@), rules@),
{
    let ghost cells = cell_views(row@);
    let ghost n = cells.len() as int;
    let mut plain: Vec<char> = Vec::new();
    let mut widths: Vec<usize> = Vec::new();
    let mut i: usize = 0;
    while i < row.len()
        invariant
            cells == cell_views(row@),
            n == cells.len(),
            i <= row@.len(),
            plain@ == row_text(cells, i as int),
            widths@ == visible_widths(cells, i as int),
        decreases row@.len() - i,
    {
        assert(cells[i as int] == row@[i as int]@);
        if !row[i].wide_continuation {
            let width: usize = if i + 1 < row.len() && row[i + 1].wide_continuation {
                2
            } else {
                1
            };
            assert(width == cell_width(cells, i as int));
            widths.push(width);
            let mut chars = chars_of(row[i].text.as_str());
            plain.append(&mut chars);
        }
        i = i + 1;
    }
    let line = transform_line(string_of(plain.as_slice()).as_str(), rules);
    let pieces = split_cells_by_display_width(line.as_str(), widths.as_slice());
    let ghost split = texts(pieces@);
    assert(split == rewritten_texts(cells, rules@));
    let mut next: usize = 0;
    let mut k: usize = 0;
    while k < row.len()
        invariant
            n == cells.len() == row@.len(),
            k <= n,
            split == texts(pieces@),
            split == rewritten_texts(cells, rules@),
            pieces@.len() == visible_widths(cells, n).len(),
            next == visible_widths(cells, k as int).len(),
            forall|j: int| k <= j < n ==> (#[trigger] row@[j])@ == cells[j],
            forall|j: int|
                0 <= j < k ==> (#[trigger] row@[j])@ == rewritten_row(cells, rules@)[j],
        decreases n - k,
    {
        proof {
            assert(row@[k as int]@ == cells[k as int]);
            lemma_visible_before(cells, k as int, n);
        }
        if !row[k].wide_continuation {
            let text = pieces[next].as_str().to_owned();
            assert(text@ == split[next as int]);
            row[k].text = text;
            assert(next < pieces.len());
            next = next + 1;
        }
        k = k + 1;
    }
    assert(cell_views(row@) == rewritten_row(cells, rules@));
}

/// Rewrites the cells of the screen by the rules.
pub fn apply_transforms_to_cells(cells: &mut Vec<Vec<StyledCell>>, rules: &[OutputTransformRule])
    ensures
        row_views(final(cells)@) == rewritten_screen(row_views(old(cells)@), rules@),
{
    if rules.len() == 0 {
        return;
    }
    let ghost before = row_views(cells@);
    let ghost after = rewritten_screen(before, rules@);
    let mut i: usize = 0;
    while i < cells.len()
        invariant
            rules@.len() > 0,
            before.len() == cells@.len(),
            after == rewritten_screen(before, rules@),
            i <= cells@.len(),
            forall|k: int| i <= k < cells@.len() ==> cell_views((#[trigger] cells@[k])@) == before[k],
            forall|k: int| 0 <= k < i ==> cell_views((#[trigger] cells@[k])@) == after[k],
        decreases cells@.len() - i,
    {
        rewrite_row(&mut cells[i], rules);
        i = i + 1;
    }
    assert(row_views(cells@) == after);
}

/// Rewriting keeps the layout: every visible cell holds text of exactly its
/// columns, and nothing but the text of visible cells changes.
pub proof fn law_rewriting_keeps_layout(
    row: Seq<CellView>,
    rules: Seq<OutputTransformRule>,
    i: int,
)
    requires
        0 <= i < row.len(),
    ensures
        rewritten_row(row, rules).len() == row.len(),
        row[i].wide_continuation ==> rewritten_row(row, rules)[i] == row[i],
        !row[i].wide_continuation ==> {
            let cell = rewritten_row(row, rules)[i];
            &&& total_columns(cell.text) == cell_width(row, i)
            &&& cell == (CellView { text: cell.text, ..row[i] })
        },
{
    let n = row.len() as int;
    lemma_visible_before(row, i, n);
    lemma_cell_texts_columns(transformed(row_text(row, n), rules), visible_widths(row, n));
}

/// Whether the text of each visible cell fills the cell.
pub open spec fn cells_filled(row: Seq<CellView>) -> bool {
    forall|i: int|
        0 <= i < row.len() && !(#[trigger] row[i]).wide_continuation ==> fills(
            row[i].text,
            cell_width(row, i),
        )
}

/// A row in which no rule finds anything stays as it is.
pub proof fn law_unmatched_row_stays(row: Seq<CellView>, rules: Seq<OutputTransformRule>)
    requires
        cells_filled(row),
        forall|i: int|
            0 <= i < rules.len() ==> regex_spans(
                (#[trigger] rules[i]).regex,
                row_text(row, row.len() as int),
            ).len() == 0,
    ensures
        rewritten_row(row, rules) == row,
{
    let n = row.len() as int;
    let visible = visible_texts(row, n);
    lemma_unmatched_text_stays(row_text(row, n), rules);
    lemma_visible_texts(row, n);
    law_joined_cells_split_back(visible, visible_widths(row, n));
    assert forall|i: int| 0 <= i < n implies #[trigger] rewritten_row(row, rules)[i] == row[i] by {
        if !row[i].wide_continuation {
            assert(visible[visible_widths(row, i).len() as int] == row[i].text);
        }
    }
    assert(rewritten_row(row, rules) == row);
}

/// The texts of those of the first `n` cells that are no continuations.
pub open spec fn visible_texts(row: Seq<CellView>, n: int) -> Seq<Seq<char>>
    decreases n,
{
    if n <= 0 {
        Seq::empty()
    } else if row[n - 1].wide_continuation {
        visible_texts(row, n - 1)
    } else {
        visible_texts(row, n - 1).push(row[n - 1].text)
    }
}

proof fn lemma_unmatched_text_stays(text: Seq<char>, rules: Seq<OutputTransformRule>)
    requires
        forall|i: int|
            0 <= i < rules.len() ==> regex_spans((#[trigger] rules[i]).regex, text).len() == 0,
    ensures
        transformed(text, rules) == text,
    decreases rules.len(),
{
    if rules.len() > 0 {
        let earlier = rules.drop_last();
        assert forall|i: int| 0 <= i < earlier.len() implies regex_spans(
            (#[trigger] earlier[i]).regex,
            text,
        ).len() == 0 by {
            assert(rules[i] == earlier[i]);
        }
        lemma_unmatched_text_stays(text, earlier);
        assert(regex_spans(rules[rules.len() - 1].regex, text).len() == 0);
        assert(text.skip(0) == text);
    }
}

proof fn lemma_visible_texts(row: Seq<CellView>, n: int)
    requires
        cells_filled(row),
        0 <= n <= row.len(),
    ensures
        row_text(row, n) == joined_text(visible_texts(row, n)),
        visible_texts(row, n).len() == visible_widths(row, n).len(),
        forall|k: int|
            0 <= k < visible_texts(row, n).len() ==> fills(
                #[trigger] visible_texts(row, n)[k],
                visible_widths(row, n)[k] as nat,
            ),
        forall|i: int|
            0 <= i < n && !(#[trigger] row[i]).wide_continuation ==> visible_widths(row, i).len()
                < visible_texts(row, n).len() && visible_texts(row, n)[visible_widths(
                row,
                i,
            ).len() as int] == row[i].text,
    decreases n,
{
    if n > 0 {
        lemma_visible_texts(row, n - 1);
        let before = visible_texts(row, n - 1);
        let now = visible_texts(row, n);
        if !row[n - 1].wide_continuation {
            lemma_joined_push(before, row[n - 1].text);
        }
        assert forall|k: int| 0 <= k < now.len() implies fills(
            #[trigger] now[k],
            visible_widths(row, n)[k] as nat,
        ) by {
            if k < before.len() {
                assert(now[k] == before[k]);
                assert(fills(before[k], visible_widths(row, n - 1)[k] as nat));
            }
        }
        assert forall|i: int| 0 <= i < n && !(#[trigger] row[i]).wide_continuation implies
            visible_widths(row, i).len() < now.len() && now[visible_widths(row, i).len() as int]
            == row[i].text by {
            if i < n - 1 {
                assert(before[visible_widths(row, i).len() as int] == row[i].text);
            }
        }
    }
}

/// Every visible cell's text stands in the text of its row behind that of the cells
/// before it, and its first character starts in the cell's own column.
pub proof fn law_cell_text_stands_at_its_column(row: Seq<CellView>, i: int) -> (behind: Seq<char>)
    requires
        paired(row),
        row.len() < usize::MAX,
        0 <= i < row.len(),
        !row[i].wide_continuation,
    ensures
        row_text(row, row.len() as int) == row_text(row, i) + row[i].text + behind,
        row[i].text.len() > 0 ==> {
            let span = row_spans(row, row.len() as int)[row_text(row, i).len() as int];
            &&& span.0 == i
            &&& columns(row[i].text[0]) == cell_width(row, i) ==> span.1 == i + cell_width(row, i)
            &&& columns(row[i].text[0]) == 0 ==> span.1 == i
        },
{
    let n = row.len() as int;
    lemma_columns_are_cells(row, i);
    lemma_row_spans_len(row, i);
    let start = row_columns(row, i);
    let own = cell_spans(row[i].text, start, row_columns(row, i + 1));
    if row[i].text.len() > 0 {
        assert(own[0].0 == i);
    }
    lemma_cell_in_row(row, i, n)
}

proof fn lemma_cell_in_row(row: Seq<CellView>, i: int, n: int) -> (behind: Seq<char>)
    requires
        0 <= i < n <= row.len(),
        !row[i].wide_continuation,
    ensures
        row_text(row, n) == row_text(row, i) + row[i].text + behind,
        row_spans(row, n).len() >= row_spans(row, i + 1).len(),
        forall|k: int|
            0 <= k < row_spans(row, i + 1).len() ==> #[trigger] row_spans(row, n)[k] == row_spans(
                row,
                i + 1,
            )[k],
        row_spans(row, i + 1) == row_spans(row, i) + cell_spans(
            row[i].text,
            row_columns(row, i),
            row_columns(row, i + 1),
        ),
    decreases n,
{
    let upto = row_text(row, i) + row[i].text;
    if n == i + 1 {
        assert(upto + Seq::<char>::empty() == upto);
        Seq::empty()
    } else {
        let behind = lemma_cell_in_row(row, i, n - 1);
        if row[n - 1].wide_continuation {
            behind
        } else {
            assert((upto + behind) + row[n - 1].text == upto + (behind + row[n - 1].text));
            behind + row[n - 1].text
        }
    }
}

/// The text of a row consists of the texts of its visible cells, in order: a visible
/// cell adds its text and its columns, two where the next cell continues it and one
/// otherwise, and a continuation adds nothing.
pub proof fn law_row_text_is_that_of_its_cells(row: Seq<CellView>, n: int)
    requires
        0 <= n < row.len(),
    ensures
        row_text(row, 0) == Seq::<char>::empty(),
        row_columns(row, 0) == 0,
        row_spans(row, 0) == Seq::<(usize, usize)>::empty(),
        visible_widths(row, 0) == Seq::<usize>::empty(),
        !row[n].wide_continuation ==> {
            let width: nat = if n + 1 < row.len() && row[n + 1].wide_continuation {
                2
            } else {
                1
            };
            let start = row_columns(row, n);
            &&& row_text(row, n + 1) == row_text(row, n) + row[n].text
            &&& row_columns(row, n + 1) == start + width
            &&& row_spans(row, n + 1) == row_spans(row, n) + cell_spans(
                row[n].text,
                start,
                start + width,
            )
            &&& visible_widths(row, n + 1) == visible_widths(row, n).push(width as usize)
        },
        row[n].wide_continuation ==> {
            &&& row_text(row, n + 1) == row_text(row, n)
            &&& row_columns(row, n + 1) == row_columns(row, n)
            &&& row_spans(row, n + 1) == row_spans(row, n)
            &&& visible_widths(row, n + 1) == visible_widths(row, n)
        },
        row_spans(row, row.len() as int).len() == row_text(row, row.len() as int).len(),
{
    lemma_row_spans_len(row, row.len() as int);
}

/// A line is read without the spaces at its end, but with everything else, and each of
/// its characters keeps its columns.
pub proof fn law_lines_end_without_spaces(row: Seq<CellView>)
    ensures
        ({
            let whole = row_text(row, row.len() as int);
            let line = read_line(row);
            let n = line.text.len() as int;
            &&& line.text.is_prefix_of(whole)
            &&& forall|i: int| n <= i < whole.len() ==> (#[trigger] whole[i]) == ' '
            &&& n > 0 ==> line.text[n - 1] != ' '
            &&& line.char_spans.len() == n
            &&& forall|i: int|
                0 <= i < n ==> (#[trigger] line.char_spans[i]) == row_spans(
                    row,
                    row.len() as int,
                )[i]
            &&& line.cell_count == row_columns(row, row.len() as int)
        }),
{
    let n = row.len() as int;
    lemma_row_spans_len(row, n);
    lemma_trailing_blanks(row_text(row, n));
}

proof fn lemma_trailing_blanks(text: Seq<char>)
    ensures
        ({
            let kept = without_trailing_blanks(text);
            &&& kept.is_prefix_of(text)
            &&& kept.len() <= text.len()
            &&& forall|i: int| kept.len() <= i < text.len() ==> (#[trigger] text[i]) == ' '
            &&& kept.len() > 0 ==> kept[kept.len() - 1] != ' '
        }),
    decreases text.len(),
{
    let kept = without_trailing_blanks(text);
    if text.len() > 0 && text.last() == ' ' {
        let less = text.drop_last();
        lemma_trailing_blanks(less);
        assert(kept =~= text.subrange(0, kept.len() as int)) by {
            assert(kept =~= less.subrange(0, kept.len() as int));
        }
        assert forall|i: int| kept.len() <= i < text.len() implies (#[trigger] text[i]) == ' ' by {
            if i < less.len() {
                assert(less[i] == text[i]);
            }
        }
    } else {
        assert(text =~= text.subrange(0, text.len() as int));
    }
}

/// The visible cells of a row that was rewritten hold the rewritten line, cut to the
/// columns of the cells.
pub proof fn law_rewritten_cells_hold_the_rewritten_line(
    row: Seq<CellView>,
    rules: Seq<OutputTransformRule>,
)
    ensures
        visible_texts(rewritten_row(row, rules), row.len() as int) == cell_texts(
            transformed(row_text(row, row.len() as int), rules),
            visible_widths(row, row.len() as int),
        ),
{
    let n = row.len() as int;
    lemma_cell_texts_columns(transformed(row_text(row, n), rules), visible_widths(row, n));
    lemma_rewritten_visible(row, rules, n);
    let all = rewritten_texts(row, rules);
    assert(all.take(visible_widths(row, n).len() as int) == all);
}

proof fn lemma_rewritten_visible(row: Seq<CellView>, rules: Seq<OutputTransformRule>, n: int)
    requires
        0 <= n <= row.len(),
        rewritten_texts(row, rules).len() == visible_widths(row, row.len() as int).len(),
    ensures
        visible_texts(rewritten_row(row, rules), n) == rewritten_texts(row, rules).take(
            visible_widths(row, n).len() as int,
        ),
        visible_widths(row, n).len() <= rewritten_texts(row, rules).len(),
    decreases n,
{
    let after = rewritten_row(row, rules);
    let all = rewritten_texts(row, rules);
    lemma_visible_before(row, n, row.len() as int);
    if n > 0 {
        lemma_rewritten_visible(row, rules, n - 1);
        lemma_visible_before(row, n - 1, row.len() as int);
        let k = visible_widths(row, n - 1).len() as int;
        if row[n - 1].wide_continuation {
            assert(after[n - 1].wide_continuation);
        } else {
            assert(!after[n - 1].wide_continuation);
            assert(after[n - 1].text == all[k]);
            assert(all.take(k).push(all[k]) == all.take(k + 1));
        }
    } else {
        assert(all.take(0) == Seq::<Seq<char>>::empty());
    }
}

/// Without rules the screen stays as it is; with rules each of its rows is rewritten
/// alone.
pub proof fn law_rows_are_rewritten_alone(
    rows: Seq<Seq<CellView>>,
    rules: Seq<OutputTransformRule>,
    y: int,
)
    requires
        0 <= y < rows.len(),
    ensures
        rewritten_screen(rows, rules).len() == rows.len(),
        rules.len() == 0 ==> rewritten_screen(rows, rules)[y] == rows[y],
        rules.len() > 0 ==> rewritten_screen(rows, rules)[y] == rewritten_row(rows[y], rules),
{
}

/// The cell at each position of the screen is the one that the terminal has there,
/// with a space for no text; a position without a cell is blank.
pub proof fn law_screen_holds_the_cells_of_the_terminal(
    size: (u16, u16),
    fed: Seq<Seq<u8>>,
    rows: u16,
    cols: u16,
    row: u16,
    col: u16,
)
    requires
        row < rows,
        col < cols,
    ensures
        ({
            let screen = screen_cells(size, fed, rows, cols);
            let cell = screen[row as int][col as int];
            let found = shown_cell(size, fed, row, col);
            &&& screen.len() == rows
            &&& screen[row as int].len() == cols
            &&& cell.text.len() > 0
            &&& found is Some ==> cell == (CellView { text: cell.text, ..found->Some_0 })
            &&& found is Some && found->Some_0.text.len() > 0 ==> cell.text == found->Some_0.text
            &&& found is None || found->Some_0.text.len() == 0 ==> cell.text == seq![' ']
            &&& found is None ==> cell == (CellView {
                text: seq![' '],
                fg: DisplayColor::Default,
                bg: DisplayColor::Default,
                bold: false,
                dim: false,
                italic: false,
                underline: false,
                inverse: false,
                wide_continuation: false,
            })
        }),
{
    reveal_strlit(" ");
    assert(" "@ == seq![' ']);
}

/// The cursor stands where the terminal has it, or on the last row or column of the
/// screen where it would lie outside.
pub proof fn law_cursor_stays_on_the_screen(
    position: (u16, u16),
    hidden: bool,
    rows: u16,
    cols: u16,
)
    ensures
        ({
            let cursor = placed_cursor(position, hidden, rows, cols);
            &&& cursor.cursor_visible == !hidden
            &&& position.0 < rows ==> cursor.cursor_row == position.0
            &&& 0 < rows <= position.0 ==> cursor.cursor_row == rows - 1
            &&& rows == 0 ==> cursor.cursor_row == 0
            &&& position.1 < cols ==> cursor.cursor_col == position.1
            &&& 0 < cols <= position.1 ==> cursor.cursor_col == cols - 1
            &&& cols == 0 ==> cursor.cursor_col == 0
        }),
{
}

/// The characters of a cell follow one another: the first starts where the cell
/// starts, each other where the one before it ends, and each takes its own columns, as
/// far as the cell goes.
pub proof fn law_characters_take_their_columns(text: Seq<char>, col: nat, limit: nat, i: int)
    requires
        col <= limit <= usize::MAX,
        0 <= i < text.len(),
    ensures
        ({
            let spans = cell_spans(text, col, limit);
            &&& spans.len() == text.len()
            &&& spans[0].0 == col
            &&& i + 1 < text.len() ==> spans[i + 1].0 == spans[i].1
            &&& spans[i].0 + columns(text[i]) <= limit ==> spans[i].1 == spans[i].0 + columns(
                text[i],
            )
            &&& spans[i].0 + columns(text[i]) > limit ==> spans[i].1 == limit
        }),
    decreases text.len(),
{
    lemma_cell_spans_len(text, col, limit);
    let end = span_end(text[0], col, limit);
    let rest = text.drop_first();
    let spans = cell_spans(text, col, limit);
    let later = cell_spans(rest, end, limit);
    if rest.len() > 0 {
        assert(spans[1] == later[0]);
        law_characters_take_their_columns(rest, end, limit, 0);
    }
    if i > 0 {
        law_characters_take_their_columns(rest, end, limit, i - 1);
        assert(spans[i] == later[i - 1]);
        assert(rest[i - 1] == text[i]);
        if i + 1 < text.len() {
            assert(spans[i + 1] == later[i]);
        }
    }
}

/// Each row is read as a line of its own.
pub proof fn law_rows_are_read_alone(rows: Seq<Seq<CellView>>, y: int)
    requires
        0 <= y < rows.len(),
    ensures
        read_lines(rows).len() == rows.len(),
        read_lines(rows)[y] == read_line(rows[y]),
{
}

} // verus!
