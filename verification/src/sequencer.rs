//! The control side of the sequencer: the commands it sends to the engine and
//! the rules by which clicks edit the grid.

use vstd::prelude::*;

use crate::instr::{empty_grid, grid_shaped, Board, Cells, Instrument, Note, MEAS_COUNT, NOTE_COUNT};
use crate::synth::Oscillator;

verus! {

/// Whether the sequencer is playing.
#[derive(Clone, Copy, Debug, PartialEq, Eq, Structural)]
pub enum AudioState {
    /// The engine plays the grid.
    Playing,
    /// The engine is stopped and the grid can be edited.
    Off,
}

/// A command for the engine.
#[derive(Debug)]
pub enum Messages {
    /// Start playing, with these cells laid over the engine's grid: each entry
    /// is a cell, its pitch row and its step.
    Play(Vec<(Note, usize, usize)>),
    /// Stop playing and forget the grid.
    Stop,
    /// From now on, keep what is played.
    Record,
    /// Set the tempo, in beats per minute.
    Tempo(u32),
    /// Set the waveform shape of every voice.
    Oscillator(Oscillator),
}

/// Whether the span that covers the cell at `row`, `step` lies within the
/// grid. An empty cell is covered by none.
pub open spec fn span_fits(cells: Cells, row: int, step: int) -> bool {
    match cells[row][step].starts_at {
        Some(start) => start < MEAS_COUNT && start + cells[row][start as int].duration
            <= MEAS_COUNT,
        None => true,
    }
}

/// Whether the cell at step `k` of `row` is as the spans of a row ask.
///
/// A covered cell names a first step at or before it, whose cell carries a
/// length that reaches it. A cell that carries a length is the first of a span
/// that lies within the row, and every cell of that span names it.
pub open spec fn cell_valid(row: Seq<Note>, k: int) -> bool {
    &&& row[k].starts_at matches Some(start) ==> start <= k && row[start as int].duration >= 1
        && k < start + row[start as int].duration
    &&& row[k].duration != 0 ==> k + row[k].duration <= row.len() && forall|j: int|
        k <= j < k + row[k].duration ==> (#[trigger] row[j]).starts_at == Some(k as usize)
}

/// Whether the spans of a row are well formed: every span lies within the
/// row, only its first cell carries its length, every cell of it names its
/// first step, and no two spans overlap.
pub open spec fn row_valid(row: Seq<Note>) -> bool {
    forall|k: int| 0 <= k < row.len() ==> #[trigger] cell_valid(row, k)
}

/// Whether the spans of every row of the grid are well formed.
pub open spec fn spans_valid(cells: Cells) -> bool {
    forall|row: int| 0 <= row < NOTE_COUNT ==> #[trigger] row_valid(cells[row])
}

/// In a row of well-formed spans no cell lies in two spans: two cells that
/// carry a length start spans that do not meet.
pub proof fn lemma_valid_spans_are_disjoint(row: Seq<Note>, one: int, other: int)
    requires
        row.len() == MEAS_COUNT,
        row_valid(row),
        0 <= one < other < MEAS_COUNT,
        row[one].duration != 0,
        row[other].duration != 0,
    ensures
        one + row[one].duration <= other,
{
    assert(cell_valid(row, one));
    assert(cell_valid(row, other));
    if one + row[one].duration > other {
        assert(row[other].starts_at == Some(one as usize));
        assert(row[other].starts_at == Some(other as usize));
    }
}

/// In a grid of well-formed spans every span lies within the grid.
pub proof fn lemma_valid_spans_fit(cells: Cells, row: int, step: int)
    requires
        grid_shaped(cells),
        spans_valid(cells),
        0 <= row < NOTE_COUNT,
        0 <= step < MEAS_COUNT,
    ensures
        span_fits(cells, row, step),
{
    assert(row_valid(cells[row]));
    assert(cell_valid(cells[row], step));
    if let Some(start) = cells[row][step].starts_at {
        assert(cell_valid(cells[row], start as int));
    }
}

/// Whether the spans of every row of the grid of `instr` are well formed.
pub fn spans_valid_in(instr: &Instrument) -> (valid: bool)
    ensures
        valid == spans_valid(instr@.cells),
{
    let ghost cells = instr@.cells;
    proof {
        instr.lemma_shaped();
    }
    let mut row: usize = 0;
    while row < NOTE_COUNT
        invariant
            row <= NOTE_COUNT,
            cells == instr@.cells,
            grid_shaped(cells),
            forall|r: int| 0 <= r < row ==> #[trigger] row_valid(cells[r]),
        decreases NOTE_COUNT - row,
    {
        let ghost cells_row = cells[row as int];
        let mut k: usize = 0;
        while k < MEAS_COUNT
            invariant
                row < NOTE_COUNT,
                k <= MEAS_COUNT,
                cells == instr@.cells,
                grid_shaped(cells),
                cells_row == cells[row as int],
                forall|x: int| 0 <= x < k ==> #[trigger] cell_valid(cells_row, x),
            decreases MEAS_COUNT - k,
        {
            let note = instr.get_note(row, k);
            if let Some(start) = note.starts_at {
                if start > k {
                    assert(!cell_valid(cells_row, k as int));
                    assert(!row_valid(cells[row as int]));
                    return false;
                }
                let duration = instr.get_note(row, start).duration;
                if duration < 1 || duration <= k - start {
                    assert(!cell_valid(cells_row, k as int));
                    assert(!row_valid(cells[row as int]));
                    return false;
                }
            }
            if note.duration != 0 {
                if note.duration > MEAS_COUNT - k {
                    assert(!cell_valid(cells_row, k as int));
                    assert(!row_valid(cells[row as int]));
                    return false;
                }
                let mut j: usize = k;
                while j < k + note.duration
                    invariant
                        row < NOTE_COUNT,
                        k < MEAS_COUNT,
                        k <= j <= k + note.duration <= MEAS_COUNT,
                        cells == instr@.cells,
                        grid_shaped(cells),
                        cells_row == cells[row as int],
                        note == cells_row[k as int],
                        forall|x: int|
                            k <= x < j ==> (#[trigger] cells_row[x]).starts_at == Some(k),
                    decreases k + note.duration - j,
                {
                    let names = match instr.get_note(row, j).starts_at {
                        Some(start) => start == k,
                        None => false,
                    };
                    if !names {
                        assert(cells_row[j as int].starts_at != Some(k));
                        assert(!cell_valid(cells_row, k as int));
                        assert(!row_valid(cells[row as int]));
                        return false;
                    }
                    j += 1;
                }
            }
            assert(cell_valid(cells_row, k as int));
            k += 1;
        }
        row += 1;
    }
    true
}

/// A row with the `len` cells from `start` on emptied.
pub open spec fn erased(row: Seq<Note>, start: int, len: int) -> Seq<Note> {
    Seq::new(
        row.len(),
        |k: int|
            if start <= k < start + len {
                Note::empty()
            } else {
                row[k]
            },
    )
}

/// First step of what a span over steps from `lo` on would overlap: the first
/// step of the span that covers `lo`, or `lo` itself.
pub open spec fn overlap_from(row: Seq<Note>, lo: int) -> int {
    match row[lo].starts_at {
        Some(start) => if start < lo {
            start as int
        } else {
            lo
        },
        None => lo,
    }
}

/// Step after the last of what a span over steps up to `hi` would overlap:
/// the end of the span that covers `hi`, or the step after `hi`.
pub open spec fn overlap_until(row: Seq<Note>, hi: int) -> int {
    match row[hi].starts_at {
        Some(start) => if start + row[start as int].duration > hi + 1 {
            start + row[start as int].duration
        } else {
            hi + 1
        },
        None => hi + 1,
    }
}

/// A row without the spans that a span from step `lo` to step `hi` would
/// overlap: every cell is emptied from the first step of the span that covers
/// `lo` to the last step of the span that covers `hi`.
pub open spec fn without_spans_over(row: Seq<Note>, lo: int, hi: int) -> Seq<Note> {
    erased(row, overlap_from(row, lo), overlap_until(row, hi) - overlap_from(row, lo))
}

/// A row with a span marked from step `first` to step `last`: the cell at
/// `first` carries the length, every cell of the span names `first`.
pub open spec fn marked(row: Seq<Note>, first: int, last: int) -> Seq<Note> {
    marked_upto(row, first, last, last + 1)
}

/// A row in which the marking of a span from `first` to `last` has come as far
/// as step `upto`: the length is written, the cells before `upto` name `first`.
pub open spec fn marked_upto(row: Seq<Note>, first: int, last: int, upto: int) -> Seq<Note> {
    Seq::new(
        row.len(),
        |k: int|
            Note {
                duration: if k == first {
                    (last - first + 1) as usize
                } else {
                    row[k].duration
                },
                starts_at: if first <= k < upto {
                    Some(first as usize)
                } else {
                    row[k].starts_at
                },
            },
    )
}

/// Whether a click on `row`, `step` completes a span: a click is pending in
/// the same row at or before `step`.
pub open spec fn completes_span(board: Board, row: int, step: int) -> bool {
    board.last_clicked matches Some((pending_row, pending_step)) && pending_row == row
        && pending_step <= step
}

/// Step of the pending click; 0 where none is pending.
pub open spec fn pending_step(board: Board) -> int {
    match board.last_clicked {
        Some((_, step)) => step as int,
        None => 0,
    }
}

/// The board after a click on the cell at `row`, `step`.
///
/// With a click pending in the same row at or before `step`, every span that
/// a span from there to here would overlap is erased, and that span is
/// marked. Otherwise the span that covers the cell, if any, is erased; then
/// this click is pending, unless one was pending in another row, after which
/// none is.
pub open spec fn clicked(board: Board, row: int, step: int) -> Board {
    let before = board.cells[row];
    match board.last_clicked {
        Some((pending_row, pending_step)) => if pending_row == row {
            if pending_step <= step {
                Board {
                    cells: board.cells.update(
                        row,
                        marked(
                            without_spans_over(before, pending_step as int, step),
                            pending_step as int,
                            step,
                        ),
                    ),
                    last_clicked: None,
                }
            } else {
                Board {
                    cells: board.cells.update(row, without_spans_over(before, step, step)),
                    last_clicked: Some((row as usize, step as usize)),
                }
            }
        } else {
            Board {
                cells: board.cells.update(row, without_spans_over(before, step, step)),
                last_clicked: None,
            }
        },
        None => Board {
            cells: board.cells.update(row, without_spans_over(before, step, step)),
            last_clicked: Some((row as usize, step as usize)),
        },
    }
}

/// Whether `row` holds a span of `len` steps from step `first`: the first
/// cell carries the length, every cell of the span names the first step, and
/// no other cell of the span carries a length.
pub open spec fn covers(row: Seq<Note>, first: int, len: int) -> bool {
    &&& 0 <= first
    &&& 1 <= len
    &&& first + len <= row.len()
    &&& row[first] == Note { duration: len as usize, starts_at: Some(first as usize) }
    &&& forall|k: int|
        first < k < first + len ==> #[trigger] row[k] == Note {
            duration: 0,
            starts_at: Some(first as usize),
        }
}

/// Erasing what a span from `lo` to `hi` would overlap takes whole spans out
/// of a row of well-formed spans: the row stays well formed, and every step
/// from `lo` to `hi` is empty.
pub proof fn lemma_erase_keeps_valid(row: Seq<Note>, lo: int, hi: int)
    requires
        row.len() == MEAS_COUNT,
        row_valid(row),
        0 <= lo <= hi < MEAS_COUNT,
    ensures
        row_valid(without_spans_over(row, lo, hi)),
        0 <= overlap_from(row, lo) <= lo,
        hi < overlap_until(row, hi) <= MEAS_COUNT,
        forall|k: int|
            lo <= k <= hi ==> (#[trigger] without_spans_over(row, lo, hi)[k]) == Note::empty(),
{
    let a = overlap_from(row, lo);
    let b = overlap_until(row, hi);
    let after = without_spans_over(row, lo, hi);
    assert(cell_valid(row, lo));
    assert(cell_valid(row, hi));
    if let Some(start) = row[hi].starts_at {
        assert(cell_valid(row, start as int));
    }
    if let Some(start) = row[lo].starts_at {
        assert(cell_valid(row, start as int));
        assert(row[start as int].starts_at == Some(start));
    }
    // No span begins before `a` and goes on past it.
    assert forall|s: int| 0 <= s < a && row[s].duration != 0 implies s + row[s].duration
        <= a by {
        assert(cell_valid(row, s));
        if s + row[s].duration > a {
            assert(row[a].starts_at == Some(s as usize));
        }
    }
    // No span begins before `b` and goes on past it.
    assert forall|s: int| 0 <= s < b && row[s].duration != 0 implies s + row[s].duration
        <= b by {
        assert(cell_valid(row, s));
        if s + row[s].duration > b {
            assert(row[b - 1].starts_at == Some(s as usize));
            assert(row[hi].starts_at == Some(s as usize));
        }
    }
    assert forall|k: int| 0 <= k < after.len() implies #[trigger] cell_valid(after, k) by {
        assert(cell_valid(row, k));
        if !(a <= k < b) {
            assert(after[k] == row[k]);
            if let Some(start) = row[k].starts_at {
                assert(cell_valid(row, start as int));
                assert(!(a <= start < b));
                assert(after[start as int] == row[start as int]);
            }
            if row[k].duration != 0 {
                assert forall|j: int| k <= j < k + after[k].duration implies (
                #[trigger] after[j]).starts_at == Some(k as usize) by {
                    assert(row[j].starts_at == Some(k as usize));
                    assert(!(a <= j < b));
                }
            }
        }
    }
}

/// Marking a span over empty steps keeps a row of well-formed spans well
/// formed, and the row then holds that span.
pub proof fn lemma_mark_keeps_valid(row: Seq<Note>, first: int, last: int)
    requires
        row.len() == MEAS_COUNT,
        row_valid(row),
        0 <= first <= last < MEAS_COUNT,
        forall|k: int| first <= k <= last ==> (#[trigger] row[k]) == Note::empty(),
    ensures
        row_valid(marked(row, first, last)),
        covers(marked(row, first, last), first, last - first + 1),
{
    let after = marked(row, first, last);
    assert forall|k: int| 0 <= k < after.len() implies #[trigger] cell_valid(after, k) by {
        assert(cell_valid(row, k));
        if first <= k <= last {
            assert(row[k] == Note::empty());
            if k == first {
                assert forall|j: int| k <= j < k + after[k].duration implies (
                #[trigger] after[j]).starts_at == Some(k as usize) by {}
            }
        } else {
            assert(after[k] == row[k]);
            if let Some(start) = row[k].starts_at {
                if first <= start <= last {
                    assert(row[start as int] == Note::empty());
                }
                assert(after[start as int] == row[start as int]);
            }
            if row[k].duration != 0 {
                assert forall|j: int| k <= j < k + after[k].duration implies (
                #[trigger] after[j]).starts_at == Some(k as usize) by {
                    assert(row[j].starts_at == Some(k as usize));
                    if first <= j <= last {
                        assert(row[j] == Note::empty());
                    }
                }
            }
        }
    }
    assert forall|k: int| first < k < first + (last - first + 1) implies #[trigger] after[k]
        == (Note { duration: 0, starts_at: Some(first as usize) }) by {
        assert(row[k] == Note::empty());
    }
}

/// A click keeps the spans of the grid well formed.
pub proof fn lemma_click_keeps_valid(board: Board, row: int, step: int)
    requires
        grid_shaped(board.cells),
        spans_valid(board.cells),
        0 <= row < NOTE_COUNT,
        0 <= step < MEAS_COUNT,
    ensures
        grid_shaped(clicked(board, row, step).cells),
        spans_valid(clicked(board, row, step).cells),
{
    let before = board.cells[row];
    let after = clicked(board, row, step).cells;
    assert(row_valid(before));
    if completes_span(board, row, step) {
        let first = pending_step(board);
        lemma_erase_keeps_valid(before, first, step);
        lemma_mark_keeps_valid(without_spans_over(before, first, step), first, step);
    } else {
        lemma_erase_keeps_valid(before, step, step);
    }
    assert(row_valid(after[row]));
    assert forall|r: int| 0 <= r < NOTE_COUNT implies #[trigger] row_valid(after[r]) by {
        if r != row {
            assert(after[r] == board.cells[r]);
            assert(row_valid(board.cells[r]));
        }
    }
    assert(grid_shaped(after));
}

/// A span marked by a click is one that the grid then holds: where a click
/// is pending in the row at or before `step`, the row holds the span from
/// there to `step` after the click, whatever it held before.
pub proof fn lemma_click_marks_a_span(board: Board, row: int, step: int)
    requires
        grid_shaped(board.cells),
        spans_valid(board.cells),
        0 <= row < NOTE_COUNT,
        0 <= step < MEAS_COUNT,
        completes_span(board, row, step),
    ensures
        covers(
            clicked(board, row, step).cells[row],
            pending_step(board),
            step - pending_step(board) + 1,
        ),
        clicked(board, row, step).last_clicked.is_none(),
{
    let before = board.cells[row];
    let first = pending_step(board);
    assert(row_valid(before));
    lemma_erase_keeps_valid(before, first, step);
    lemma_mark_keeps_valid(without_spans_over(before, first, step), first, step);
}

/// Two clicks in a row, the second at or after the first, mark the span from
/// the one to the other, whatever the row held before.
pub proof fn lemma_two_clicks_mark_a_span(board: Board, row: int, first: int, last: int)
    requires
        grid_shaped(board.cells),
        spans_valid(board.cells),
        0 <= row < NOTE_COUNT,
        0 <= first <= last < MEAS_COUNT,
        board.last_clicked.is_none(),
    ensures
        covers(clicked(clicked(board, row, first), row, last).cells[row], first, last - first + 1),
        clicked(clicked(board, row, first), row, last).last_clicked.is_none(),
{
    let once = clicked(board, row, first);
    lemma_click_keeps_valid(board, row, first);
    assert(once.last_clicked == Some((row as usize, first as usize)));
    lemma_click_marks_a_span(once, row, last);
}

/// Empties the cells of row `row` from step `from` up to, not including,
/// step `until`.
fn erase_cells(instr: &mut Instrument, row: usize, from: usize, until: usize)
    requires
        row < NOTE_COUNT,
        from <= until <= MEAS_COUNT,
    ensures
        final(instr)@.last_clicked == old(instr)@.last_clicked,
        final(instr)@.cells == old(instr)@.cells.update(
            row as int,
            erased(old(instr)@.cells[row as int], from as int, until - from),
        ),
    no_unwind
{
    proof {
        instr.lemma_shaped();
    }
    let ghost before = instr@.cells[row as int];
    assert(erased(before, from as int, 0) =~= before);
    assert(instr@.cells =~= old(instr)@.cells.update(row as int, erased(before, from as int, 0)));
    let mut i: usize = from;
    while i < until
        invariant
            row < NOTE_COUNT,
            from <= i <= until <= MEAS_COUNT,
            grid_shaped(old(instr)@.cells),
            before == old(instr)@.cells[row as int],
            instr@.last_clicked == old(instr)@.last_clicked,
            instr@.cells == old(instr)@.cells.update(
                row as int,
                erased(before, from as int, i - from),
            ),
        decreases until - i,
    {
        *instr.get_note_mut(row, i) = Note { duration: 0, starts_at: None };
        proof {
            assert(erased(before, from as int, i - from).update(i as int, Note::empty())
                =~= erased(before, from as int, i - from + 1));
        }
        i += 1;
    }
}

/// Marks a span in row `row` from step `first` to step `last`.
fn mark_cells(instr: &mut Instrument, row: usize, first: usize, last: usize)
    requires
        row < NOTE_COUNT,
        first <= last < MEAS_COUNT,
    ensures
        final(instr)@.last_clicked == old(instr)@.last_clicked,
        final(instr)@.cells == old(instr)@.cells.update(
            row as int,
            marked(old(instr)@.cells[row as int], first as int, last as int),
        ),
    no_unwind
{
    proof {
        instr.lemma_shaped();
    }
    let ghost before = instr@.cells[row as int];
    instr.get_note_mut(row, first).duration = last - first + 1;
    assert(instr@.cells[row as int] =~= marked_upto(
        before,
        first as int,
        last as int,
        first as int,
    ));
    let mut i: usize = first;
    while i <= last
        invariant
            row < NOTE_COUNT,
            first <= i <= last + 1,
            last < MEAS_COUNT,
            grid_shaped(old(instr)@.cells),
            before == old(instr)@.cells[row as int],
            instr@.last_clicked == old(instr)@.last_clicked,
            instr@.cells == old(instr)@.cells.update(
                row as int,
                marked_upto(before, first as int, last as int, i as int),
            ),
        decreases last + 1 - i,
    {
        instr.get_note_mut(row, i).starts_at = Some(first);
        proof {
            assert(instr@.cells[row as int] =~= marked_upto(
                before,
                first as int,
                last as int,
                i as int + 1,
            ));
        }
        i += 1;
    }
}

/// Handles a click on the cell at row `note_num`, step `meas_num`.
pub fn handle_note_button_click(instr: &mut Instrument, note_num: usize, meas_num: usize)
    requires
        note_num < NOTE_COUNT,
        meas_num < MEAS_COUNT,
        span_fits(old(instr)@.cells, note_num as int, meas_num as int),
    ensures
        final(instr)@ == clicked(old(instr)@, note_num as int, meas_num as int),
    no_unwind
{
    proof {
        instr.lemma_shaped();
    }
    let ghost before = instr@.cells[note_num as int];
    let pending = instr.last_clicked();
    let first = match pending {
        Some(last) => if last.0 == note_num && last.1 <= meas_num {
            Some(last.1)
        } else {
            None
        },
        None => None,
    };
    let lo = match first {
        Some(step) => step,
        None => meas_num,
    };

    // Whatever the new span, or the click, would overlap is erased.
    let from = match instr.get_note(note_num, lo).starts_at {
        Some(start) => if start < lo {
            start
        } else {
            lo
        },
        None => lo,
    };
    let until = match instr.get_note(note_num, meas_num).starts_at {
        Some(start) => {
            let end = start + instr.get_note(note_num, start).duration;
            if end > meas_num + 1 {
                end
            } else {
                meas_num + 1
            }
        },
        None => meas_num + 1,
    };
    assert(from == overlap_from(before, lo as int));
    assert(until == overlap_until(before, meas_num as int));
    erase_cells(instr, note_num, from, until);
    assert(instr@.cells[note_num as int] == without_spans_over(
        before,
        lo as int,
        meas_num as int,
    ));

    match first {
        Some(start) => {
            mark_cells(instr, note_num, start, meas_num);
            instr.set_last_clicked(None);
        },
        None => {
            match pending {
                Some(last) => if last.0 == note_num {
                    instr.set_last_clicked(Some((note_num, meas_num)));
                } else {
                    instr.set_last_clicked(None);
                },
                None => {
                    instr.set_last_clicked(Some((note_num, meas_num)));
                },
            }
        },
    }
    assert(instr@.cells =~= clicked(old(instr)@, note_num as int, meas_num as int).cells);
}

/// What the button of a cell shows.
#[derive(Clone, Copy, Debug, PartialEq, Eq, Structural)]
pub enum Glyph {
    /// The span goes on after this cell.
    Continues,
    /// The span ends in this cell; also the shape of an empty cell.
    Ends,
    /// A first click waits here for the second.
    Pending,
}

/// Look of the button of a cell.
#[derive(Clone, Copy, Debug, PartialEq, Eq, Structural)]
pub struct ButtonText {
    /// The shape shown.
    pub glyph: Glyph,
    /// Whether the shape is lit, or blends with the background.
    pub lit: bool,
}

/// Look of the button of the cell at `row`, `step`.
pub open spec fn button_text(board: Board, row: int, step: int) -> ButtonText {
    let note = board.cells[row][step];
    let pending = board.last_clicked == Some((row as usize, step as usize));
    ButtonText {
        glyph: match note.starts_at {
            Some(start) => if board.cells[row][start as int].duration + start - 1 != step {
                Glyph::Continues
            } else {
                Glyph::Ends
            },
            None => if pending {
                Glyph::Pending
            } else {
                Glyph::Ends
            },
        },
        lit: note.duration > 0 || note.starts_at.is_some() || pending,
    }
}

/// Look of the button of the cell at row `note_num`, step `meas_num`.
pub fn get_note_button_text(instr: &Instrument, note_num: usize, meas_num: usize) -> (text:
    ButtonText)
    requires
        note_num < NOTE_COUNT,
        meas_num < MEAS_COUNT,
        instr@.cells[note_num as int][meas_num as int].starts_at matches Some(start) ==> start
            < MEAS_COUNT,
    ensures
        text == button_text(instr@, note_num as int, meas_num as int),
{
    let note = instr.get_note(note_num, meas_num);
    let pending = match instr.last_clicked() {
        Some(last) => last.0 == note_num && last.1 == meas_num,
        None => false,
    };
    let glyph = if let Some(start_ind) = note.starts_at {
        let duration = instr.get_note(note_num, start_ind).duration;
        if start_ind <= meas_num + 1 && duration == meas_num + 1 - start_ind {
            Glyph::Ends
        } else {
            Glyph::Continues
        }
    } else if pending {
        Glyph::Pending
    } else {
        Glyph::Ends
    };
    ButtonText { glyph, lit: note.duration > 0 || note.starts_at.is_some() || pending }
}

/// The cell at place `k` of the grid read row after row, with its row and step.
pub open spec fn entry_at(cells: Cells, k: int) -> (Note, usize, usize) {
    (
        cells[k / MEAS_COUNT as int][k % MEAS_COUNT as int],
        (k / MEAS_COUNT as int) as usize,
        (k % MEAS_COUNT as int) as usize,
    )
}

/// Every cell of the grid with its row and step, row after row.
pub open spec fn all_entries(cells: Cells) -> Seq<(Note, usize, usize)> {
    Seq::new((NOTE_COUNT * MEAS_COUNT) as nat, |k: int| entry_at(cells, k))
}

/// Whether the cell of an entry holds anything.
pub open spec fn is_marked(entry: (Note, usize, usize)) -> bool {
    entry.0 != Note::empty()
}

/// The cells among the first `upto` of the grid that hold anything.
pub open spec fn changed_upto(cells: Cells, upto: int) -> Seq<(Note, usize, usize)> {
    all_entries(cells).take(upto).filter(holds_anything())
}

/// `is_marked` as a predicate to filter by.
pub open spec fn holds_anything() -> spec_fn((Note, usize, usize)) -> bool {
    |entry: (Note, usize, usize)| is_marked(entry)
}

/// The cells of the grid that hold anything, each with its row and step, row
/// after row.
pub open spec fn changed_cells(cells: Cells) -> Seq<(Note, usize, usize)> {
    changed_upto(cells, NOTE_COUNT * MEAS_COUNT)
}

/// One more cell is one more entry where it holds anything, and none where
/// it is empty.
pub proof fn lemma_changed_step(cells: Cells, k: int)
    requires
        0 <= k < NOTE_COUNT * MEAS_COUNT,
    ensures
        changed_upto(cells, k + 1) == if is_marked(entry_at(cells, k)) {
            changed_upto(cells, k).push(entry_at(cells, k))
        } else {
            changed_upto(cells, k)
        },
{
    let upto = all_entries(cells).take(k + 1);
    let pred = holds_anything();
    assert(upto.drop_last() =~= all_entries(cells).take(k));
    assert(upto.last() == entry_at(cells, k));
    assert(pred(upto.last()) == is_marked(entry_at(cells, k)));
    assert(upto.filter(pred) == if pred(upto.last()) {
        upto.drop_last().filter(pred).push(upto.last())
    } else {
        upto.drop_last().filter(pred)
    }) by {
        reveal_with_fuel(Seq::filter, 2);
    }
}

/// The command that starts the engine on the grid of `instr`: it carries
/// every cell that holds anything.
pub fn send_instrument_state(instr: &Instrument) -> (msg: Messages)
    ensures
        msg matches Messages::Play(changed) && changed@ == changed_cells(instr@.cells),
{
    let mut changed_notes: Vec<(Note, usize, usize)> = Vec::new();
    let ghost cells = instr@.cells;
    let mut i: usize = 0;
    assert(all_entries(cells).take(0) =~= Seq::empty());
    while i < NOTE_COUNT
        invariant
            i <= NOTE_COUNT,
            cells == instr@.cells,
            changed_notes@ == changed_upto(cells, i * MEAS_COUNT),
        decreases NOTE_COUNT - i,
    {
        let mut j: usize = 0;
        while j < MEAS_COUNT
            invariant
                i < NOTE_COUNT,
                j <= MEAS_COUNT,
                cells == instr@.cells,
                changed_notes@ == changed_upto(cells, i * MEAS_COUNT + j),
            decreases MEAS_COUNT - j,
        {
            let note = instr.get_note(i, j);
            proof {
                let k = i * MEAS_COUNT + j;
                lemma_changed_step(cells, k);
                assert(k / MEAS_COUNT as int == i && k % MEAS_COUNT as int == j);
                assert(entry_at(cells, k) == (note, i, j));
            }
            if note.duration != 0 || note.starts_at.is_some() {
                changed_notes.push((note, i, j));
            }
            j += 1;
        }
        i += 1;
    }
    Messages::Play(changed_notes)
}

/// Slowest tempo that the sequencer offers, in beats per minute.
pub const MIN_TEMPO: u32 = 1;

/// Fastest tempo that the sequencer offers, in beats per minute.
pub const MAX_TEMPO: u32 = 240;

/// `bpm` brought into the range that the sequencer offers.
pub open spec fn clamped_tempo(bpm: nat) -> nat {
    if bpm < MIN_TEMPO {
        MIN_TEMPO as nat
    } else if bpm > MAX_TEMPO {
        MAX_TEMPO as nat
    } else {
        bpm
    }
}

/// The state of a [`StepSequencer`], as mathematics.
pub struct Desk {
    /// The grid and the pending click.
    pub board: Board,
    /// The waveform shape that the sequencer was set up with.
    pub osc: Oscillator,
    /// Beats per minute.
    pub tempo: nat,
    /// Whether the sequencer plays.
    pub audio_state: AudioState,
    /// Whether the sequencer records.
    pub recording: bool,
}

impl Desk {
    /// The grid has its shape, its spans are well formed, and the tempo is
    /// one that the sequencer offers.
    pub open spec fn wf(self) -> bool {
        &&& grid_shaped(self.board.cells)
        &&& spans_valid(self.board.cells)
        &&& MIN_TEMPO <= self.tempo <= MAX_TEMPO
    }

    /// The state of a new sequencer: an empty grid, no click pending, the
    /// sine shape, tempo 60, stopped and not recording.
    pub open spec fn initial() -> Desk {
        Desk {
            board: Board { cells: empty_grid(), last_clicked: None },
            osc: Oscillator::Sin,
            tempo: 60,
            audio_state: AudioState::Off,
            recording: false,
        }
    }

    /// The state after the play button is pressed.
    pub open spec fn toggled(self) -> Desk {
        match self.audio_state {
            AudioState::Playing => Desk { audio_state: AudioState::Off, recording: false, ..self },
            AudioState::Off => Desk { audio_state: AudioState::Playing, ..self },
        }
    }

    /// The state after the record button is pressed; it does nothing while
    /// the sequencer records.
    pub open spec fn recording_started(self) -> Desk {
        if self.recording {
            self
        } else {
            Desk { recording: true, audio_state: AudioState::Playing, ..self }
        }
    }

    /// The state after a click on a cell; the grid is locked while the
    /// sequencer plays.
    pub open spec fn clicked(self, row: int, step: int) -> Desk {
        match self.audio_state {
            AudioState::Playing => self,
            AudioState::Off => Desk { board: clicked(self.board, row, step), ..self },
        }
    }
}

/// The sequencer as its user sees it: the grid, the tempo, and whether it
/// plays and records.
pub struct StepSequencer {
    instr: Instrument,
    osc: Oscillator,
    tempo: u32,
    audio_state: AudioState,
    recording: bool,
}

impl View for StepSequencer {
    type V = Desk;

    closed spec fn view(&self) -> Desk {
        Desk {
            board: self.instr@,
            osc: self.osc,
            tempo: self.tempo as nat,
            audio_state: self.audio_state,
            recording: self.recording,
        }
    }
}

impl StepSequencer {
    /// Every sequencer in hand is well formed.
    #[verifier::type_invariant]
    pub open spec fn wf(&self) -> bool {
        self@.wf()
    }

    /// A sequencer with an empty grid, stopped, at tempo 60.
    pub fn new() -> (seq: StepSequencer)
        ensures
            seq@ == Desk::initial(),
    {
        let instr = Instrument::default();
        proof {
            instr.lemma_shaped();
            assert forall|row: int| 0 <= row < NOTE_COUNT implies #[trigger] row_valid(
                instr@.cells[row],
            ) by {
                assert forall|k: int| 0 <= k < MEAS_COUNT implies #[trigger] cell_valid(
                    instr@.cells[row],
                    k,
                ) by {}
            }
        }
        StepSequencer {
            instr,
            osc: Oscillator::Sin,
            tempo: 60,
            audio_state: AudioState::Off,
            recording: false,
        }
    }

    /// A stopped sequencer at tempo 60 on a grid and a waveform shape kept
    /// from before; none where the spans of the grid are not well formed.
    pub fn restore(instr: Instrument, osc: Oscillator) -> (seq: Option<StepSequencer>)
        ensures
            seq is Some <==> spans_valid(instr@.cells),
            seq matches Some(s) ==> s@ == (Desk {
                board: instr@,
                osc,
                tempo: 60,
                audio_state: AudioState::Off,
                recording: false,
            }),
    {
        if spans_valid_in(&instr) {
            proof {
                instr.lemma_shaped();
            }
            Some(
                StepSequencer {
                    instr,
                    osc,
                    tempo: 60,
                    audio_state: AudioState::Off,
                    recording: false,
                },
            )
        } else {
            None
        }
    }

    /// The grid and the pending click.
    pub fn instr(&self) -> (instr: &Instrument)
        ensures
            instr@ == self@.board,
    {
        &self.instr
    }

    /// The waveform shape that the sequencer was set up with.
    pub fn oscillator(&self) -> (osc: Oscillator)
        ensures
            osc == self@.osc,
    {
        self.osc
    }

    /// Beats per minute.
    pub fn tempo(&self) -> (tempo: u32)
        ensures
            tempo == self@.tempo,
            MIN_TEMPO <= tempo <= MAX_TEMPO,
    {
        proof {
            use_type_invariant(self);
        }
        self.tempo
    }

    /// Whether the sequencer plays.
    pub fn audio_state(&self) -> (state: AudioState)
        ensures
            state == self@.audio_state,
    {
        self.audio_state
    }

    /// Whether the sequencer records.
    pub fn recording(&self) -> (recording: bool)
        ensures
            recording == self@.recording,
    {
        self.recording
    }

    /// Handles a click on the cell at row `note_num`, step `meas_num`.
    pub fn click(&mut self, note_num: usize, meas_num: usize)
        requires
            note_num < NOTE_COUNT,
            meas_num < MEAS_COUNT,
        ensures
            final(self)@ == old(self)@.clicked(note_num as int, meas_num as int),
    {
        proof {
            use_type_invariant(&*self);
            lemma_valid_spans_fit(self.instr@.cells, note_num as int, meas_num as int);
            lemma_click_keeps_valid(self.instr@, note_num as int, meas_num as int);
        }
        match self.audio_state {
            AudioState::Playing => {},
            AudioState::Off => {
                handle_note_button_click(&mut self.instr, note_num, meas_num);
            },
        }
    }

    /// Handles the play button: stops a playing sequencer, which also ends
    /// its recording, and starts a stopped one on its grid. Returns the
    /// command for the engine.
    pub fn toggle_play(&mut self) -> (msg: Messages)
        ensures
            final(self)@ == old(self)@.toggled(),
            match old(self)@.audio_state {
                AudioState::Playing => msg is Stop,
                AudioState::Off => msg matches Messages::Play(changed) && changed@
                    == changed_cells(old(self)@.board.cells),
            },
    {
        proof {
            use_type_invariant(&*self);
        }
        match self.audio_state {
            AudioState::Playing => {
                self.audio_state = AudioState::Off;
                self.recording = false;
                Messages::Stop
            },
            AudioState::Off => {
                self.audio_state = AudioState::Playing;
                send_instrument_state(&self.instr)
            },
        }
    }

    /// Handles the record button: starts recording and playing. Returns the
    /// commands for the engine, in order; none while the sequencer records.
    pub fn start_recording(&mut self) -> (msgs: Vec<Messages>)
        ensures
            final(self)@ == old(self)@.recording_started(),
            old(self)@.recording ==> msgs@.len() == 0,
            !old(self)@.recording ==> msgs@.len() == 2 && msgs@[0] is Record && (
            msgs@[1] matches Messages::Play(changed) && changed@ == changed_cells(
                old(self)@.board.cells,
            )),
    {
        proof {
            use_type_invariant(&*self);
        }
        let mut msgs: Vec<Messages> = Vec::new();
        if !self.recording {
            self.recording = true;
            self.audio_state = AudioState::Playing;
            msgs.push(Messages::Record);
            msgs.push(send_instrument_state(&self.instr));
        }
        msgs
    }

    /// Sets the tempo to `bpm` brought into range. Returns the command for
    /// the engine if the tempo has changed.
    pub fn set_tempo(&mut self, bpm: u32) -> (msg: Option<Messages>)
        ensures
            final(self)@ == (Desk { tempo: clamped_tempo(bpm as nat), ..old(self)@ }),
            match msg {
                Some(m) => m matches Messages::Tempo(sent) && sent == clamped_tempo(bpm as nat)
                    && sent != old(self)@.tempo,
                None => clamped_tempo(bpm as nat) == old(self)@.tempo,
            },
    {
        proof {
            use_type_invariant(&*self);
        }
        let tempo = if bpm < MIN_TEMPO {
            MIN_TEMPO
        } else if bpm > MAX_TEMPO {
            MAX_TEMPO
        } else {
            bpm
        };
        if tempo != self.tempo {
            self.tempo = tempo;
            Some(Messages::Tempo(tempo))
        } else {
            None
        }
    }

    /// Handles a choice of waveform shape: returns the command for the engine
    /// if `chosen` differs from the shape that the sequencer was set up with.
    /// The sequencer itself keeps that shape.
    pub fn choose_oscillator(&self, chosen: Oscillator) -> (msg: Option<Messages>)
        ensures
            match msg {
                Some(m) => m matches Messages::Oscillator(sent) && sent == chosen && chosen
                    != self@.osc,
                None => chosen == self@.osc,
            },
    {
        if chosen != self.osc {
            Some(Messages::Oscillator(chosen))
        } else {
            None
        }
    }
}

impl Default for StepSequencer {
    /// A sequencer with an empty grid, stopped, at tempo 60.
    fn default() -> (seq: StepSequencer)
        ensures
            seq@ == Desk::initial(),
    {
        StepSequencer::new()
    }
}

} // verus!
