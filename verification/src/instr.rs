//! The note grid: one row per pitch, one column per step, and the names of
//! the pitches.

use vstd::prelude::*;

verus! {

/// Number of steps (columns) in the grid.
pub const MEAS_COUNT: usize = 32;

/// Number of pitch rows in the grid.
pub const NOTE_COUNT: usize = 107;

/// Pitch identity of row 0. Row `r` sounds pitch `r + LOWEST_PITCH`.
pub const LOWEST_PITCH: usize = 21;

/// One cell of the grid.
///
/// A span of `d` steps that starts at step `s` marks every cell it covers with
/// `starts_at == Some(s)`; only the cell at `s` carries `duration == d`.
#[derive(Clone, Copy, Debug, PartialEq, Eq, Structural)]
pub struct Note {
    /// Length of the span that starts here, in steps; 0 where none starts.
    pub duration: usize,
    /// First step of the span that covers this cell.
    pub starts_at: Option<usize>,
}

impl Note {
    /// The empty cell.
    pub open spec fn empty() -> Note {
        Note { duration: 0, starts_at: None }
    }
}

impl Default for Note {
    fn default() -> (r: Note)
        ensures
            r == Note::empty(),
    {
        Note { duration: 0, starts_at: None }
    }
}

/// A grid of cells as mathematics: `grid[row][step]`.
pub type Cells = Seq<Seq<Note>>;

/// `cells` has `NOTE_COUNT` rows of `MEAS_COUNT` cells.
pub open spec fn grid_shaped(cells: Cells) -> bool {
    &&& cells.len() == NOTE_COUNT
    &&& forall|i: int| 0 <= i < NOTE_COUNT ==> (#[trigger] cells[i]).len() == MEAS_COUNT
}

/// The grid in which every cell is empty.
pub open spec fn empty_grid() -> Cells {
    Seq::new(NOTE_COUNT as nat, |i: int| Seq::new(MEAS_COUNT as nat, |j: int| Note::empty()))
}

/// The grid held row after row in one sequence of `NOTE_COUNT * MEAS_COUNT` cells.
pub open spec fn grid_of(flat: Seq<Note>) -> Cells {
    Seq::new(
        NOTE_COUNT as nat,
        |i: int| Seq::new(MEAS_COUNT as nat, |j: int| flat[i * MEAS_COUNT + j]),
    )
}

/// Writing one cell of the flat sequence writes that cell of the grid and no other.
pub proof fn lemma_grid_update(flat: Seq<Note>, i: int, j: int, note: Note)
    requires
        flat.len() == NOTE_COUNT * MEAS_COUNT,
        0 <= i < NOTE_COUNT,
        0 <= j < MEAS_COUNT,
    ensures
        grid_of(flat.update(i * MEAS_COUNT + j, note)) == grid_of(flat).update(
            i,
            grid_of(flat)[i].update(j, note),
        ),
{
    let a = grid_of(flat.update(i * MEAS_COUNT + j, note));
    let b = grid_of(flat).update(i, grid_of(flat)[i].update(j, note));
    assert forall|x: int| 0 <= x < NOTE_COUNT implies a[x] =~= b[x] by {
        assert forall|y: int| 0 <= y < MEAS_COUNT implies a[x][y] == b[x][y] by {
            if x != i {
                assert(x * MEAS_COUNT + y != i * MEAS_COUNT + j);
            }
        }
    }
    assert(a =~= b);
}

/// What an [`Instrument`] holds, as mathematics.
pub struct Board {
    /// The cells: `cells[row][step]`.
    pub cells: Cells,
    /// Cell of the first click of a span that waits for its second click.
    pub last_clicked: Option<(usize, usize)>,
}

/// The editor's grid, with the cell of a pending first click.
pub struct Instrument {
    notes: Vec<Note>,
    last_clicked: Option<(usize, usize)>,
}

impl View for Instrument {
    type V = Board;

    closed spec fn view(&self) -> Board {
        Board { cells: grid_of(self.notes@), last_clicked: self.last_clicked }
    }
}

impl Instrument {
    #[verifier::type_invariant]
    closed spec fn inv(&self) -> bool {
        self.notes@.len() == NOTE_COUNT * MEAS_COUNT
    }

    /// The view of an instrument always has the shape of the grid.
    pub proof fn lemma_shaped(&self)
        ensures
            grid_shaped(self@.cells),
    {
    }

    /// The cell at row `i`, step `j`.
    pub fn get_note(&self, i: usize, j: usize) -> (note: Note)
        requires
            i < NOTE_COUNT,
            j < MEAS_COUNT,
        ensures
            note == self@.cells[i as int][j as int],
        no_unwind
    {
        proof {
            use_type_invariant(self);
        }
        self.notes[i * MEAS_COUNT + j]
    }

    /// The cell at row `i`, step `j`, to be written in place. No other cell
    /// changes, whatever is written.
    pub fn get_note_mut(&mut self, i: usize, j: usize) -> (note: &mut Note)
        requires
            i < NOTE_COUNT,
            j < MEAS_COUNT,
        ensures
            *note == old(self)@.cells[i as int][j as int],
            final(self)@.cells == old(self)@.cells.update(
                i as int,
                old(self)@.cells[i as int].update(j as int, *final(note)),
            ),
            final(self)@.last_clicked == old(self)@.last_clicked,
        no_unwind
    {
        proof {
            use_type_invariant(&*self);
            let flat = self.notes@;
            assert forall|v: Note| #[trigger]
                grid_of(flat.update(i * MEAS_COUNT + j, v)) == grid_of(flat).update(
                    i as int,
                    grid_of(flat)[i as int].update(j as int, v),
                ) by {
                lemma_grid_update(flat, i as int, j as int, v);
            }
        }
        &mut self.notes[i * MEAS_COUNT + j]
    }

    /// The pending first click, if any.
    pub fn last_clicked(&self) -> (r: Option<(usize, usize)>)
        ensures
            r == self@.last_clicked,
        no_unwind
    {
        self.last_clicked
    }

    /// Replaces the pending first click.
    pub fn set_last_clicked(&mut self, cell: Option<(usize, usize)>)
        ensures
            final(self)@.cells == old(self)@.cells,
            final(self)@.last_clicked == cell,
        no_unwind
    {
        proof {
            use_type_invariant(&*self);
        }
        self.last_clicked = cell;
    }
}

impl Default for Instrument {
    /// The empty grid with no click pending.
    fn default() -> (r: Instrument)
        ensures
            r@ == (Board { cells: empty_grid(), last_clicked: None }),
    {
        Instrument { notes: cleared_grid(), last_clicked: None }
    }
}

/// A grid of empty cells, held row after row.
pub(crate) fn cleared_grid() -> (grid: Vec<Note>)
    ensures
        grid@.len() == NOTE_COUNT * MEAS_COUNT,
        grid_of(grid@) == empty_grid(),
{
    let mut grid: Vec<Note> = Vec::new();
    let mut k: usize = 0;
    while k < NOTE_COUNT * MEAS_COUNT
        invariant
            k <= NOTE_COUNT * MEAS_COUNT,
            grid@.len() == k,
            forall|x: int| 0 <= x < k ==> grid@[x] == Note::empty(),
        decreases NOTE_COUNT * MEAS_COUNT - k,
    {
        grid.push(Note { duration: 0, starts_at: None });
        k += 1;
    }
    assert(grid_of(grid@) =~~= empty_grid());
    grid
}

/// Name of a pitch class, 0 for C up to 11 for B, with flats for the black keys.
pub open spec fn pitch_class_name(class: int) -> Seq<char> {
    if class == 0 {
        seq!['C']
    } else if class == 1 {
        seq!['D', 'b']
    } else if class == 2 {
        seq!['D']
    } else if class == 3 {
        seq!['E', 'b']
    } else if class == 4 {
        seq!['E']
    } else if class == 5 {
        seq!['F']
    } else if class == 6 {
        seq!['G', 'b']
    } else if class == 7 {
        seq!['G']
    } else if class == 8 {
        seq!['A', 'b']
    } else if class == 9 {
        seq!['A']
    } else if class == 10 {
        seq!['B', 'b']
    } else {
        seq!['B']
    }
}

/// The decimal digit for an octave number from 0 to 9.
pub open spec fn octave_digit(octave: int) -> char {
    if octave == 0 {
        '0'
    } else if octave == 1 {
        '1'
    } else if octave == 2 {
        '2'
    } else if octave == 3 {
        '3'
    } else if octave == 4 {
        '4'
    } else if octave == 5 {
        '5'
    } else if octave == 6 {
        '6'
    } else if octave == 7 {
        '7'
    } else if octave == 8 {
        '8'
    } else {
        '9'
    }
}

/// Name of a pitch identity: pitch class and octave for 21 (`A0`) to 127
/// (`G9`), where 60 is `C4`; `Err` for every other number.
pub open spec fn note_name(note_num: int) -> Seq<char> {
    if 21 <= note_num <= 127 {
        pitch_class_name(note_num % 12).push(octave_digit(note_num / 12 - 1))
    } else {
        seq!['E', 'r', 'r']
    }
}

/// The name of pitch identity `note_num`.
pub fn note_num_to_str(note_num: usize) -> (name: String)
    ensures
        name@ == note_name(note_num as int),
{
    if note_num < 21 || note_num > 127 {
        proof {
            reveal_strlit("Err");
        }
        assert("Err"@ =~= seq!['E', 'r', 'r']);
        return String::from_str("Err");
    }
    let class = note_num % 12;
    let octave = note_num / 12 - 1;
    proof {
        reveal_strlit("C");
        reveal_strlit("Db");
        reveal_strlit("D");
        reveal_strlit("Eb");
        reveal_strlit("E");
        reveal_strlit("F");
        reveal_strlit("Gb");
        reveal_strlit("G");
        reveal_strlit("Ab");
        reveal_strlit("A");
        reveal_strlit("Bb");
        reveal_strlit("B");
        reveal_strlit("0");
        reveal_strlit("1");
        reveal_strlit("2");
        reveal_strlit("3");
        reveal_strlit("4");
        reveal_strlit("5");
        reveal_strlit("6");
        reveal_strlit("7");
        reveal_strlit("8");
        reveal_strlit("9");
    }
    let letter = if class == 0 {
        "C"
    } else if class == 1 {
        "Db"
    } else if class == 2 {
        "D"
    } else if class == 3 {
        "Eb"
    } else if class == 4 {
        "E"
    } else if class == 5 {
        "F"
    } else if class == 6 {
        "Gb"
    } else if class == 7 {
        "G"
    } else if class == 8 {
        "Ab"
    } else if class == 9 {
        "A"
    } else if class == 10 {
        "Bb"
    } else {
        "B"
    };
    let digit = if octave == 0 {
        "0"
    } else if octave == 1 {
        "1"
    } else if octave == 2 {
        "2"
    } else if octave == 3 {
        "3"
    } else if octave == 4 {
        "4"
    } else if octave == 5 {
        "5"
    } else if octave == 6 {
        "6"
    } else if octave == 7 {
        "7"
    } else if octave == 8 {
        "8"
    } else {
        "9"
    };
    assert(letter@ =~= pitch_class_name(class as int));
    assert(digit@ =~= seq![octave_digit(octave as int)]);
    let mut name = String::from_str(letter);
    name.append(digit);
    assert(name@ =~= note_name(note_num as int));
    name
}

} // verus!
