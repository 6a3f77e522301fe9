use vstd::prelude::*;

verus! {

/// A token color: the small closed set of tile colors the engine matches on.
/// Equality is the only operation the engine needs on a color.
#[derive(Clone, Copy, Debug, PartialEq, Eq, Structural)]
pub enum Color {
    Blue,
    Red,
    Green,
    Yellow,
}

/// One grid cell: an active tile, a tile marked for removal this cycle
/// (it keeps its color for rendering), or a vacant cell.
#[derive(Clone, Copy, Debug, PartialEq, Eq, Structural)]
pub enum Cell {
    Normal(Color),
    Deleting(Color),
    Empty,
}

/// True of cells that carry a color (active or marked for removal).
pub open spec fn colored(c: Cell) -> bool {
    !(c is Empty)
}

/// The color a cell carries, if any.
pub open spec fn cell_color(c: Cell) -> Option<Color> {
    match c {
        Cell::Normal(k) => Some(k),
        Cell::Deleting(k) => Some(k),
        Cell::Empty => None,
    }
}

/// Both cells carry a color and the colors agree.
pub open spec fn same_colored(a: Cell, b: Cell) -> bool {
    colored(a) && colored(b) && cell_color(a) == cell_color(b)
}

/// What marking a cell for deletion yields: a colored cell keeps its
/// color but becomes `Deleting`; an empty cell is left alone.
pub open spec fn deleting_of(c: Cell) -> Cell {
    match c {
        Cell::Normal(k) => Cell::Deleting(k),
        Cell::Deleting(k) => Cell::Deleting(k),
        Cell::Empty => Cell::Empty,
    }
}

/// The color that a byte selects, cycling through the four colors.
pub open spec fn color_from_byte(b: u8) -> Color {
    if b % 4 == 0 {
        Color::Blue
    } else if b % 4 == 1 {
        Color::Red
    } else if b % 4 == 2 {
        Color::Green
    } else {
        Color::Yellow
    }
}

/// Relies on rand::random: draws one byte from the thread-local generator;
/// nothing is promised of its value.
#[verifier::external_body]
fn random_byte() -> u8 {
    rand::random::<u8>()
}

impl Color {
    /// The color a byte selects; used to turn a random byte into a color.
    pub fn from_byte(b: u8) -> (r: Color)
        ensures
            r == color_from_byte(b),
    {
        match b % 4 {
            0 => Color::Blue,
            1 => Color::Red,
            2 => Color::Green,
            _ => Color::Yellow,
        }
    }
}

impl Cell {
    /// A fresh active tile of a random color.
    pub fn new_random() -> (r: Self)
        ensures
            r is Normal,
    {
        Self::Normal(Color::from_byte(random_byte()))
    }

    /// Mark this cell for removal, keeping its color. Only colored cells
    /// may be marked.
    pub fn to_deleting(&mut self)
        requires
            colored(*old(self)),
        ensures
            *final(self) == deleting_of(*old(self)),
    {
        *self = match *self {
            Self::Normal(color) => Self::Deleting(color),
            Self::Deleting(color) => Self::Deleting(color),
            Self::Empty => Self::Empty,
        };
    }

    /// True exactly of active (`Normal`) tiles.
    pub fn is_some(&self) -> (r: bool)
        ensures
            r == (*self is Normal),
    {
        match self {
            Self::Normal(..) => true,
            Self::Empty | Self::Deleting(..) => false,
        }
    }

    /// The two-character glyph for this cell: a letter for an active tile,
    /// a solid block for a tile marked for removal, blanks for a vacancy.
    /// Coloring the glyph is the presentation layer's business.
    pub fn fmt_cell(&self) -> (r: &'static str)
        ensures
            r@ == fmt_cell_spec(*self),
    {
        match self {
            Self::Empty => "  ",
            Self::Deleting(_) => "\u{2588} ",
            Self::Normal(Color::Blue) => "B ",
            Self::Normal(Color::Red) => "R ",
            Self::Normal(Color::Green) => "G ",
            Self::Normal(Color::Yellow) => "Y ",
        }
    }
}

/// The glyph that stands for each cell state.
pub open spec fn fmt_cell_spec(c: Cell) -> Seq<char> {
    match c {
        Cell::Empty => "  "@,
        Cell::Deleting(_) => "\u{2588} "@,
        Cell::Normal(Color::Blue) => "B "@,
        Cell::Normal(Color::Red) => "R "@,
        Cell::Normal(Color::Green) => "G "@,
        Cell::Normal(Color::Yellow) => "Y "@,
    }
}

} // verus!
