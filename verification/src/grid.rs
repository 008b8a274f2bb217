//! The grid that a render fills: one cell for each pixel, written once.

use vstd::prelude::*;
use vstd::arithmetic::div_mod::{lemma_fundamental_div_mod, lemma_fundamental_div_mod_converse};
use crate::canvas::{Canvas, holdable, lemma_cell_index_in_range};
use crate::color::Color;

verus! {

/// The place of one pixel: its column `x` and its row `y`.
#[derive(Clone, Copy, Debug, PartialEq, Eq, Structural)]
pub struct PixelCoordinate {
    pub x: u32,
    pub y: u32,
}

impl PixelCoordinate {
    /// Whether the place lies on a grid of the given size.
    pub open spec fn within(self, width: int, height: int) -> bool {
        self.x < width && self.y < height
    }

    /// The position of the place when the rows of a grid of the given width
    /// are laid end to end, the top row first.
    pub open spec fn index(self, width: int) -> int {
        self.y * width + self.x
    }
}

/// One finished unit of work: a place and the colour computed for it.
#[derive(Clone, Copy, Debug, PartialEq, Eq, Structural)]
pub struct Painted {
    pub at: PixelCoordinate,
    pub color: Color,
}

/// Why a write to the grid is refused.
#[derive(Clone, Copy, Debug, PartialEq, Eq, Structural)]
pub enum GridError {
    /// The place lies outside the grid.
    OutOfBounds,
    /// The cell has been written before.
    AlreadyWritten,
}

/// Why a grid cannot be handed on as an image.
#[derive(Clone, Copy, Debug, PartialEq, Eq, Structural)]
pub enum AssemblyError {
    /// A cell was never written. The place is the first such cell, going
    /// through the rows from the top and through each row from the left.
    Unwritten(PixelCoordinate),
}

/// Whether a grid of the given size can be held in memory and handed on as
/// an image of three bytes per pixel.
pub open spec fn representable(width: int, height: int) -> bool {
    holdable(width, height)
}

/// The cells of a grid of the given size in which nothing has been written.
pub open spec fn blank(width: int, height: int) -> Seq<Option<Color>> {
    Seq::new((width * height) as nat, |i: int| None::<Color>)
}

/// Every cell of `cells` has been written.
pub open spec fn all_written(cells: Seq<Option<Color>>) -> bool {
    forall|i: int| 0 <= i < cells.len() ==> (#[trigger] cells[i]) is Some
}

/// The grid of a render. A cell is `None` until it is written.
pub struct OutputGrid {
    width: u32,
    height: u32,
    cells: Vec<Option<Color>>,
}

impl OutputGrid {
    /// The number of columns.
    pub closed spec fn spec_width(&self) -> nat {
        self.width as nat
    }

    /// The number of rows.
    pub closed spec fn spec_height(&self) -> nat {
        self.height as nat
    }

    /// The cells, row by row from the top.
    pub closed spec fn cells(&self) -> Seq<Option<Color>> {
        self.cells@
    }

    /// The grid holds one cell for each column of each row, and is of a size
    /// that can be handed on as an image.
    pub open spec fn wf(&self) -> bool {
        &&& self.spec_width() <= u32::MAX
        &&& self.spec_height() <= u32::MAX
        &&& representable(self.spec_width() as int, self.spec_height() as int)
        &&& self.cells().len() == self.spec_width() * self.spec_height()
    }

    /// What the cell at a place holds; `None` also for a place outside.
    pub open spec fn at(&self, at: PixelCoordinate) -> Option<Color> {
        if at.within(self.spec_width() as int, self.spec_height() as int) {
            self.cells()[at.index(self.spec_width() as int)]
        } else {
            None
        }
    }

    /// Whether every cell has been written.
    pub open spec fn complete(&self) -> bool {
        all_written(self.cells())
    }

    /// Whether a grid of this size can be made.
    pub fn fits(width: u32, height: u32) -> (ok: bool)
        ensures
            ok == representable(width as int, height as int),
    {
        Canvas::fits(width, height)
    }

    /// A grid of the given size in which no cell has been written.
    pub fn new(width: u32, height: u32) -> (grid: OutputGrid)
        requires
            representable(width as int, height as int),
        ensures
            grid.wf(),
            grid.spec_width() == width,
            grid.spec_height() == height,
            grid.cells() == blank(width as int, height as int),
    {
        assert(0 <= width * height && 3 * width * height == 3 * (width * height))
            by (nonlinear_arith);
        let count: usize = ((width as u64) * (height as u64)) as usize;
        let mut cells: Vec<Option<Color>> = Vec::new();
        let mut i: usize = 0;
        while i < count
            invariant
                i <= count,
                cells@.len() == i,
                forall|k: int| 0 <= k < i ==> cells@[k] == None::<Color>,
            decreases count - i,
        {
            cells.push(None);
            i = i + 1;
        }
        assert(cells@ =~= blank(width as int, height as int));
        OutputGrid { width, height, cells }
    }

    /// The number of columns.
    pub fn width(&self) -> (w: u32)
        ensures
            w == self.spec_width(),
    {
        self.width
    }

    /// The number of rows.
    pub fn height(&self) -> (h: u32)
        ensures
            h == self.spec_height(),
    {
        self.height
    }

    /// Width and height, in that order.
    pub fn dimensions(&self) -> (d: (u32, u32))
        ensures
            d.0 == self.spec_width(),
            d.1 == self.spec_height(),
    {
        (self.width, self.height)
    }

    /// The position in `cells` of a place on the grid.
    fn offset(&self, at: PixelCoordinate) -> (i: usize)
        requires
            self.wf(),
            at.within(self.spec_width() as int, self.spec_height() as int),
        ensures
            i == at.index(self.spec_width() as int),
            i < self.cells().len(),
    {
        proof {
            lemma_cell_index_in_range(
                at.x as int,
                at.y as int,
                self.width as int,
                self.height as int,
            );
            assert(3 * self.width * self.height == 3 * (self.width * self.height))
                by (nonlinear_arith);
        }
        ((at.y as u64) * (self.width as u64) + (at.x as u64)) as usize
    }

    /// What the cell at a place holds; `None` also for a place outside.
    pub fn get(&self, at: PixelCoordinate) -> (cell: Option<Color>)
        requires
            self.wf(),
        ensures
            cell == self.at(at),
    {
        if at.x < self.width && at.y < self.height {
            let i = self.offset(at);
            self.cells[i]
        } else {
            None
        }
    }

    /// Writes a colour into the cell at a place. A place outside the grid
    /// and a cell written before are refused, and the grid is then left as
    /// it was.
    pub fn write(&mut self, at: PixelCoordinate, color: Color) -> (done: Result<(), GridError>)
        requires
            old(self).wf(),
        ensures
            final(self).wf(),
            final(self).spec_width() == old(self).spec_width(),
            final(self).spec_height() == old(self).spec_height(),
            done == write_outcome(
                old(self).cells(),
                old(self).spec_width() as int,
                old(self).spec_height() as int,
                Painted { at, color },
            ),
            final(self).cells() == after_write(
                old(self).cells(),
                old(self).spec_width() as int,
                old(self).spec_height() as int,
                Painted { at, color },
            ),
    {
        if !(at.x < self.width && at.y < self.height) {
            return Err(GridError::OutOfBounds);
        }
        let i = self.offset(at);
        if self.cells[i].is_some() {
            return Err(GridError::AlreadyWritten);
        }
        self.cells[i] = Some(color);
        Ok(())
    }

    /// Hands the finished grid on as an image: the pixel in column `x` of
    /// row `y` takes the colour of the cell at that place. A grid with a cell
    /// that was never written is refused.
    pub fn assemble(&self) -> (image: Result<Canvas, AssemblyError>)
        requires
            self.wf(),
        ensures
            image is Ok <==> self.complete(),
            match image {
                Ok(canvas) => {
                    &&& canvas.wf()
                    &&& canvas.spec_width() == self.spec_width()
                    &&& canvas.spec_height() == self.spec_height()
                    &&& canvas.pixels().len() == self.cells().len()
                    &&& forall|k: int|
                        0 <= k < self.cells().len() ==> self.cells()[k] == Some(
                            #[trigger] canvas.pixels()[k],
                        )
                },
                Err(AssemblyError::Unwritten(at)) => is_first_unwritten(
                    self.cells(),
                    self.spec_width() as int,
                    self.spec_height() as int,
                    at,
                ),
            },
    {
        let width = self.width;
        let height = self.height;
        let count = self.cells.len();
        let mut canvas = Canvas::new(width, height);
        let mut i: usize = 0;
        let mut y: u32 = 0;
        while y < height
            invariant
                self.wf(),
                width == self.spec_width(),
                height == self.spec_height(),
                y <= height,
                i == y * width,
                canvas.wf(),
                canvas.spec_width() == width,
                canvas.spec_height() == height,
                i <= count,
                count == self.cells().len(),
                count == width * height,
                forall|k: int| 0 <= k < i ==> (#[trigger] self.cells()[k]) is Some,
                forall|k: int| 0 <= k < i ==> self.cells()[k] == Some(#[trigger] canvas.pixels()[k]),
            decreases height - y,
        {
            let mut x: u32 = 0;
            while x < width
                invariant
                    self.wf(),
                    width == self.spec_width(),
                    height == self.spec_height(),
                    y < height,
                    x <= width,
                    i == y * width + x,
                    canvas.wf(),
                    canvas.spec_width() == width,
                    canvas.spec_height() == height,
                    i <= count,
                    count == self.cells().len(),
                    count == width * height,
                    forall|k: int| 0 <= k < i ==> (#[trigger] self.cells()[k]) is Some,
                    forall|k: int|
                        0 <= k < i ==> self.cells()[k] == Some(#[trigger] canvas.pixels()[k]),
                decreases width - x,
            {
                proof {
                    lemma_cell_index_in_range(x as int, y as int, width as int, height as int);
                }
                match self.cells[i] {
                    Some(color) => {
                        canvas.put_pixel(x, y, color);
                    },
                    None => {
                        return Err(AssemblyError::Unwritten(PixelCoordinate { x, y }));
                    },
                }
                x = x + 1;
                i = i + 1;
            }
            assert(y * width + width == (y + 1) * width) by (nonlinear_arith);
            assert((y + 1) * width <= height * width) by (nonlinear_arith)
                requires
                    y + 1 <= height,
                    0 <= width,
            ;
            y = y + 1;
        }
        assert(height * width == width * height) by (nonlinear_arith);
        Ok(canvas)
    }

    /// The first place whose cell has not been written, going through the
    /// rows from the top and through each row from the left; `None` where
    /// every cell has been written.
    pub fn first_unwritten(&self) -> (found: Option<PixelCoordinate>)
        requires
            self.wf(),
        ensures
            found is None <==> self.complete(),
            found is Some ==> is_first_unwritten(
                self.cells(),
                self.spec_width() as int,
                self.spec_height() as int,
                found.unwrap(),
            ),
    {
        let width = self.width;
        let height = self.height;
        let count = self.cells.len();
        let mut i: usize = 0;
        let mut y: u32 = 0;
        while y < height
            invariant
                self.wf(),
                width == self.spec_width(),
                height == self.spec_height(),
                y <= height,
                i == y * width,
                i <= count,
                count == self.cells().len(),
                count == width * height,
                forall|k: int| 0 <= k < i ==> (#[trigger] self.cells()[k]) is Some,
            decreases height - y,
        {
            let mut x: u32 = 0;
            while x < width
                invariant
                    self.wf(),
                    width == self.spec_width(),
                    height == self.spec_height(),
                    y < height,
                    x <= width,
                    i == y * width + x,
                    i <= count,
                    count == self.cells().len(),
                    count == width * height,
                    forall|k: int| 0 <= k < i ==> (#[trigger] self.cells()[k]) is Some,
                decreases width - x,
            {
                proof {
                    lemma_cell_index_in_range(x as int, y as int, width as int, height as int);
                }
                if self.cells[i].is_none() {
                    return Some(PixelCoordinate { x, y });
                }
                x = x + 1;
                i = i + 1;
            }
            assert(y * width + width == (y + 1) * width) by (nonlinear_arith);
            assert((y + 1) * width <= height * width) by (nonlinear_arith)
                requires
                    y + 1 <= height,
                    0 <= width,
            ;
            y = y + 1;
        }
        assert(height * width == width * height) by (nonlinear_arith);
        None
    }

    /// Whether every cell has been written.
    pub fn is_complete(&self) -> (full: bool)
        requires
            self.wf(),
        ensures
            full == self.complete(),
    {
        self.first_unwritten().is_none()
    }
}

/// `at` is the first place, going through the rows from the top and through
/// each row from the left, whose cell has not been written.
pub open spec fn is_first_unwritten(
    cells: Seq<Option<Color>>,
    width: int,
    height: int,
    at: PixelCoordinate,
) -> bool {
    &&& at.within(width, height)
    &&& cells[at.index(width)] is None
    &&& forall|k: int| 0 <= k < at.index(width) ==> (#[trigger] cells[k]) is Some
}

/// Whether a write to `cells`, the cells of a grid of the given size, is
/// accepted, and if not, why.
pub open spec fn write_outcome(
    cells: Seq<Option<Color>>,
    width: int,
    height: int,
    unit: Painted,
) -> Result<(), GridError> {
    if !unit.at.within(width, height) {
        Err(GridError::OutOfBounds)
    } else if cells[unit.at.index(width)] is Some {
        Err(GridError::AlreadyWritten)
    } else {
        Ok(())
    }
}

/// The cells after a write: the one cell set where the write is accepted,
/// nothing changed where it is refused.
pub open spec fn after_write(
    cells: Seq<Option<Color>>,
    width: int,
    height: int,
    unit: Painted,
) -> Seq<Option<Color>> {
    if write_outcome(cells, width, height, unit) is Ok {
        cells.update(unit.at.index(width), Some(unit.color))
    } else {
        cells
    }
}

/// What is left of the cells when the units are written one after the other,
/// the first unit first: the cells after the last write, or the refusal of
/// the first write that is refused.
pub open spec fn deposit(
    cells: Seq<Option<Color>>,
    width: int,
    height: int,
    units: Seq<Painted>,
) -> Result<Seq<Option<Color>>, GridError>
    decreases units.len(),
{
    if units.len() == 0 {
        Ok(cells)
    } else {
        match write_outcome(cells, width, height, units[0]) {
            Err(e) => Err(e),
            Ok(()) => deposit(
                after_write(cells, width, height, units[0]),
                width,
                height,
                units.drop_first(),
            ),
        }
    }
}

/// Two places on the canvas with the same row-major position are the same.
pub proof fn lemma_index_injective(a: PixelCoordinate, b: PixelCoordinate, width: int, height: int)
    requires
        a.within(width, height),
        b.within(width, height),
        a.index(width) == b.index(width),
    ensures
        a == b,
{
    lemma_fundamental_div_mod_converse(a.index(width), width, a.y as int, a.x as int);
    lemma_fundamental_div_mod_converse(b.index(width), width, b.y as int, b.x as int);
}

/// What a run of accepted writes leaves behind. Where every unit of `units`
/// is accepted in turn, each unit is for a place on the grid whose cell was
/// empty at the start, no two units are for the same place, each unit's cell
/// ends up holding the unit's colour, a cell that was written at the start is
/// as it was, and a cell is written at the end only if it was at the start
/// or a unit is for it.
pub proof fn lemma_deposit(
    cells: Seq<Option<Color>>,
    width: int,
    height: int,
    units: Seq<Painted>,
)
    requires
        0 <= width,
        0 <= height,
        cells.len() == width * height,
        deposit(cells, width, height, units) is Ok,
    ensures
        deposit(cells, width, height, units).unwrap().len() == cells.len(),
        forall|i: int| 0 <= i < units.len() ==> (#[trigger] units[i]).at.within(width, height),
        forall|i: int| 0 <= i < units.len() ==> cells[(#[trigger] units[i]).at.index(width)] is None,
        forall|i: int|
            0 <= i < units.len() ==> deposit(cells, width, height, units).unwrap()[(
            #[trigger] units[i]).at.index(width)] == Some(units[i].color),
        forall|i: int, k: int|
            0 <= i < k < units.len() ==> (#[trigger] units[i]).at != (#[trigger] units[k]).at,
        forall|m: int|
            0 <= m < cells.len() && (#[trigger] cells[m]) is Some ==> deposit(
                cells,
                width,
                height,
                units,
            ).unwrap()[m] == cells[m],
        forall|m: int|
            0 <= m < cells.len() && cells[m] is None && (#[trigger] deposit(
                cells,
                width,
                height,
                units,
            ).unwrap()[m]) is Some ==> exists|i: int|
                0 <= i < units.len() && (#[trigger] units[i]).at.index(width) == m,
    decreases units.len(),
{
    if units.len() > 0 {
        let first = units[0];
        let rest = units.drop_first();
        let next = after_write(cells, width, height, first);
        let end = deposit(cells, width, height, units).unwrap();
        let at0 = first.at.index(width);
        lemma_cell_index_in_range(first.at.x as int, first.at.y as int, width, height);
        assert(end == deposit(next, width, height, rest).unwrap());
        lemma_deposit(next, width, height, rest);
        assert forall|i: int| 0 <= i < units.len() implies (#[trigger] units[i]).at.within(
            width,
            height,
        ) && cells[units[i].at.index(width)] is None && end[units[i].at.index(width)] == Some(
            units[i].color,
        ) by {
            if i > 0 {
                assert(units[i] == rest[i - 1]);
                lemma_cell_index_in_range(
                    units[i].at.x as int,
                    units[i].at.y as int,
                    width,
                    height,
                );
            } else {
                assert(next[at0] is Some);
            }
        }
        assert forall|i: int, k: int| 0 <= i < k < units.len() implies (#[trigger] units[i]).at != (
        #[trigger] units[k]).at by {
            assert(units[k] == rest[k - 1]);
            if i > 0 {
                assert(units[i] == rest[i - 1]);
            } else {
                assert(next[rest[k - 1].at.index(width)] is None);
            }
        }
        assert forall|m: int| 0 <= m < cells.len() && (#[trigger] cells[m]) is Some implies end[m]
            == cells[m] by {
            assert(next[m] == cells[m]);
        }
        assert forall|m: int|
            0 <= m < cells.len() && cells[m] is None && (#[trigger] end[m]) is Some implies exists|
            i: int,
        |
            0 <= i < units.len() && (#[trigger] units[i]).at.index(width) == m by {
            if m == at0 {
                assert(units[0].at.index(width) == m);
            } else {
                assert(next[m] is None);
                let i = choose|i: int| 0 <= i < rest.len() && (#[trigger] rest[i]).at.index(width) == m;
                assert(units[i + 1] == rest[i]);
            }
        }
    }
}

/// Units that are each for an empty cell of the grid, no two for the same
/// place, are all accepted.
pub proof fn lemma_distinct_units_accepted(
    cells: Seq<Option<Color>>,
    width: int,
    height: int,
    units: Seq<Painted>,
)
    requires
        0 <= width,
        0 <= height,
        cells.len() == width * height,
        forall|i: int| 0 <= i < units.len() ==> (#[trigger] units[i]).at.within(width, height),
        forall|i: int| 0 <= i < units.len() ==> cells[(#[trigger] units[i]).at.index(width)] is None,
        forall|i: int, k: int|
            0 <= i < k < units.len() ==> (#[trigger] units[i]).at != (#[trigger] units[k]).at,
    ensures
        deposit(cells, width, height, units) is Ok,
    decreases units.len(),
{
    if units.len() > 0 {
        let first = units[0];
        let rest = units.drop_first();
        let next = after_write(cells, width, height, first);
        lemma_cell_index_in_range(first.at.x as int, first.at.y as int, width, height);
        assert forall|i: int| 0 <= i < rest.len() implies (#[trigger] rest[i]).at.within(
            width,
            height,
        ) && next[rest[i].at.index(width)] is None by {
            assert(rest[i] == units[i + 1]);
            assert(units[0].at != units[i + 1].at);
            lemma_cell_index_in_range(rest[i].at.x as int, rest[i].at.y as int, width, height);
            if rest[i].at.index(width) == first.at.index(width) {
                lemma_index_injective(rest[i].at, first.at, width, height);
            }
        }
        assert forall|i: int, k: int| 0 <= i < k < rest.len() implies (#[trigger] rest[i]).at != (
        #[trigger] rest[k]).at by {
            assert(rest[i] == units[i + 1]);
            assert(rest[k] == units[k + 1]);
        }
        lemma_distinct_units_accepted(next, width, height, rest);
    }
}

/// Units that hold every place of the grid exactly once fill an empty grid:
/// all are accepted, no cell is left unwritten, and each cell holds the
/// colour of the unit for its place.
pub proof fn lemma_once_each_fills(width: int, height: int, units: Seq<Painted>)
    requires
        0 <= width <= u32::MAX,
        0 <= height <= u32::MAX,
        forall|i: int| 0 <= i < units.len() ==> (#[trigger] units[i]).at.within(width, height),
        forall|i: int, k: int|
            0 <= i < k < units.len() ==> (#[trigger] units[i]).at != (#[trigger] units[k]).at,
        forall|at: PixelCoordinate| #[trigger]
            at.within(width, height) ==> exists|i: int|
                0 <= i < units.len() && (#[trigger] units[i]).at == at,
    ensures
        deposit(blank(width, height), width, height, units) is Ok,
        all_written(deposit(blank(width, height), width, height, units).unwrap()),
        forall|i: int|
            0 <= i < units.len() ==> deposit(
                blank(width, height),
                width,
                height,
                units,
            ).unwrap()[(#[trigger] units[i]).at.index(width)] == Some(units[i].color),
{
    let start = blank(width, height);
    assert forall|i: int| 0 <= i < units.len() implies start[(#[trigger] units[i]).at.index(
        width,
    )] is None by {
        lemma_cell_index_in_range(units[i].at.x as int, units[i].at.y as int, width, height);
    }
    lemma_distinct_units_accepted(start, width, height, units);
    lemma_deposit(start, width, height, units);
    let end = deposit(start, width, height, units).unwrap();
    assert forall|m: int| 0 <= m < end.len() implies (#[trigger] end[m]) is Some by {
        assert(width > 0) by (nonlinear_arith)
            requires
                0 <= m < width * height,
                0 <= width,
                0 <= height,
        ;
        lemma_place_of_index(m, width, height);
        let at = PixelCoordinate { x: (m % width) as u32, y: (m / width) as u32 };
        assert(at.within(width, height));
        let i = choose|i: int| 0 <= i < units.len() && (#[trigger] units[i]).at == at;
        assert(end[units[i].at.index(width)] == Some(units[i].color));
    }
}

/// Every position below `width * height` is the row-major position of a
/// place on the grid: column `m % width` of row `m / width`.
pub proof fn lemma_place_of_index(m: int, width: int, height: int)
    requires
        0 <= m < width * height,
        0 < width <= u32::MAX,
        0 <= height <= u32::MAX,
    ensures
        0 <= m % width < width,
        0 <= m / width < height,
        (PixelCoordinate { x: (m % width) as u32, y: (m / width) as u32 }).within(width, height),
        (PixelCoordinate { x: (m % width) as u32, y: (m / width) as u32 }).index(width) == m,
{
    lemma_fundamental_div_mod(m, width);
    let q = m / width;
    assert(0 <= q < height) by (nonlinear_arith)
        requires
            m == width * q + m % width,
            0 <= m % width < width,
            0 <= m < width * height,
    ;
    assert(width * q == q * width) by (nonlinear_arith);
}

/// Every cell is written exactly once: where the units were all accepted by
/// an empty grid and left no cell unwritten, exactly one unit is for any
/// given place on the grid.
pub proof fn lemma_each_cell_written_once(
    width: int,
    height: int,
    units: Seq<Painted>,
    at: PixelCoordinate,
)
    requires
        0 <= width,
        0 <= height,
        deposit(blank(width, height), width, height, units) is Ok,
        all_written(deposit(blank(width, height), width, height, units).unwrap()),
        at.within(width, height),
    ensures
        exists|i: int|
            0 <= i < units.len() && (#[trigger] units[i]).at == at && forall|k: int|
                0 <= k < units.len() && (#[trigger] units[k]).at == at ==> k == i,
{
    let start = blank(width, height);
    let end = deposit(start, width, height, units).unwrap();
    let m = at.index(width);
    lemma_cell_index_in_range(at.x as int, at.y as int, width, height);
    lemma_deposit(start, width, height, units);
    assert(end[m] is Some);
    let i = choose|i: int| 0 <= i < units.len() && (#[trigger] units[i]).at.index(width) == m;
    lemma_index_injective(units[i].at, at, width, height);
    assert forall|k: int| 0 <= k < units.len() && (#[trigger] units[k]).at == at implies k == i by {
        if k < i {
            assert(units[k].at != units[i].at);
        } else if i < k {
            assert(units[i].at != units[k].at);
        }
    }
}

/// The finished grid does not depend on the order in which the units
/// arrive, nor on how they were shared out: two runs of units that were each
/// accepted by an empty grid and left no cell unwritten, and that agree on
/// the colour of every place, leave the same cells.
pub proof fn lemma_order_irrelevant(width: int, height: int, a: Seq<Painted>, b: Seq<Painted>)
    requires
        0 <= width,
        0 <= height,
        deposit(blank(width, height), width, height, a) is Ok,
        deposit(blank(width, height), width, height, b) is Ok,
        all_written(deposit(blank(width, height), width, height, a).unwrap()),
        all_written(deposit(blank(width, height), width, height, b).unwrap()),
        forall|i: int, k: int|
            0 <= i < a.len() && 0 <= k < b.len() && (#[trigger] a[i]).at == (#[trigger] b[k]).at
                ==> a[i].color == b[k].color,
    ensures
        deposit(blank(width, height), width, height, a) == deposit(
            blank(width, height),
            width,
            height,
            b,
        ),
{
    let start = blank(width, height);
    let end_a = deposit(start, width, height, a).unwrap();
    let end_b = deposit(start, width, height, b).unwrap();
    lemma_deposit(start, width, height, a);
    lemma_deposit(start, width, height, b);
    assert forall|m: int| 0 <= m < end_a.len() implies end_a[m] == end_b[m] by {
        assert(end_a[m] is Some);
        assert(end_b[m] is Some);
        let i = choose|i: int| 0 <= i < a.len() && (#[trigger] a[i]).at.index(width) == m;
        let k = choose|k: int| 0 <= k < b.len() && (#[trigger] b[k]).at.index(width) == m;
        lemma_index_injective(a[i].at, b[k].at, width, height);
    }
    assert(end_a =~= end_b);
}

} // verus!
