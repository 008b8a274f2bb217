//! The dispatcher: how the pixels of a canvas are shared out as units of
//! work, and how a render runs them and gathers what they produce.
//!
//! A unit of work is one pixel. A strategy arranges the units in lanes, each
//! lane the share of one worker; whatever the arrangement, every pixel is in
//! exactly one lane, once, and the finished grid is the same.

use vstd::prelude::*;
use vstd::arithmetic::div_mod::{lemma_fundamental_div_mod, lemma_fundamental_div_mod_converse};
use crate::canvas::{Canvas, channels, lemma_cell_index_in_range};
use crate::color::Color;
use crate::config::{ConfigError, RenderConfig};
use crate::escape::{
    Shade, color_generator, decides_once, generates, lemma_generates_unique, shades_once,
    steps_once,
};
use crate::grid::{
    AssemblyError, GridError, OutputGrid, Painted, PixelCoordinate, all_written, blank, deposit,
    is_first_unwritten, lemma_index_injective, lemma_place_of_index, representable,
};

verus! {

/// How the units of work are shared out.
#[derive(Clone, Copy, Debug, PartialEq, Eq, Structural)]
pub enum Strategy {
    /// A pool of a fixed number of workers.
    BoundedPool { workers: u32 },
    /// A task of its own for every pixel.
    UnboundedTask,
    /// All pixels in turn on one thread.
    SingleThread,
}

/// A failure while the pixels were computed.
#[derive(Clone, Copy, Debug, PartialEq, Eq, Structural)]
pub enum ComputeFailure {
    /// The grid is too large to be held in memory.
    ResourceExhausted,
    /// A worker stopped before it had finished its share.
    WorkerFailed,
    /// A worker's result was refused by the grid.
    WriteRefused(GridError),
}

/// Why a render produced no image.
#[derive(Clone, Copy, Debug, PartialEq, Eq, Structural)]
pub enum RenderError {
    /// The parameters were refused; nothing was computed.
    Configuration(ConfigError),
    /// The computation failed.
    Compute(ComputeFailure),
    /// The grid was not complete when it was to be handed on.
    Assembly(AssemblyError),
}

/// The place of unit `k` on a canvas of the given height: the units go down
/// the first column, then down the second, and so on.
pub open spec fn unit_place(k: int, height: int) -> PixelCoordinate {
    PixelCoordinate { x: (k / height) as u32, y: (k % height) as u32 }
}

/// The unit that computes the pixel at a place.
pub open spec fn place_unit(at: PixelCoordinate, height: int) -> int {
    at.x * height + at.y
}

/// The unit that is item `i` of lane `j` when the units are dealt out to
/// `lanes` lanes in turn.
pub open spec fn lane_unit(j: int, i: int, lanes: int) -> int {
    j + i * lanes
}

/// Lane `j` of `lanes` holds the place `at` of a canvas of the given size as
/// its item `i`.
pub open spec fn holds(
    j: int,
    i: int,
    lanes: int,
    width: int,
    height: int,
    at: PixelCoordinate,
) -> bool {
    &&& 0 <= j < lanes
    &&& 0 <= i
    &&& lane_unit(j, i, lanes) < width * height
    &&& unit_place(lane_unit(j, i, lanes), height) == at
}

/// `places` is lane `j` of `lanes`: the places of the units `j`, `j + lanes`,
/// `j + 2 * lanes` and so on, as far as they are below `total`.
pub open spec fn is_lane(
    places: Seq<PixelCoordinate>,
    j: int,
    lanes: int,
    total: int,
    height: int,
) -> bool {
    &&& takes_in_turn(places, j, lanes, total, height)
    &&& lane_unit(j, places.len() as int, lanes) >= total
}

/// Each item of `places` is the place of the unit that lane `j` of `lanes`
/// holds at that position, and that unit is below `total`.
pub open spec fn takes_in_turn(
    places: Seq<PixelCoordinate>,
    j: int,
    lanes: int,
    total: int,
    height: int,
) -> bool {
    forall|i: int|
        #![trigger places[i]]
        #![trigger lane_unit(j, i, lanes)]
        0 <= i < places.len() ==> {
            &&& lane_unit(j, i, lanes) < total
            &&& places[i] == unit_place(lane_unit(j, i, lanes), height)
        }
}

impl Strategy {
    /// Whether the strategy has a worker at all.
    pub open spec fn staffed(self) -> bool {
        match self {
            Strategy::BoundedPool { workers } => workers > 0,
            _ => true,
        }
    }

    /// The number of lanes into which `total` units are arranged: one on a
    /// single thread, one for each unit where every unit is a task, and one
    /// for each worker of a pool, but no more lanes than units.
    pub open spec fn lanes(self, total: int) -> int {
        match self {
            Strategy::BoundedPool { workers } => if workers <= total {
                workers as int
            } else {
                total
            },
            Strategy::UnboundedTask => total,
            Strategy::SingleThread => if total >= 1 {
                1
            } else {
                total
            },
        }
    }

    /// The number of lanes into which `total` units are arranged.
    pub fn lane_count(&self, total: u64) -> (lanes: u64)
        ensures
            lanes == self.lanes(total as int),
            lanes <= total,
            self.staffed() && total > 0 ==> lanes > 0,
    {
        match self {
            Strategy::BoundedPool { workers } => {
                let workers: u64 = *workers as u64;
                if workers <= total {
                    workers
                } else {
                    total
                }
            },
            Strategy::UnboundedTask => total,
            Strategy::SingleThread => if total >= 1 {
                1
            } else {
                total
            },
        }
    }
}

/// The number of units of a canvas, one for each pixel.
pub fn unit_count(width: u32, height: u32) -> (total: u64)
    ensures
        total == width * height,
{
    assert(0 <= width * height <= 0xffff_ffff * 0xffff_ffff) by (nonlinear_arith)
        requires
            0 <= width <= 0xffff_ffff,
            0 <= height <= 0xffff_ffff,
    ;
    (width as u64) * (height as u64)
}

/// The place of unit `k` on a canvas of the given size.
pub fn place_of(k: u64, width: u32, height: u32) -> (at: PixelCoordinate)
    requires
        k < width * height,
    ensures
        at == unit_place(k as int, height as int),
        at.within(width as int, height as int),
        place_unit(at, height as int) == k,
{
    proof {
        lemma_unit_place(k as int, width as int, height as int);
    }
    let h: u64 = height as u64;
    PixelCoordinate { x: (k / h) as u32, y: (k % h) as u32 }
}

/// Unit `k` of a canvas lies on the canvas, and is the unit of its place.
pub proof fn lemma_unit_place(k: int, width: int, height: int)
    requires
        0 <= k < width * height,
        0 <= width <= u32::MAX,
        0 <= height <= u32::MAX,
    ensures
        0 <= k / height < width,
        0 <= k % height < height,
        unit_place(k, height).within(width, height),
        place_unit(unit_place(k, height), height) == k,
{
    assert(height > 0) by (nonlinear_arith)
        requires
            0 <= k < width * height,
            0 <= width,
            0 <= height,
    ;
    lemma_fundamental_div_mod(k, height);
    let q = k / height;
    assert(0 <= q < width) by (nonlinear_arith)
        requires
            k == height * q + k % height,
            0 <= k % height < height,
            0 <= k < width * height,
    ;
    assert(height * q == q * height) by (nonlinear_arith);
}

/// A place on the canvas is the place of its unit, and its unit is one of
/// the canvas.
pub proof fn lemma_place_unit(at: PixelCoordinate, width: int, height: int)
    requires
        at.within(width, height),
    ensures
        0 <= place_unit(at, height) < width * height,
        unit_place(place_unit(at, height), height) == at,
{
    lemma_cell_index_in_range(at.y as int, at.x as int, height, width);
    lemma_fundamental_div_mod_converse(place_unit(at, height), height, at.x as int, at.y as int);
    assert(height * width == width * height) by (nonlinear_arith);
}

/// Item `i` of lane `j` is in lane `j` and nowhere else: a unit determines
/// its lane and its position in it.
pub proof fn lemma_lane_unit(j: int, i: int, lanes: int)
    requires
        0 <= j < lanes,
        0 <= i,
    ensures
        lane_unit(j, i, lanes) % lanes == j,
        lane_unit(j, i, lanes) / lanes == i,
{
    lemma_fundamental_div_mod_converse(lane_unit(j, i, lanes), lanes, i, j);
}

/// Whether the unit `k` has been run when the lanes are run one after the
/// other and the run has come to item `i` of lane `j`.
pub open spec fn reached(k: int, j: int, i: int, lanes: int) -> bool {
    k % lanes < j || (k % lanes == j && k / lanes < i)
}

/// No unit has been run before the first item of the first lane, and every
/// unit has been run once the last lane is done.
pub proof fn lemma_reached_bounds(k: int, lanes: int)
    requires
        0 <= k,
        0 < lanes,
    ensures
        !reached(k, 0, 0, lanes),
        reached(k, lanes, 0, lanes),
{
    lemma_fundamental_div_mod(k, lanes);
    assert(0 <= k % lanes < lanes && 0 <= k / lanes) by (nonlinear_arith)
        requires
            0 <= k,
            0 < lanes,
    ;
}

/// `color` is a colour that a render can give to the pixel at a place: the
/// colour generated for a point that `sample` gives for the place.
pub open spec fn renders<
    Z,
    M: Fn(PixelCoordinate) -> Z,
    W: Fn(&Z) -> bool,
    S: Fn(Z) -> Z,
    G: Fn(u32, u32) -> Shade,
>(
    at: PixelCoordinate,
    iterations: u32,
    sample: M,
    within: W,
    step: S,
    gradient: G,
    color: Color,
) -> bool {
    exists|z0: Z| #[trigger]
        sample.ensures((at,), z0) && generates(z0, iterations, within, step, gradient, color)
}

/// Why a render is refused before any pixel is computed, or `None` where it
/// is not: the first fault of the parameters, else a pool without workers,
/// else a canvas too large to hold.
pub open spec fn refusal(config: RenderConfig, strategy: Strategy) -> Option<RenderError> {
    if config.fault() is Some {
        Some(RenderError::Configuration(config.fault().unwrap()))
    } else if !strategy.staffed() {
        Some(RenderError::Configuration(ConfigError::NoWorkers))
    } else if !representable(config.width as int, config.height as int) {
        Some(RenderError::Compute(ComputeFailure::ResourceExhausted))
    } else {
        None
    }
}

/// Decides whether a render can start: the parameters are in order, the
/// strategy has a worker, and the canvas can be held. No pixel is computed
/// before this has said yes.
pub fn preflight(config: &RenderConfig, strategy: Strategy) -> (checked: Result<(), RenderError>)
    ensures
        match checked {
            Ok(()) => refusal(*config, strategy) is None,
            Err(e) => refusal(*config, strategy) == Some(e),
        },
        checked is Ok ==> config.wf() && strategy.staffed() && representable(
            config.width as int,
            config.height as int,
        ),
{
    match config.validate() {
        Ok(()) => {},
        Err(e) => {
            return Err(RenderError::Configuration(e));
        },
    }
    match strategy {
        Strategy::BoundedPool { workers } => {
            if workers == 0 {
                return Err(RenderError::Configuration(ConfigError::NoWorkers));
            }
        },
        _ => {},
    }
    if !OutputGrid::fits(config.width, config.height) {
        return Err(RenderError::Compute(ComputeFailure::ResourceExhausted));
    }
    Ok(())
}

/// The places of lane `j` under a strategy, in the order in which the lane's
/// worker takes them.
pub fn lane(strategy: Strategy, width: u32, height: u32, j: u64) -> (places: Vec<PixelCoordinate>)
    requires
        representable(width as int, height as int),
        j < strategy.lanes(width * height),
    ensures
        is_lane(places@, j as int, strategy.lanes(width * height), width * height, height as int),
{
    let total = unit_count(width, height);
    let lanes = strategy.lane_count(total);
    assert(3 * width * height == 3 * (width * height)) by (nonlinear_arith);
    let mut places: Vec<PixelCoordinate> = Vec::new();
    let mut k: u64 = j;
    assert(lane_unit(j as int, 0, lanes as int) == j) by (nonlinear_arith);
    while k < total
        invariant
            total == width * height,
            3 * total <= isize::MAX,
            0 < lanes <= total,
            j < lanes,
            k == lane_unit(j as int, places@.len() as int, lanes as int),
            takes_in_turn(places@, j as int, lanes as int, total as int, height as int),
        decreases total + lanes - k,
    {
        let at = place_of(k, width, height);
        let ghost n = places@.len() as int;
        let ghost earlier = places@;
        places.push(at);
        assert((n + 1) * lanes == n * lanes + lanes) by (nonlinear_arith);
        let ghost now = places@;
        assert forall|i: int|
            #![trigger now[i]]
            #![trigger lane_unit(j as int, i, lanes as int)]
            0 <= i < now.len() implies {
            &&& lane_unit(j as int, i, lanes as int) < total
            &&& now[i] == unit_place(lane_unit(j as int, i, lanes as int), height as int)
        } by {
            if i < n {
                assert(now[i] == earlier[i]);
            }
        }
        k = k + lanes;
    }
    places
}

/// All lanes of a strategy, the first lane first.
pub fn plan(strategy: Strategy, width: u32, height: u32) -> (lanes: Vec<Vec<PixelCoordinate>>)
    requires
        representable(width as int, height as int),
    ensures
        lanes@.len() == strategy.lanes(width * height),
        forall|j: int|
            0 <= j < lanes@.len() ==> is_lane(
                (#[trigger] lanes@[j])@,
                j,
                strategy.lanes(width * height),
                width * height,
                height as int,
            ),
{
    let count = strategy.lane_count(unit_count(width, height));
    let mut lanes: Vec<Vec<PixelCoordinate>> = Vec::new();
    let mut j: u64 = 0;
    while j < count
        invariant
            representable(width as int, height as int),
            count == strategy.lanes(width * height),
            j <= count,
            lanes@.len() == j,
            forall|m: int|
                0 <= m < lanes@.len() ==> is_lane(
                    (#[trigger] lanes@[m])@,
                    m,
                    strategy.lanes(width * height),
                    width * height,
                    height as int,
                ),
        decreases count - j,
    {
        let places = lane(strategy, width, height, j);
        lanes.push(places);
        j = j + 1;
    }
    lanes
}

/// Computes every pixel of the canvas and gathers the colours in a grid. The
/// strategy decides the order in which the pixels are taken and nothing
/// else. Nothing is computed where the render is refused.
pub fn render<
    Z,
    M: Fn(PixelCoordinate) -> Z,
    W: Fn(&Z) -> bool,
    S: Fn(Z) -> Z,
    G: Fn(u32, u32) -> Shade,
>(
    config: &RenderConfig,
    strategy: Strategy,
    sample: &M,
    within: &W,
    step: &S,
    gradient: &G,
) -> (out: Result<OutputGrid, RenderError>)
    requires
        forall|at: PixelCoordinate|
            at.within(config.width as int, config.height as int) ==> (*sample).requires((at,)),
        forall|z: Z| (*within).requires((&z,)),
        forall|z: Z| (*step).requires((z,)),
        forall|n: u32| n < config.max_iterations ==> (*gradient).requires((n, config.max_iterations)),
    ensures
        match out {
            Ok(grid) => {
                &&& refusal(*config, strategy) is None
                &&& grid.wf()
                &&& grid.spec_width() == config.width
                &&& grid.spec_height() == config.height
                &&& grid.complete()
                &&& forall|at: PixelCoordinate|
                    at.within(config.width as int, config.height as int) ==> (#[trigger] grid.at(
                        at,
                    )) is Some && renders(
                        at,
                        config.max_iterations,
                        *sample,
                        *within,
                        *step,
                        *gradient,
                        grid.at(at).unwrap(),
                    )
            },
            Err(e) => refusal(*config, strategy) == Some(e),
        },
{
    match preflight(config, strategy) {
        Ok(()) => {},
        Err(e) => {
            return Err(e);
        },
    }
    let width = config.width;
    let height = config.height;
    let iterations = config.max_iterations;
    let total = unit_count(width, height);
    assert(total > 0) by (nonlinear_arith)
        requires
            total == width * height,
            width > 0,
            height > 0,
    ;
    assert(3 * width * height == 3 * (width * height)) by (nonlinear_arith);
    let lanes = strategy.lane_count(total);
    let mut grid = OutputGrid::new(width, height);
    proof {
        assert forall|at: PixelCoordinate| at.within(width as int, height as int) implies (
        #[trigger] grid.at(at)) is None && !reached(
            place_unit(at, height as int),
            0,
            0,
            lanes as int,
        ) by {
            lemma_cell_index_in_range(at.x as int, at.y as int, width as int, height as int);
            lemma_place_unit(at, width as int, height as int);
            lemma_reached_bounds(place_unit(at, height as int), lanes as int);
        }
    }
    let mut j: u64 = 0;
    while j < lanes
        invariant
            width == config.width,
            height == config.height,
            iterations == config.max_iterations,
            total == width * height,
            3 * total <= isize::MAX,
            0 < lanes <= total,
            j <= lanes,
            grid.wf(),
            grid.spec_width() == width,
            grid.spec_height() == height,
            forall|at: PixelCoordinate|
                at.within(width as int, height as int) ==> (*sample).requires((at,)),
            forall|z: Z| (*within).requires((&z,)),
            forall|z: Z| (*step).requires((z,)),
            forall|n: u32| n < iterations ==> (*gradient).requires((n, iterations)),
            forall|at: PixelCoordinate|
                at.within(width as int, height as int) ==> ((#[trigger] grid.at(at)) is Some
                    <==> reached(place_unit(at, height as int), j as int, 0, lanes as int)),
            forall|at: PixelCoordinate|
                at.within(width as int, height as int) && (#[trigger] grid.at(at)) is Some
                    ==> renders(
                    at,
                    iterations,
                    *sample,
                    *within,
                    *step,
                    *gradient,
                    grid.at(at).unwrap(),
                ),
        decreases lanes - j,
    {
        let mut k: u64 = j;
        let ghost mut i: int = 0;
        while k < total
            invariant
                width == config.width,
                height == config.height,
                iterations == config.max_iterations,
                total == width * height,
                3 * total <= isize::MAX,
                0 < lanes <= total,
                j < lanes,
                0 <= i,
                k == lane_unit(j as int, i, lanes as int),
                grid.wf(),
                grid.spec_width() == width,
                grid.spec_height() == height,
                forall|at: PixelCoordinate|
                    at.within(width as int, height as int) ==> (*sample).requires((at,)),
                forall|z: Z| (*within).requires((&z,)),
                forall|z: Z| (*step).requires((z,)),
                forall|n: u32| n < iterations ==> (*gradient).requires((n, iterations)),
                forall|at: PixelCoordinate|
                    at.within(width as int, height as int) ==> ((#[trigger] grid.at(at)) is Some
                        <==> reached(place_unit(at, height as int), j as int, i, lanes as int)),
                forall|at: PixelCoordinate|
                    at.within(width as int, height as int) && (#[trigger] grid.at(at)) is Some
                        ==> renders(
                        at,
                        iterations,
                        *sample,
                        *within,
                        *step,
                        *gradient,
                        grid.at(at).unwrap(),
                    ),
            decreases total + lanes - k,
        {
            let at = place_of(k, width, height);
            let z0 = sample(at);
            let color = color_generator(z0, iterations, within, step, gradient);
            let ghost before = grid;
            proof {
                lemma_lane_unit(j as int, i, lanes as int);
                assert(!reached(k as int, j as int, i, lanes as int));
                assert(before.at(at) is None);
                assert(renders(at, iterations, *sample, *within, *step, *gradient, color));
            }
            match grid.write(at, color) {
                Ok(()) => {},
                Err(e) => {
                    return Err(RenderError::Compute(ComputeFailure::WriteRefused(e)));
                },
            }
            proof {
                assert forall|other: PixelCoordinate|
                    other.within(width as int, height as int) implies ((#[trigger] grid.at(other)) is Some
                    <==> reached(place_unit(other, height as int), j as int, i + 1, lanes as int))
                    && (grid.at(other) is Some ==> renders(
                    other,
                    iterations,
                    *sample,
                    *within,
                    *step,
                    *gradient,
                    grid.at(other).unwrap(),
                )) by {
                    lemma_cell_index_in_range(
                        other.x as int,
                        other.y as int,
                        width as int,
                        height as int,
                    );
                    lemma_cell_index_in_range(at.x as int, at.y as int, width as int, height as int);
                    if other == at {
                        assert(grid.at(other) == Some(color));
                    } else {
                        if other.index(width as int) == at.index(width as int) {
                            lemma_index_injective(other, at, width as int, height as int);
                        }
                        assert(grid.at(other) == before.at(other));
                        lemma_place_unit(other, width as int, height as int);
                        let u = place_unit(other, height as int);
                        assert(u != k);
                        lemma_fundamental_div_mod(u, lanes as int);
                        assert(!(u % (lanes as int) == j && u / (lanes as int) == i))
                            by (nonlinear_arith)
                            requires
                                u == lanes * (u / (lanes as int)) + u % (lanes as int),
                                k == j + i * lanes,
                                u != k,
                        ;
                        assert(reached(u, j as int, i + 1, lanes as int) == reached(
                            u,
                            j as int,
                            i,
                            lanes as int,
                        ));
                    }
                }
                assert((i + 1) * lanes == i * lanes + lanes) by (nonlinear_arith);
                i = i + 1;
            }
            k = k + lanes;
        }
        proof {
            assert forall|at: PixelCoordinate|
                at.within(width as int, height as int) implies ((#[trigger] grid.at(at)) is Some
                <==> reached(place_unit(at, height as int), j + 1, 0, lanes as int)) by {
                let u = place_unit(at, height as int);
                lemma_place_unit(at, width as int, height as int);
                if u % (lanes as int) == j {
                    lemma_fundamental_div_mod(u, lanes as int);
                    let q = u / (lanes as int);
                    assert(q < i) by (nonlinear_arith)
                        requires
                            u == lanes * q + j,
                            u < total,
                            total <= j + i * lanes,
                            lanes > 0,
                    ;
                }
            }
        }
        j = j + 1;
    }
    proof {
        assert forall|m: int| 0 <= m < grid.cells().len() implies (#[trigger] grid.cells()[m]) is Some by {
            lemma_place_of_index(m, width as int, height as int);
            let at = PixelCoordinate { x: (m % (width as int)) as u32, y: (m / (width as int)) as u32 };
            lemma_place_unit(at, width as int, height as int);
            lemma_reached_bounds(place_unit(at, height as int), lanes as int);
            assert(grid.at(at) is Some);
        }
    }
    Ok(grid)
}

/// What gathering the units into a grid of the given size comes to: a
/// failure where the grid is too large to hold; else the refusal of the
/// first write that the grid refuses; else, where a cell is left unwritten,
/// the first such cell; else the finished cells.
pub open spec fn gathered(width: int, height: int, units: Seq<Painted>) -> Result<
    Seq<Option<Color>>,
    RenderError,
> {
    if !representable(width, height) {
        Err(RenderError::Compute(ComputeFailure::ResourceExhausted))
    } else {
        gathered_cells(width, height, units)
    }
}

/// What gathering the units comes to on a grid that can be held.
pub open spec fn gathered_cells(width: int, height: int, units: Seq<Painted>) -> Result<
    Seq<Option<Color>>,
    RenderError,
> {
    match deposit(blank(width, height), width, height, units) {
        Err(e) => Err(RenderError::Compute(ComputeFailure::WriteRefused(e))),
        Ok(cells) => if all_written(cells) {
            Ok(cells)
        } else {
            Err(
                RenderError::Assembly(
                    AssemblyError::Unwritten(first_gap(cells, width, height)),
                ),
            )
        },
    }
}

/// The first place of a grid whose cell has not been written.
pub open spec fn first_gap(cells: Seq<Option<Color>>, width: int, height: int) -> PixelCoordinate {
    choose|at: PixelCoordinate| is_first_unwritten(cells, width, height, at)
}

/// Gathers the results of the workers, in whatever order they came, into a
/// grid. Each result must be for a place on the grid that no earlier result
/// was for, and together they must leave no cell unwritten.
pub fn gather(width: u32, height: u32, units: &Vec<Painted>) -> (out: Result<
    OutputGrid,
    RenderError,
>)
    ensures
        match out {
            Ok(grid) => {
                &&& grid.wf()
                &&& grid.spec_width() == width
                &&& grid.spec_height() == height
                &&& grid.complete()
                &&& gathered(width as int, height as int, units@) == Ok::<
                    Seq<Option<Color>>,
                    RenderError,
                >(grid.cells())
            },
            Err(e) => gathered(width as int, height as int, units@) == Err::<
                Seq<Option<Color>>,
                RenderError,
            >(e),
        },
{
    if !OutputGrid::fits(width, height) {
        return Err(RenderError::Compute(ComputeFailure::ResourceExhausted));
    }
    let mut grid = OutputGrid::new(width, height);
    let mut n: usize = 0;
    assert(units@.skip(0) =~= units@);
    while n < units.len()
        invariant
            n <= units@.len(),
            grid.wf(),
            grid.spec_width() == width,
            grid.spec_height() == height,
            deposit(blank(width as int, height as int), width as int, height as int, units@)
                == deposit(grid.cells(), width as int, height as int, units@.skip(n as int)),
        decreases units@.len() - n,
    {
        let unit = units[n];
        let ghost rest = units@.skip(n as int);
        assert(rest[0] == unit);
        assert(rest.drop_first() =~= units@.skip(n + 1));
        match grid.write(unit.at, unit.color) {
            Ok(()) => {},
            Err(e) => {
                return Err(RenderError::Compute(ComputeFailure::WriteRefused(e)));
            },
        }
        n = n + 1;
    }
    assert(units@.skip(n as int).len() == 0);
    match grid.first_unwritten() {
        None => Ok(grid),
        Some(at) => {
            proof {
                lemma_first_unwritten_unique(
                    grid.cells(),
                    width as int,
                    height as int,
                    at,
                    first_gap(grid.cells(), width as int, height as int),
                );
            }
            Err(RenderError::Assembly(AssemblyError::Unwritten(at)))
        },
    }
}

/// A grid has at most one first unwritten place.
pub proof fn lemma_first_unwritten_unique(
    cells: Seq<Option<Color>>,
    width: int,
    height: int,
    a: PixelCoordinate,
    b: PixelCoordinate,
)
    requires
        is_first_unwritten(cells, width, height, a),
        is_first_unwritten(cells, width, height, b),
    ensures
        a == b,
{
    lemma_cell_index_in_range(a.x as int, a.y as int, width, height);
    lemma_cell_index_in_range(b.x as int, b.y as int, width, height);
    if a.index(width) < b.index(width) {
        assert(cells[a.index(width)] is Some);
    } else if b.index(width) < a.index(width) {
        assert(cells[b.index(width)] is Some);
    }
    lemma_index_injective(a, b, width, height);
}

/// Renders the image: computes every pixel as [`render`] does and hands the
/// finished grid on as a canvas, the pixel in column `x` of row `y` holding
/// the colour computed for that place.
pub fn generate_image_buffer<
    Z,
    M: Fn(PixelCoordinate) -> Z,
    W: Fn(&Z) -> bool,
    S: Fn(Z) -> Z,
    G: Fn(u32, u32) -> Shade,
>(
    config: &RenderConfig,
    strategy: Strategy,
    sample: &M,
    within: &W,
    step: &S,
    gradient: &G,
) -> (out: Result<Canvas, RenderError>)
    requires
        forall|at: PixelCoordinate|
            at.within(config.width as int, config.height as int) ==> (*sample).requires((at,)),
        forall|z: Z| (*within).requires((&z,)),
        forall|z: Z| (*step).requires((z,)),
        forall|n: u32| n < config.max_iterations ==> (*gradient).requires((n, config.max_iterations)),
    ensures
        match out {
            Ok(canvas) => {
                &&& refusal(*config, strategy) is None
                &&& canvas.wf()
                &&& canvas.spec_width() == config.width
                &&& canvas.spec_height() == config.height
                &&& forall|at: PixelCoordinate|
                    at.within(config.width as int, config.height as int) ==> renders(
                        at,
                        config.max_iterations,
                        *sample,
                        *within,
                        *step,
                        *gradient,
                        #[trigger] canvas.at(at.x as int, at.y as int),
                    )
            },
            Err(e) => refusal(*config, strategy) == Some(e),
        },
{
    let grid = match render(config, strategy, sample, within, step, gradient) {
        Ok(grid) => grid,
        Err(e) => {
            return Err(e);
        },
    };
    match grid.assemble() {
        Ok(canvas) => {
            proof {
                assert forall|at: PixelCoordinate|
                    at.within(config.width as int, config.height as int) implies renders(
                    at,
                    config.max_iterations,
                    *sample,
                    *within,
                    *step,
                    *gradient,
                    #[trigger] canvas.at(at.x as int, at.y as int),
                ) by {
                    lemma_cell_index_in_range(
                        at.x as int,
                        at.y as int,
                        config.width as int,
                        config.height as int,
                    );
                    assert(grid.at(at) is Some);
                    assert(grid.cells()[at.index(config.width as int)] == Some(
                        canvas.pixels()[at.index(config.width as int)],
                    ));
                }
            }
            Ok(canvas)
        },
        Err(e) => Err(RenderError::Assembly(e)),
    }
}

/// Every unit is in exactly one lane, at exactly one position: unit `k` is
/// item `k / lanes` of lane `k % lanes`, and of no other lane and at no other
/// position.
pub proof fn lemma_unit_in_one_lane(k: int, lanes: int)
    requires
        0 <= k,
        0 < lanes,
    ensures
        0 <= k % lanes < lanes,
        0 <= k / lanes,
        lane_unit(k % lanes, k / lanes, lanes) == k,
        forall|j: int, i: int|
            0 <= j < lanes && 0 <= i && #[trigger] lane_unit(j, i, lanes) == k ==> j == k % lanes
                && i == k / lanes,
{
    lemma_fundamental_div_mod(k, lanes);
    assert(0 <= k % lanes < lanes && 0 <= k / lanes) by (nonlinear_arith)
        requires
            0 <= k,
            0 < lanes,
    ;
    assert(lanes * (k / lanes) == (k / lanes) * lanes) by (nonlinear_arith);
    assert forall|j: int, i: int|
        0 <= j < lanes && 0 <= i && #[trigger] lane_unit(j, i, lanes) == k implies j == k % lanes
        && i == k / lanes by {
        lemma_lane_unit(j, i, lanes);
    }
}

/// Every place of the canvas is in exactly one lane, at exactly one position
/// of it, however many lanes there are: some lane `j` holds the place as its
/// item `i`, and no other lane or position does.
pub proof fn lemma_place_in_one_lane(at: PixelCoordinate, width: int, height: int, lanes: int)
    requires
        0 <= width <= u32::MAX,
        0 <= height <= u32::MAX,
        at.within(width, height),
        0 < lanes,
    ensures
        exists|j: int, i: int|
            holds(j, i, lanes, width, height, at) && forall|j2: int, i2: int| #[trigger]
                holds(j2, i2, lanes, width, height, at) ==> j2 == j && i2 == i,
{
    let k = place_unit(at, height);
    lemma_place_unit(at, width, height);
    lemma_unit_in_one_lane(k, lanes);
    let j = k % lanes;
    let i = k / lanes;
    assert(holds(j, i, lanes, width, height, at));
    assert forall|j2: int, i2: int| #[trigger]
        holds(j2, i2, lanes, width, height, at) implies j2 == j && i2 == i by {
        let u = lane_unit(j2, i2, lanes);
        assert(0 <= u) by (nonlinear_arith)
            requires
                u == j2 + i2 * lanes,
                0 <= j2,
                0 <= i2,
                0 < lanes,
        ;
        lemma_unit_place(u, width, height);
        assert(u == k);
    }
}

/// `sample` gives one point for each place.
pub open spec fn samples_once<Z, M: Fn(PixelCoordinate) -> Z>(sample: M) -> bool {
    forall|at: PixelCoordinate, a: Z, b: Z|
        sample.ensures((at,), a) && sample.ensures((at,), b) ==> a == b
}

/// The colour of a pixel is a function of its place and the budget, where
/// the four functions of the plane's arithmetic are functions: a place can
/// be given one colour only.
pub proof fn lemma_renders_unique<
    Z,
    M: Fn(PixelCoordinate) -> Z,
    W: Fn(&Z) -> bool,
    S: Fn(Z) -> Z,
    G: Fn(u32, u32) -> Shade,
>(
    at: PixelCoordinate,
    iterations: u32,
    sample: M,
    within: W,
    step: S,
    gradient: G,
    c1: Color,
    c2: Color,
)
    requires
        renders(at, iterations, sample, within, step, gradient, c1),
        renders(at, iterations, sample, within, step, gradient, c2),
        samples_once(sample),
        decides_once(within),
        steps_once(step),
        shades_once(gradient),
    ensures
        c1 == c2,
{
    let z1 = choose|z0: Z| #[trigger]
        sample.ensures((at,), z0) && generates(z0, iterations, within, step, gradient, c1);
    let z2 = choose|z0: Z| #[trigger]
        sample.ensures((at,), z0) && generates(z0, iterations, within, step, gradient, c2);
    assert(z1 == z2);
    lemma_generates_unique(z1, iterations, within, step, gradient, c1, c2);
}

/// The finished grid does not depend on the strategy, nor on the run. Where
/// the four functions of the plane's arithmetic are functions, any two
/// finished grids of one configuration hold the same cells, under whatever
/// strategies they were made.
pub proof fn lemma_strategy_irrelevant<
    Z,
    M: Fn(PixelCoordinate) -> Z,
    W: Fn(&Z) -> bool,
    S: Fn(Z) -> Z,
    G: Fn(u32, u32) -> Shade,
>(
    a: OutputGrid,
    b: OutputGrid,
    config: RenderConfig,
    sample: M,
    within: W,
    step: S,
    gradient: G,
)
    requires
        a.wf(),
        b.wf(),
        a.spec_width() == config.width && a.spec_height() == config.height,
        b.spec_width() == config.width && b.spec_height() == config.height,
        forall|at: PixelCoordinate|
            at.within(config.width as int, config.height as int) ==> (#[trigger] a.at(at)) is Some
                && renders(
                at,
                config.max_iterations,
                sample,
                within,
                step,
                gradient,
                a.at(at).unwrap(),
            ),
        forall|at: PixelCoordinate|
            at.within(config.width as int, config.height as int) ==> (#[trigger] b.at(at)) is Some
                && renders(
                at,
                config.max_iterations,
                sample,
                within,
                step,
                gradient,
                b.at(at).unwrap(),
            ),
        samples_once(sample),
        decides_once(within),
        steps_once(step),
        shades_once(gradient),
    ensures
        a.cells() == b.cells(),
{
    let width = config.width as int;
    let height = config.height as int;
    assert forall|m: int| 0 <= m < a.cells().len() implies a.cells()[m] == b.cells()[m] by {
        assert(width > 0) by (nonlinear_arith)
            requires
                0 <= m < width * height,
                0 <= width,
                0 <= height,
        ;
        lemma_place_of_index(m, width, height);
        let at = PixelCoordinate { x: (m % width) as u32, y: (m / width) as u32 };
        assert(a.at(at) is Some);
        assert(b.at(at) is Some);
        lemma_renders_unique(
            at,
            config.max_iterations,
            sample,
            within,
            step,
            gradient,
            a.at(at).unwrap(),
            b.at(at).unwrap(),
        );
    }
    assert(a.cells() =~= b.cells());
}

/// Two images of one configuration are the same, byte for byte, under
/// whatever strategies they were made, where the four functions of the
/// plane's arithmetic are functions.
pub proof fn lemma_image_same_bytes<
    Z,
    M: Fn(PixelCoordinate) -> Z,
    W: Fn(&Z) -> bool,
    S: Fn(Z) -> Z,
    G: Fn(u32, u32) -> Shade,
>(
    a: Canvas,
    b: Canvas,
    config: RenderConfig,
    sample: M,
    within: W,
    step: S,
    gradient: G,
)
    requires
        a.wf(),
        b.wf(),
        a.spec_width() == config.width && a.spec_height() == config.height,
        b.spec_width() == config.width && b.spec_height() == config.height,
        forall|at: PixelCoordinate|
            at.within(config.width as int, config.height as int) ==> renders(
                at,
                config.max_iterations,
                sample,
                within,
                step,
                gradient,
                #[trigger] a.at(at.x as int, at.y as int),
            ),
        forall|at: PixelCoordinate|
            at.within(config.width as int, config.height as int) ==> renders(
                at,
                config.max_iterations,
                sample,
                within,
                step,
                gradient,
                #[trigger] b.at(at.x as int, at.y as int),
            ),
        samples_once(sample),
        decides_once(within),
        steps_once(step),
        shades_once(gradient),
    ensures
        a.pixels() == b.pixels(),
        channels(a.pixels()) == channels(b.pixels()),
{
    let width = config.width as int;
    let height = config.height as int;
    assert forall|m: int| 0 <= m < a.pixels().len() implies a.pixels()[m] == b.pixels()[m] by {
        assert(width > 0) by (nonlinear_arith)
            requires
                0 <= m < width * height,
                0 <= width,
                0 <= height,
        ;
        lemma_place_of_index(m, width, height);
        let at = PixelCoordinate { x: (m % width) as u32, y: (m / width) as u32 };
        assert(a.at(at.x as int, at.y as int) == a.pixels()[m]);
        assert(b.at(at.x as int, at.y as int) == b.pixels()[m]);
        lemma_renders_unique(
            at,
            config.max_iterations,
            sample,
            within,
            step,
            gradient,
            a.pixels()[m],
            b.pixels()[m],
        );
    }
    assert(a.pixels() =~= b.pixels());
}

} // verus!
