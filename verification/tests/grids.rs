use julia::canvas::Canvas;
use julia::color::Color;
use julia::dispatch::{gather, ComputeFailure, RenderError};
use julia::grid::{AssemblyError, GridError, OutputGrid, Painted, PixelCoordinate};

fn at(x: u32, y: u32) -> PixelCoordinate {
    PixelCoordinate { x, y }
}

fn shade_of(x: u32, y: u32) -> Color {
    Color { r: (10 * x + y) as u8, g: (x + 1) as u8, b: (y + 1) as u8 }
}

fn all_units(width: u32, height: u32) -> Vec<Painted> {
    let mut units = Vec::new();
    for x in 0..width {
        for y in 0..height {
            units.push(Painted { at: at(x, y), color: shade_of(x, y) });
        }
    }
    units
}

#[test]
fn a_new_canvas_is_black() {
    let canvas = Canvas::new(3, 2);
    assert_eq!(canvas.dimensions(), (3, 2));
    assert_eq!(canvas.width(), 3);
    assert_eq!(canvas.height(), 2);
    assert!(!canvas.is_empty());
    for y in 0..2 {
        for x in 0..3 {
            assert_eq!(canvas.get_pixel(x, y), Color::black());
        }
    }
    assert_eq!(canvas.into_raw(), vec![0u8; 18]);
}

#[test]
fn a_canvas_without_rows_is_empty() {
    assert!(Canvas::new(4, 0).is_empty());
    assert!(Canvas::new(0, 4).is_empty());
    assert_eq!(Canvas::new(4, 0).dimensions(), (4, 0));
    assert!(Canvas::new(0, 0).into_raw().is_empty());
}

#[test]
fn a_pixel_put_is_the_pixel_got() {
    let mut canvas = Canvas::new(3, 2);
    canvas.put_pixel(2, 1, Color { r: 1, g: 2, b: 3 });
    canvas.put_pixel(0, 0, Color { r: 9, g: 8, b: 7 });
    assert_eq!(canvas.get_pixel(2, 1), Color { r: 1, g: 2, b: 3 });
    assert_eq!(canvas.get_pixel(0, 0), Color { r: 9, g: 8, b: 7 });
    assert_eq!(canvas.get_pixel(1, 0), Color::black());
    assert_eq!(canvas.get_pixel(1, 1), Color::black());
    assert_eq!(canvas.dimensions(), (3, 2));
}

#[test]
fn raw_bytes_go_row_by_row() {
    let mut canvas = Canvas::new(2, 2);
    canvas.put_pixel(1, 0, Color { r: 1, g: 2, b: 3 });
    canvas.put_pixel(0, 1, Color { r: 4, g: 5, b: 6 });
    assert_eq!(canvas.into_raw(), vec![0, 0, 0, 1, 2, 3, 4, 5, 6, 0, 0, 0]);
}

#[test]
fn sizes_that_fit() {
    assert!(Canvas::fits(200, 200));
    assert!(Canvas::fits(0, u32::MAX));
    assert!(Canvas::fits(u32::MAX, 1));
    assert!(!Canvas::fits(u32::MAX, u32::MAX));
    let row_is_a_usize = 3 * (u32::MAX as u64) <= usize::MAX as u64;
    assert_eq!(Canvas::fits(u32::MAX, 0), row_is_a_usize);
    assert_eq!(Canvas::fits(1_431_655_766, 0), 3 * 1_431_655_766u64 <= usize::MAX as u64);
    assert_eq!(OutputGrid::fits(2_000_000_000, 0), 6_000_000_000u64 <= usize::MAX as u64);
    assert!(Canvas::fits(1_431_655_765, 0));
    assert_eq!(OutputGrid::fits(200, 200), Canvas::fits(200, 200));
    assert_eq!(OutputGrid::fits(u32::MAX, u32::MAX), Canvas::fits(u32::MAX, u32::MAX));
}

#[test]
fn a_new_grid_has_no_cell_written() {
    let grid = OutputGrid::new(3, 2);
    assert_eq!(grid.dimensions(), (3, 2));
    assert_eq!(grid.width(), 3);
    assert_eq!(grid.height(), 2);
    assert!(!grid.is_complete());
    assert_eq!(grid.first_unwritten(), Some(at(0, 0)));
    for y in 0..2 {
        for x in 0..3 {
            assert_eq!(grid.get(at(x, y)), None);
        }
    }
    assert_eq!(grid.get(at(3, 0)), None);
    assert_eq!(grid.get(at(0, 2)), None);
}

#[test]
fn a_cell_is_written_once() {
    let mut grid = OutputGrid::new(3, 2);
    let red = Color { r: 255, g: 0, b: 0 };
    let blue = Color { r: 0, g: 0, b: 255 };
    assert_eq!(grid.write(at(2, 1), red), Ok(()));
    assert_eq!(grid.get(at(2, 1)), Some(red));
    assert_eq!(grid.write(at(2, 1), blue), Err(GridError::AlreadyWritten));
    assert_eq!(grid.write(at(2, 1), red), Err(GridError::AlreadyWritten));
    assert_eq!(grid.get(at(2, 1)), Some(red));
    assert_eq!(grid.get(at(1, 1)), None);
    assert_eq!(grid.get(at(2, 0)), None);
}

#[test]
fn a_place_outside_is_refused() {
    let mut grid = OutputGrid::new(3, 2);
    let red = Color { r: 255, g: 0, b: 0 };
    assert_eq!(grid.write(at(3, 0), red), Err(GridError::OutOfBounds));
    assert_eq!(grid.write(at(0, 2), red), Err(GridError::OutOfBounds));
    assert_eq!(grid.write(at(u32::MAX, u32::MAX), red), Err(GridError::OutOfBounds));
    assert_eq!(grid.first_unwritten(), Some(at(0, 0)));
    let mut none = OutputGrid::new(0, 5);
    assert_eq!(none.write(at(0, 0), red), Err(GridError::OutOfBounds));
    assert!(none.is_complete());
}

#[test]
fn the_first_unwritten_cell_is_found_row_by_row() {
    let mut grid = OutputGrid::new(3, 2);
    let c = Color { r: 1, g: 1, b: 1 };
    grid.write(at(0, 0), c).unwrap();
    grid.write(at(0, 1), c).unwrap();
    assert_eq!(grid.first_unwritten(), Some(at(1, 0)));
    grid.write(at(1, 0), c).unwrap();
    grid.write(at(2, 0), c).unwrap();
    assert_eq!(grid.first_unwritten(), Some(at(1, 1)));
    assert!(grid.assemble().is_err());
    assert_eq!(grid.assemble().err(), Some(AssemblyError::Unwritten(at(1, 1))));
    grid.write(at(1, 1), c).unwrap();
    assert_eq!(grid.first_unwritten(), Some(at(2, 1)));
    grid.write(at(2, 1), c).unwrap();
    assert_eq!(grid.first_unwritten(), None);
    assert!(grid.is_complete());
}

#[test]
fn a_finished_grid_becomes_an_image() {
    let mut grid = OutputGrid::new(3, 2);
    for x in 0..3 {
        for y in 0..2 {
            grid.write(at(x, y), shade_of(x, y)).unwrap();
        }
    }
    let canvas = grid.assemble().ok().unwrap();
    assert_eq!(canvas.dimensions(), (3, 2));
    for x in 0..3 {
        for y in 0..2 {
            assert_eq!(canvas.get_pixel(x, y), shade_of(x, y));
        }
    }
    assert_eq!(
        canvas.into_raw(),
        vec![0, 1, 1, 10, 2, 1, 20, 3, 1, 1, 1, 2, 11, 2, 2, 21, 3, 2]
    );
}

#[test]
fn an_unfinished_grid_is_refused() {
    let grid = OutputGrid::new(2, 2);
    assert_eq!(grid.assemble().err(), Some(AssemblyError::Unwritten(at(0, 0))));
}

#[test]
fn gathering_fills_the_grid() {
    let grid = gather(3, 2, &all_units(3, 2)).ok().unwrap();
    assert!(grid.is_complete());
    assert_eq!(grid.dimensions(), (3, 2));
    for x in 0..3 {
        for y in 0..2 {
            assert_eq!(grid.get(at(x, y)), Some(shade_of(x, y)));
        }
    }
}

#[test]
fn gathering_does_not_depend_on_the_order() {
    let forward = all_units(4, 3);
    let mut backward = forward.clone();
    backward.reverse();
    let mut shuffled = Vec::new();
    for k in 0..12 {
        shuffled.push(forward[(k * 5 + 7) % 12]);
    }
    let a = gather(4, 3, &forward).ok().unwrap().assemble().ok().unwrap().into_raw();
    let b = gather(4, 3, &backward).ok().unwrap().assemble().ok().unwrap().into_raw();
    let c = gather(4, 3, &shuffled).ok().unwrap().assemble().ok().unwrap().into_raw();
    assert_eq!(a, b);
    assert_eq!(a, c);
}

#[test]
fn gathering_refuses_a_second_result_for_a_cell() {
    let mut units = all_units(2, 2);
    units.push(Painted { at: at(1, 1), color: Color::black() });
    assert_eq!(
        gather(2, 2, &units).err(),
        Some(RenderError::Compute(ComputeFailure::WriteRefused(GridError::AlreadyWritten)))
    );
}

#[test]
fn gathering_refuses_a_result_for_a_place_outside() {
    let mut units = all_units(2, 2);
    units.insert(1, Painted { at: at(2, 0), color: Color::black() });
    assert_eq!(
        gather(2, 2, &units).err(),
        Some(RenderError::Compute(ComputeFailure::WriteRefused(GridError::OutOfBounds)))
    );
}

#[test]
fn gathering_reports_the_first_refusal() {
    let units = vec![
        Painted { at: at(0, 0), color: Color::black() },
        Painted { at: at(0, 0), color: Color::black() },
        Painted { at: at(9, 9), color: Color::black() },
    ];
    assert_eq!(
        gather(2, 2, &units).err(),
        Some(RenderError::Compute(ComputeFailure::WriteRefused(GridError::AlreadyWritten)))
    );
}

#[test]
fn gathering_refuses_a_grid_with_a_gap() {
    let mut units = all_units(3, 2);
    units.retain(|u| u.at != at(1, 1) && u.at != at(2, 1));
    assert_eq!(
        gather(3, 2, &units).err(),
        Some(RenderError::Assembly(AssemblyError::Unwritten(at(1, 1))))
    );
    assert_eq!(
        gather(1, 1, &Vec::new()).err(),
        Some(RenderError::Assembly(AssemblyError::Unwritten(at(0, 0))))
    );
}
