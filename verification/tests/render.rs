use julia::binary64::Binary64;
use julia::canvas::Canvas;
use julia::color::Color;
use julia::config::{ConfigError, RenderConfig};
use julia::dispatch::{
    gather, generate_image_buffer, lane, place_of, plan, preflight, render, unit_count,
    ComputeFailure, RenderError, Strategy,
};
use julia::escape::{color_generator, Shade};
use julia::grid::{Painted, PixelCoordinate};
use num_complex::Complex;

fn julia_image(
    width: u32,
    height: u32,
    iterations: u32,
    scale: f64,
    zoom: f64,
    strategy: Strategy,
) -> Result<Canvas, RenderError> {
    let config = RenderConfig {
        width,
        height,
        capture_width: width,
        capture_height: height,
        max_iterations: iterations,
        scale: Binary64::from_bits(scale.to_bits()),
        zoom: Binary64::from_bits(zoom.to_bits()),
    };
    let c = Complex::new(0.353343, 0.5133225);
    let (w, h) = (width as f64, height as f64);
    let (c_w, c_h) = ((w / zoom) as u32, (h / zoom) as u32);
    let sample = |at: PixelCoordinate| {
        let cx = (at.x as f64 - 0.5 * c_w as f64) * scale / w;
        let cy = (at.y as f64 - 0.5 * c_h as f64) * scale / h;
        Complex::new(cx, cy)
    };
    let within = |z: &Complex<f64>| z.norm() <= 2.0;
    let step = |z: Complex<f64>| z * z + c;
    let gradient = |n: u32, m: u32| {
        let t = n as f64 / m as f64;
        Shade {
            red: Binary64::from_bits((t.powf(0.2) * 255.0).to_bits()),
            green: Binary64::from_bits((t.powf(0.4) * 255.0).to_bits()),
            blue: Binary64::from_bits(((1.0 - t.powf(0.9)) * 255.0).to_bits()),
        }
    };
    generate_image_buffer(&config, strategy, &sample, &within, &step, &gradient)
}

#[test]
fn test_functional() {
    let capture_width = 200;
    let capture_height = 200;
    let iterations = 300;
    let scale = 3.5;
    let image_buffer_test = julia_image(
        capture_width,
        capture_height,
        iterations,
        scale,
        1.0,
        Strategy::UnboundedTask,
    )
    .unwrap();

    assert!(!image_buffer_test.is_empty());
    assert_eq!(image_buffer_test.dimensions().0, capture_height);
    assert_eq!(image_buffer_test.dimensions().1, capture_width);
}

fn enc(x: f64) -> Binary64 {
    Binary64::from_bits(x.to_bits())
}

fn config(width: u32, height: u32, iterations: u32) -> RenderConfig {
    RenderConfig::new(width, height, width, height, iterations, enc(3.5), enc(1.0)).unwrap()
}

fn strategies() -> Vec<Strategy> {
    vec![
        Strategy::SingleThread,
        Strategy::UnboundedTask,
        Strategy::BoundedPool { workers: 1 },
        Strategy::BoundedPool { workers: 2 },
        Strategy::BoundedPool { workers: 3 },
        Strategy::BoundedPool { workers: 7 },
        Strategy::BoundedPool { workers: 64 },
        Strategy::BoundedPool { workers: u32::MAX },
    ]
}

fn count_black(canvas: &Canvas) -> (u32, u32) {
    let (width, height) = canvas.dimensions();
    let mut black = 0;
    let mut other = 0;
    for y in 0..height {
        for x in 0..width {
            if canvas.get_pixel(x, y).is_black() {
                black += 1;
            } else {
                other += 1;
            }
        }
    }
    (black, other)
}

#[test]
fn the_square_of_200_renders_whole() {
    let canvas = julia_image(200, 200, 300, 3.5, 1.0, Strategy::SingleThread).ok().unwrap();
    assert_eq!(canvas.dimensions(), (200, 200));
    let (black, other) = count_black(&canvas);
    assert!(other >= 1);
    assert_eq!(black + other, 200 * 200);
    assert_eq!(canvas.get_pixel(0, 0), Color { r: 0, g: 0, b: 255 });
    assert_eq!(canvas.into_raw().len(), 3 * 200 * 200);
}

#[test]
fn a_budget_of_100_leaves_interior_and_escaped_pixels() {
    let canvas = julia_image(200, 200, 100, 3.5, 1.0, Strategy::SingleThread).ok().unwrap();
    let (black, other) = count_black(&canvas);
    assert_eq!(black, 20);
    assert_eq!(other, 200 * 200 - 20);
}

#[test]
fn a_budget_of_one_leaves_black_or_the_shade_of_zero() {
    let canvas = julia_image(60, 60, 1, 3.5, 1.0, Strategy::UnboundedTask).ok().unwrap();
    let blue = Color { r: 0, g: 0, b: 255 };
    for y in 0..60 {
        for x in 0..60 {
            let color = canvas.get_pixel(x, y);
            assert!(color == Color::black() || color == blue);
        }
    }
    assert_eq!(canvas.get_pixel(30, 30), Color::black());
    assert_eq!(canvas.get_pixel(0, 30), Color::black());
    assert_eq!(canvas.get_pixel(0, 0), blue);
    assert_eq!(canvas.get_pixel(59, 0), blue);
}

#[test]
fn the_image_is_the_same_under_every_strategy() {
    let reference = julia_image(40, 30, 300, 3.5, 1.0, Strategy::SingleThread)
        .ok()
        .unwrap()
        .into_raw();
    assert_eq!(reference.len(), 3 * 40 * 30);
    for strategy in strategies() {
        let bytes = julia_image(40, 30, 300, 3.5, 1.0, strategy).ok().unwrap().into_raw();
        assert_eq!(bytes, reference, "{:?}", strategy);
    }
}

#[test]
fn each_pixel_is_the_colour_of_its_own_place() {
    let cfg = config(5, 4, 9);
    let sample = |at: PixelCoordinate| (at.x, at.y);
    let within = |_z: &(u32, u32)| false;
    let step = |z: (u32, u32)| z;
    let gradient = |_n: u32, _m: u32| Shade { red: enc(9.0), green: enc(8.0), blue: enc(7.0) };
    for strategy in strategies() {
        let grid = render(&cfg, strategy, &sample, &within, &step, &gradient).ok().unwrap();
        assert!(grid.is_complete());
        assert_eq!(grid.dimensions(), (5, 4));
        assert_eq!(grid.get(PixelCoordinate { x: 4, y: 3 }), Some(Color { r: 9, g: 8, b: 7 }));
    }
    let by_place = |z: &(u32, u32)| (z.0 + z.1) % 2 == 0;
    let to_odd = |z: (u32, u32)| (z.0 + 1, z.1);
    for strategy in strategies() {
        let canvas =
            generate_image_buffer(&cfg, strategy, &sample, &by_place, &to_odd, &gradient)
                .ok()
                .unwrap();
        for x in 0..5 {
            for y in 0..4 {
                assert_eq!(canvas.get_pixel(x, y), Color { r: 9, g: 8, b: 7 });
            }
        }
    }
}

#[test]
fn the_image_holds_what_the_kernel_gives_for_each_place() {
    let cfg = config(6, 5, 4);
    let sample = |at: PixelCoordinate| 10 * at.x + at.y;
    let within = |z: &u32| *z % 10 + *z / 10 < 8;
    let step = |z: u32| z + 11;
    let gradient = |n: u32, m: u32| Shade {
        red: enc(n as f64 + 0.75),
        green: enc(m as f64 + 0.25),
        blue: enc(100.0),
    };
    for strategy in strategies() {
        let canvas = generate_image_buffer(&cfg, strategy, &sample, &within, &step, &gradient)
            .ok()
            .unwrap();
        assert_eq!(canvas.dimensions(), (6, 5));
        for x in 0..6u32 {
            for y in 0..5u32 {
                let expected = color_generator(10 * x + y, 4, &within, &step, &gradient);
                assert_eq!(canvas.get_pixel(x, y), expected);
            }
        }
        assert_eq!(canvas.get_pixel(0, 0), Color::black());
        assert_eq!(canvas.get_pixel(5, 4), Color { r: 0, g: 4, b: 100 });
        assert_eq!(canvas.get_pixel(5, 1), Color { r: 1, g: 4, b: 100 });
        assert_eq!(canvas.get_pixel(3, 1), Color { r: 2, g: 4, b: 100 });
    }
}

#[test]
fn a_zero_width_is_refused_before_any_pixel_is_computed() {
    let cfg = RenderConfig {
        width: 0,
        height: 200,
        capture_width: 200,
        capture_height: 200,
        max_iterations: 300,
        scale: enc(3.5),
        zoom: enc(1.0),
    };
    let sample = |_at: PixelCoordinate| -> u8 { panic!("a pixel was sampled") };
    let within = |_z: &u8| -> bool { panic!("a point was tested") };
    let step = |_z: u8| -> u8 { panic!("a point was stepped") };
    let gradient = |_n: u32, _m: u32| -> Shade { panic!("a shade was asked for") };
    for strategy in strategies() {
        assert_eq!(
            preflight(&cfg, strategy),
            Err(RenderError::Configuration(ConfigError::ZeroWidth))
        );
        assert_eq!(
            render(&cfg, strategy, &sample, &within, &step, &gradient).err(),
            Some(RenderError::Configuration(ConfigError::ZeroWidth))
        );
        assert_eq!(
            generate_image_buffer(&cfg, strategy, &sample, &within, &step, &gradient).err(),
            Some(RenderError::Configuration(ConfigError::ZeroWidth))
        );
    }
}

#[test]
fn every_configuration_fault_stops_the_render() {
    let sample = |_at: PixelCoordinate| -> u8 { panic!("a pixel was sampled") };
    let within = |_z: &u8| true;
    let step = |z: u8| z;
    let gradient = |_n: u32, _m: u32| Shade { red: enc(1.0), green: enc(1.0), blue: enc(1.0) };
    let good = config(2, 2, 2);
    let faults = [
        (RenderConfig { height: 0, ..good }, ConfigError::ZeroHeight),
        (RenderConfig { capture_width: 0, ..good }, ConfigError::ZeroCaptureWidth),
        (RenderConfig { capture_height: 0, ..good }, ConfigError::ZeroCaptureHeight),
        (RenderConfig { max_iterations: 0, ..good }, ConfigError::ZeroIterations),
        (RenderConfig { scale: enc(0.0), ..good }, ConfigError::ScaleNotPositive),
        (RenderConfig { zoom: enc(-2.0), ..good }, ConfigError::ZoomNotPositive),
    ];
    for (cfg, fault) in faults {
        assert_eq!(
            render(&cfg, Strategy::SingleThread, &sample, &within, &step, &gradient).err(),
            Some(RenderError::Configuration(fault))
        );
    }
}

#[test]
fn a_pool_without_workers_is_refused() {
    let cfg = config(2, 2, 2);
    assert_eq!(
        preflight(&cfg, Strategy::BoundedPool { workers: 0 }),
        Err(RenderError::Configuration(ConfigError::NoWorkers))
    );
    assert_eq!(preflight(&cfg, Strategy::BoundedPool { workers: 1 }), Ok(()));
    assert_eq!(preflight(&cfg, Strategy::UnboundedTask), Ok(()));
    assert_eq!(preflight(&cfg, Strategy::SingleThread), Ok(()));
}

#[test]
fn a_canvas_too_large_to_hold_is_refused() {
    let cfg = config(u32::MAX, u32::MAX, 2);
    assert_eq!(
        preflight(&cfg, Strategy::SingleThread),
        Err(RenderError::Compute(ComputeFailure::ResourceExhausted))
    );
    let bad = RenderConfig { max_iterations: 0, ..cfg };
    assert_eq!(
        preflight(&bad, Strategy::BoundedPool { workers: 0 }),
        Err(RenderError::Configuration(ConfigError::ZeroIterations))
    );
}

#[test]
fn units_go_down_the_columns() {
    assert_eq!(unit_count(3, 2), 6);
    assert_eq!(unit_count(0, 7), 0);
    assert_eq!(unit_count(u32::MAX, u32::MAX), 18446744065119617025);
    assert_eq!(place_of(0, 3, 2), PixelCoordinate { x: 0, y: 0 });
    assert_eq!(place_of(1, 3, 2), PixelCoordinate { x: 0, y: 1 });
    assert_eq!(place_of(2, 3, 2), PixelCoordinate { x: 1, y: 0 });
    assert_eq!(place_of(5, 3, 2), PixelCoordinate { x: 2, y: 1 });
}

#[test]
fn lanes_of_each_strategy() {
    assert_eq!(Strategy::SingleThread.lane_count(6), 1);
    assert_eq!(Strategy::UnboundedTask.lane_count(6), 6);
    assert_eq!(Strategy::BoundedPool { workers: 4 }.lane_count(6), 4);
    assert_eq!(Strategy::BoundedPool { workers: 6 }.lane_count(6), 6);
    assert_eq!(Strategy::BoundedPool { workers: 9 }.lane_count(6), 6);
    assert_eq!(Strategy::BoundedPool { workers: 0 }.lane_count(6), 0);
    assert_eq!(Strategy::SingleThread.lane_count(0), 0);
    let p = |x, y| PixelCoordinate { x, y };
    assert_eq!(
        lane(Strategy::SingleThread, 3, 2, 0),
        vec![p(0, 0), p(0, 1), p(1, 0), p(1, 1), p(2, 0), p(2, 1)]
    );
    assert_eq!(lane(Strategy::UnboundedTask, 3, 2, 4), vec![p(2, 0)]);
    let pool = Strategy::BoundedPool { workers: 4 };
    assert_eq!(lane(pool, 3, 2, 0), vec![p(0, 0), p(2, 0)]);
    assert_eq!(lane(pool, 3, 2, 1), vec![p(0, 1), p(2, 1)]);
    assert_eq!(lane(pool, 3, 2, 2), vec![p(1, 0)]);
    assert_eq!(lane(pool, 3, 2, 3), vec![p(1, 1)]);
}

#[test]
fn the_lanes_hold_every_place_once() {
    for strategy in strategies() {
        for (width, height) in [(1u32, 1u32), (3, 2), (2, 5), (7, 7), (16, 3)] {
            let total = unit_count(width, height);
            let lanes = strategy.lane_count(total);
            let mut seen = vec![0u32; total as usize];
            let mut units = Vec::new();
            for j in 0..lanes {
                for at in lane(strategy, width, height, j) {
                    assert!(at.x < width && at.y < height);
                    seen[(at.y * width + at.x) as usize] += 1;
                    units.push(Painted { at, color: Color { r: at.x as u8, g: at.y as u8, b: 0 } });
                }
            }
            assert!(seen.iter().all(|&n| n == 1), "{:?}", strategy);
            let grid = gather(width, height, &units).ok().unwrap();
            assert!(grid.is_complete());
        }
    }
}

#[test]
fn the_plan_is_the_lanes_in_turn() {
    let p = |x, y| PixelCoordinate { x, y };
    assert_eq!(
        plan(Strategy::BoundedPool { workers: 4 }, 3, 2),
        vec![vec![p(0, 0), p(2, 0)], vec![p(0, 1), p(2, 1)], vec![p(1, 0)], vec![p(1, 1)]]
    );
    assert_eq!(
        plan(Strategy::SingleThread, 2, 2),
        vec![vec![p(0, 0), p(0, 1), p(1, 0), p(1, 1)]]
    );
    assert_eq!(
        plan(Strategy::UnboundedTask, 2, 2),
        vec![vec![p(0, 0)], vec![p(0, 1)], vec![p(1, 0)], vec![p(1, 1)]]
    );
    assert!(plan(Strategy::BoundedPool { workers: 0 }, 2, 2).is_empty());
    for strategy in strategies() {
        let lanes = plan(strategy, 5, 3);
        assert_eq!(lanes.len() as u64, strategy.lane_count(15));
        for (j, places) in lanes.iter().enumerate() {
            assert_eq!(*places, lane(strategy, 5, 3, j as u64));
        }
    }
}

#[test]
fn results_gathered_from_the_plan_make_the_same_image() {
    let reference = julia_image(24, 18, 50, 3.5, 1.0, Strategy::SingleThread)
        .ok()
        .unwrap()
        .into_raw();
    let c = Complex::new(0.353343, 0.5133225);
    let within = |z: &Complex<f64>| z.norm() <= 2.0;
    let step = |z: Complex<f64>| z * z + c;
    let gradient = |n: u32, m: u32| {
        let t = n as f64 / m as f64;
        Shade {
            red: enc(t.powf(0.2) * 255.0),
            green: enc(t.powf(0.4) * 255.0),
            blue: enc((1.0 - t.powf(0.9)) * 255.0),
        }
    };
    for strategy in strategies() {
        let mut lanes = plan(strategy, 24, 18);
        lanes.reverse();
        let mut units = Vec::new();
        for places in lanes {
            for at in places.into_iter().rev() {
                let z0 = Complex::new(
                    (at.x as f64 - 0.5 * 24.0) * 3.5 / 24.0,
                    (at.y as f64 - 0.5 * 18.0) * 3.5 / 18.0,
                );
                units.push(Painted { at, color: color_generator(z0, 50, &within, &step, &gradient) });
            }
        }
        assert_eq!(units.len(), 24 * 18);
        let bytes = gather(24, 18, &units).ok().unwrap().assemble().ok().unwrap().into_raw();
        assert_eq!(bytes, reference, "{:?}", strategy);
    }
}

#[test]
fn two_renders_give_the_same_bytes() {
    for strategy in strategies() {
        let first = julia_image(30, 20, 300, 3.5, 1.0, strategy).ok().unwrap();
        let second = julia_image(30, 20, 300, 3.5, 1.0, strategy).ok().unwrap();
        assert_eq!(first.dimensions(), second.dimensions());
        assert_eq!(first.into_raw(), second.into_raw());
    }
}
