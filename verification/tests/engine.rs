use brutforce::canvas::Picture;
use brutforce::color::Color;
use brutforce::geometry::Point;
use brutforce::ops::Operation;
use brutforce::sampler::{Problem, Raster};
use brutforce::search::{improves, replay, Log};

fn similarity(problem: &Problem, picture: &Picture) -> u64 {
    let mut total = 0f64;
    for x in 0..problem.image.width {
        for y in 0..problem.image.height {
            let p = Point { x, y };
            let target = problem.get_color(p);
            let painted = picture.get_color(p).unwrap();
            let d2 = target.distance_squared(&painted);
            total += (d2 as f64).sqrt();
        }
    }
    (total * 0.005).round() as u64
}

fn solid_problem(c: Color) -> Problem {
    let image = Raster { width: 400, height: 400, pixels: vec![c; 400 * 400] };
    Problem { image, initial: Picture::initial(400, 400) }
}

#[test]
fn replay_accumulates_cost_and_state() {
    let initial = Picture::initial(400, 400);
    let log: Log = vec![
        Operation::Color { id: "0".to_string(), color: Color::black() },
        Operation::XCut { id: "0".to_string(), x: 200 },
    ];
    let (cost, picture) = replay(&initial, &log).unwrap();
    assert_eq!(cost, 5 + 7);
    assert_eq!(picture.get_color(Point { x: 10, y: 10 }).unwrap(), Color::black());
    assert_eq!(picture.get_color(Point { x: 390, y: 390 }).unwrap(), Color::black());
    assert_eq!(picture.blocks.len(), 2);
    // the starting canvas is untouched
    assert_eq!(initial.blocks.len(), 1);
}

#[test]
fn replay_rejects_bad_candidate() {
    let initial = Picture::initial(400, 400);
    let log: Log = vec![
        Operation::Color { id: "0.1".to_string(), color: Color::black() },
    ];
    assert!(replay(&initial, &log).is_err());
    let log2: Log = vec![Operation::XCut { id: "0".to_string(), x: 0 }];
    assert!(replay(&initial, &log2).is_err());
}

#[test]
fn improves_is_strict() {
    assert!(improves(&None, 1000));
    assert!(improves(&Some(10), 9));
    assert!(!improves(&Some(10), 10));
    assert!(!improves(&Some(10), 11));
}

#[test]
fn uniform_target_prefers_single_recolor() {
    let red = Color { r: 200, g: 10, b: 10, a: 255 };
    let problem = solid_problem(red);
    // candidate logs in generation order: two stripe partitions shaped like
    // the vertical-cut engine's output, then the single recolor
    let mut candidates: Vec<Log> = Vec::new();
    for x1 in [100i32, 200] {
        let c1 = problem.color(0, 0, x1, 400);
        let c2 = problem.color(x1, 0, 400, 400);
        candidates.push(vec![
            Operation::Color { id: "0".to_string(), color: c1 },
            Operation::XCut { id: "0".to_string(), x: x1 },
            Operation::Color { id: "0.1".to_string(), color: c2 },
        ]);
    }
    let whole = problem.color(0, 0, 400, 400);
    assert_eq!(whole, red);
    candidates.push(vec![Operation::Color { id: "0".to_string(), color: whole }]);
    let mut best: Option<u64> = None;
    let mut best_index: Option<usize> = None;
    for (i, log) in candidates.iter().enumerate() {
        let (cost, picture) = match replay(&problem.initial, log) {
            Ok(v) => v,
            Err(_) => continue,
        };
        let score = cost + similarity(&problem, &picture);
        if improves(&best, score) {
            best = Some(score);
            best_index = Some(i);
        }
    }
    // the single recolor costs round(5 * 160000 / 160000) = 5 and matches the
    // target exactly; every cut candidate pays for its cuts on top
    assert_eq!(best, Some(5));
    assert_eq!(best_index, Some(2));
}
