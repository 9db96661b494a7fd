use brutforce::canvas::Picture;
use brutforce::color::Color;
use brutforce::geometry::Point;
use brutforce::sampler::{Problem, Raster};

fn solid(width: i32, height: i32, c: Color) -> Raster {
    Raster { width, height, pixels: vec![c; (width * height) as usize] }
}

fn problem_of(image: Raster) -> Problem {
    let initial = Picture::initial(image.width, image.height);
    Problem { image, initial }
}

#[test]
fn target_lookup_flips_vertically() {
    // storage is row-major with row zero at the top
    let c0 = Color { r: 1, g: 0, b: 0, a: 255 };
    let c1 = Color { r: 2, g: 0, b: 0, a: 255 };
    let c2 = Color { r: 3, g: 0, b: 0, a: 255 };
    let c3 = Color { r: 4, g: 0, b: 0, a: 255 };
    let image = Raster { width: 2, height: 2, pixels: vec![c0, c1, c2, c3] };
    let problem = problem_of(image);
    assert_eq!(problem.get_color(Point { x: 0, y: 0 }), c2);
    assert_eq!(problem.get_color(Point { x: 1, y: 0 }), c3);
    assert_eq!(problem.get_color(Point { x: 0, y: 1 }), c0);
    assert_eq!(problem.get_color(Point { x: 1, y: 1 }), c1);
}

#[test]
fn most_frequent_color_counts_samples() {
    // samples of the 10x10 region fall on (0,0), (0,5), (5,0), (5,5)
    let a = Color { r: 10, g: 0, b: 0, a: 255 };
    let b = Color { r: 20, g: 0, b: 0, a: 255 };
    let mut pixels = vec![a; 100];
    // canvas (0,5) -> storage row 4; canvas (5,0) -> storage row 9
    pixels[4 * 10 + 0] = b;
    pixels[9 * 10 + 5] = b;
    pixels[4 * 10 + 5] = b;
    let problem = problem_of(Raster { width: 10, height: 10, pixels });
    assert_eq!(problem.most_frequent_color(0, 0, 10, 10), b);
    assert_eq!(problem.color(0, 0, 10, 10), b);
}

#[test]
fn most_frequent_tie_keeps_first_encountered() {
    // scan order is x outer, y inner: (0,0), (0,5), (5,0), (5,5)
    let a = Color { r: 10, g: 0, b: 0, a: 255 };
    let b = Color { r: 20, g: 0, b: 0, a: 255 };
    let mut pixels = vec![a; 100];
    // make the samples read a, b, b, a: a two-way tie that a wins
    pixels[4 * 10 + 0] = b;
    pixels[9 * 10 + 5] = b;
    let problem = problem_of(Raster { width: 10, height: 10, pixels });
    assert_eq!(problem.most_frequent_color(0, 0, 10, 10), a);
}

#[test]
fn empty_region_yields_white() {
    let a = Color { r: 10, g: 0, b: 0, a: 255 };
    let problem = problem_of(solid(10, 10, a));
    assert_eq!(problem.most_frequent_color(3, 0, 3, 10), Color::white());
}

#[test]
fn average_color_divides_by_region_area() {
    // the four samples have red channels 10, 20, 30, 40; count is 100/25
    let mut pixels = vec![Color { r: 0, g: 0, b: 0, a: 255 }; 100];
    pixels[9 * 10 + 0] = Color { r: 10, g: 4, b: 0, a: 255 };
    pixels[4 * 10 + 0] = Color { r: 20, g: 4, b: 0, a: 255 };
    pixels[9 * 10 + 5] = Color { r: 30, g: 4, b: 0, a: 255 };
    pixels[4 * 10 + 5] = Color { r: 40, g: 4, b: 0, a: 255 };
    let problem = problem_of(Raster { width: 10, height: 10, pixels });
    let avg = problem.average_color(0, 0, 10, 10);
    assert_eq!(avg, Color { r: 25, g: 4, b: 0, a: 255 });
}

#[test]
fn solid_image_representative_is_that_color() {
    let c = Color { r: 7, g: 77, b: 177, a: 255 };
    let problem = problem_of(solid(50, 50, c));
    assert_eq!(problem.color(0, 0, 50, 50), c);
    assert_eq!(problem.color(10, 5, 30, 45), c);
}
