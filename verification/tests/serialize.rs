use brutforce::color::Color;
use brutforce::geometry::Point;
use brutforce::ops::Operation;

#[test]
fn point_cut_serialization() {
    let op = Operation::PCut { id: "0".to_string(), point: Point { x: 5, y: 7 } };
    assert_eq!(op.serialize(), "cut [0] [5, 7]");
}

#[test]
fn color_serialization() {
    let op = Operation::Color {
        id: "0.1.1".to_string(),
        color: Color { r: 0, g: 74, b: 173, a: 255 },
    };
    assert_eq!(op.serialize(), "color [0.1.1] [0, 74, 173, 255]");
}

#[test]
fn line_cut_serializations() {
    let op = Operation::XCut { id: "0.1".to_string(), x: 360 };
    assert_eq!(op.serialize(), "cut [0.1] [X] [360]");
    let op = Operation::YCut { id: "0".to_string(), y: 10 };
    assert_eq!(op.serialize(), "cut [0] [Y] [10]");
}

#[test]
fn swap_and_merge_serializations() {
    let op = Operation::Swap { id1: "0.0".to_string(), id2: "0.1".to_string() };
    assert_eq!(op.serialize(), "swap [0.0] [0.1]");
    let op = Operation::Merge { id1: "3".to_string(), id2: "4".to_string() };
    assert_eq!(op.serialize(), "merge [3] [4]");
}

#[test]
fn negative_coordinate_serialization() {
    let op = Operation::XCut { id: "a".to_string(), x: -5 };
    assert_eq!(op.serialize(), "cut [a] [X] [-5]");
    let op = Operation::PCut { id: "0".to_string(), point: Point { x: -120, y: 0 } };
    assert_eq!(op.serialize(), "cut [0] [-120, 0]");
}

#[test]
fn multi_digit_serialization() {
    let op = Operation::Color {
        id: "0".to_string(),
        color: Color { r: 255, g: 255, b: 255, a: 255 },
    };
    assert_eq!(op.serialize(), "color [0] [255, 255, 255, 255]");
}
