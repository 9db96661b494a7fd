use brutforce::canvas::{Block, Picture};
use brutforce::color::Color;
use brutforce::geometry::{Point, Shape};
use brutforce::transport::{BlockData, PictureData};

fn block(id: &str, bl: (i32, i32), tr: (i32, i32), color: (u8, u8, u8, u8)) -> BlockData {
    BlockData { block_id: id.to_string(), bottom_left: bl, top_right: tr, color }
}

#[test]
fn test() {
    let v: serde_json::Value = serde_json::from_str(
        r#"
        { "width": 400, "height": 400, "blocks": [{"blockId": "0", "bottomLeft": [0, 0], "topRight": [20, 20], "color": [0, 74, 173, 255]}]}
        "#,
    ).unwrap();
    let blocks: Vec<BlockData> = v["blocks"]
        .as_array()
        .unwrap()
        .iter()
        .map(|b| BlockData {
            block_id: b["blockId"].as_str().unwrap().to_string(),
            bottom_left: (
                b["bottomLeft"][0].as_i64().unwrap() as i32,
                b["bottomLeft"][1].as_i64().unwrap() as i32,
            ),
            top_right: (
                b["topRight"][0].as_i64().unwrap() as i32,
                b["topRight"][1].as_i64().unwrap() as i32,
            ),
            color: (
                b["color"][0].as_u64().unwrap() as u8,
                b["color"][1].as_u64().unwrap() as u8,
                b["color"][2].as_u64().unwrap() as u8,
                b["color"][3].as_u64().unwrap() as u8,
            ),
        })
        .collect();
    let picture_data = PictureData {
        width: v["width"].as_i64().unwrap() as i32,
        height: v["height"].as_i64().unwrap() as i32,
        blocks,
    };
    println!("{:?}", picture_data);
    assert_eq!(picture_data.width, 400);
    assert_eq!(picture_data.height, 400);
    assert_eq!(picture_data.blocks.len(), 1);
    assert_eq!(picture_data.blocks[0].block_id, "0");
    assert_eq!(picture_data.blocks[0].bottom_left, (0, 0));
    assert_eq!(picture_data.blocks[0].top_right, (20, 20));
    assert_eq!(picture_data.blocks[0].color, (0, 74, 173, 255));
}

#[test]
fn from_data_builds_leaves() {
    let data = PictureData {
        width: 40,
        height: 30,
        blocks: vec![
            block("0", (0, 0), (20, 30), (1, 2, 3, 255)),
            block("1", (20, 0), (40, 30), (4, 5, 6, 255)),
        ],
    };
    let pic = Picture::from_data(&data).unwrap();
    assert_eq!(pic.width, 40);
    assert_eq!(pic.height, 30);
    assert_eq!(pic.counter, 0);
    assert_eq!(pic.blocks.len(), 2);
    match &pic.blocks[0].1 {
        Block::Simple { shape, color } => {
            assert_eq!(*shape, Shape { l: 0, b: 0, r: 20, t: 30 });
            assert_eq!(*color, Color { r: 1, g: 2, b: 3, a: 255 });
        },
        _ => panic!("expected a leaf"),
    }
    assert_eq!(
        pic.get_color(Point { x: 25, y: 10 }).unwrap(),
        Color { r: 4, g: 5, b: 6, a: 255 },
    );
}

#[test]
fn from_data_rejects_bad_input() {
    let empty = PictureData { width: 0, height: 30, blocks: Vec::new() };
    assert!(Picture::from_data(&empty).is_none());
    let outside = PictureData {
        width: 40,
        height: 30,
        blocks: vec![block("0", (0, 0), (50, 30), (0, 0, 0, 255))],
    };
    assert!(Picture::from_data(&outside).is_none());
    let degenerate = PictureData {
        width: 40,
        height: 30,
        blocks: vec![block("0", (10, 10), (10, 20), (0, 0, 0, 255))],
    };
    assert!(Picture::from_data(&degenerate).is_none());
}

#[test]
fn from_data_last_duplicate_wins() {
    let data = PictureData {
        width: 40,
        height: 30,
        blocks: vec![
            block("0", (0, 0), (40, 30), (1, 1, 1, 255)),
            block("0", (0, 0), (40, 30), (9, 9, 9, 255)),
        ],
    };
    let pic = Picture::from_data(&data).unwrap();
    assert_eq!(pic.blocks.len(), 1);
    assert_eq!(
        pic.get_color(Point { x: 0, y: 0 }).unwrap(),
        Color { r: 9, g: 9, b: 9, a: 255 },
    );
}
