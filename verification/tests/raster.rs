use hcscrgen::raster::PixelBlock;

fn numbered(width: u32, height: u32) -> PixelBlock {
    let mut raw = Vec::new();
    for i in 0..(width * height * 3) {
        raw.push((i % 251) as u8);
    }
    PixelBlock::from_raw(width, height, raw).unwrap()
}

#[test]
fn new_block_is_black() {
    let block = PixelBlock::new(3, 2);
    assert_eq!(block.width(), 3);
    assert_eq!(block.height(), 2);
    assert_eq!(block.as_raw(), &vec![0u8; 18]);
}

#[test]
fn new_block_may_be_empty() {
    let block = PixelBlock::new(0, 5);
    assert_eq!(block.width(), 0);
    assert_eq!(block.height(), 5);
    assert!(block.as_raw().is_empty());
}

#[test]
fn from_pixel_fills_every_pixel() {
    let block = PixelBlock::from_pixel(2, 2, (1, 2, 3));
    assert_eq!(block.as_raw(), &vec![1, 2, 3, 1, 2, 3, 1, 2, 3, 1, 2, 3]);
}

#[test]
fn from_raw_wants_three_bytes_for_every_pixel() {
    assert!(PixelBlock::from_raw(2, 2, vec![0u8; 12]).is_some());
    assert!(PixelBlock::from_raw(2, 2, vec![0u8; 11]).is_none());
    assert!(PixelBlock::from_raw(2, 2, vec![0u8; 13]).is_none());
    assert!(PixelBlock::from_raw(0, 7, Vec::new()).is_some());
    assert!(PixelBlock::from_raw(u32::MAX, u32::MAX, vec![0u8; 3]).is_none());
}

#[test]
fn into_raw_gives_the_buffer_back() {
    let raw: Vec<u8> = (0..24).collect();
    let block = PixelBlock::from_raw(4, 2, raw.clone()).unwrap();
    assert_eq!(block.into_raw(), raw);
}

#[test]
fn get_pixel_reads_row_by_row() {
    let block = numbered(4, 3);
    assert_eq!(block.get_pixel(0, 0), (0, 1, 2));
    assert_eq!(block.get_pixel(3, 0), (9, 10, 11));
    assert_eq!(block.get_pixel(0, 1), (12, 13, 14));
    assert_eq!(block.get_pixel(3, 2), (33, 34, 35));
}

#[test]
fn put_pixel_changes_one_pixel_only() {
    let mut block = numbered(3, 3);
    let before = block.clone();
    block.put_pixel(1, 2, (200, 201, 202));
    for y in 0..3 {
        for x in 0..3 {
            if (x, y) == (1, 2) {
                assert_eq!(block.get_pixel(x, y), (200, 201, 202));
            } else {
                assert_eq!(block.get_pixel(x, y), before.get_pixel(x, y));
            }
        }
    }
}

#[test]
fn crop_copies_the_window() {
    let block = numbered(5, 4);
    let tile = block.crop(2, 1, 3, 2);
    assert_eq!(tile.width(), 3);
    assert_eq!(tile.height(), 2);
    for y in 0..2 {
        for x in 0..3 {
            assert_eq!(tile.get_pixel(x, y), block.get_pixel(2 + x, 1 + y));
        }
    }
}

#[test]
fn crop_of_the_whole_block_is_the_block() {
    let block = numbered(5, 4);
    assert_eq!(block.crop(0, 0, 5, 4).as_raw(), block.as_raw());
}

#[test]
fn crop_may_be_empty() {
    let block = numbered(5, 4);
    let tile = block.crop(5, 4, 0, 0);
    assert_eq!(tile.width(), 0);
    assert!(tile.as_raw().is_empty());
}

#[test]
fn copy_from_draws_inside_the_frame_only() {
    let mut canvas = PixelBlock::new(6, 5);
    let stamp = numbered(2, 3);
    let mut stamp_bright = stamp.clone();
    stamp_bright.put_pixel(0, 0, (255, 255, 255));
    canvas.copy_from(&stamp_bright, 3, 1);
    for y in 0..5 {
        for x in 0..6 {
            let inside = (3..5).contains(&x) && (1..4).contains(&y);
            if inside {
                assert_eq!(canvas.get_pixel(x, y), stamp_bright.get_pixel(x - 3, y - 1));
            } else {
                assert_eq!(canvas.get_pixel(x, y), (0, 0, 0));
            }
        }
    }
}

#[test]
fn copy_from_then_crop_gives_the_source_back() {
    let mut canvas = PixelBlock::from_pixel(10, 10, (9, 9, 9));
    let stamp = numbered(4, 4);
    canvas.copy_from(&stamp, 6, 6);
    assert_eq!(canvas.crop(6, 6, 4, 4).as_raw(), stamp.as_raw());
    assert_eq!(canvas.crop(0, 0, 6, 6).as_raw(), &vec![9u8; 6 * 6 * 3]);
}

#[test]
fn clone_has_the_same_pixels() {
    let block = numbered(3, 3);
    let copy = block.clone();
    assert_eq!(copy.width(), 3);
    assert_eq!(copy.height(), 3);
    assert_eq!(copy.as_raw(), block.as_raw());
}
