use hcscrgen::raster::PixelBlock;
use hcscrgen::utils::image_diff;

fn block(width: u32, height: u32, raw: &[u8]) -> PixelBlock {
    PixelBlock::from_raw(width, height, raw.to_vec()).unwrap()
}

#[test]
fn diff_of_a_block_to_itself_is_zero() {
    let mut a = PixelBlock::new(8, 8);
    a.put_pixel(3, 4, (10, 20, 30));
    a.put_pixel(7, 7, (255, 0, 128));
    assert_eq!(image_diff(&a, &a), 0);
}

#[test]
fn diff_is_symmetric() {
    let a = block(2, 2, &[0, 10, 20, 30, 40, 50, 60, 70, 80, 90, 100, 110]);
    let b = block(2, 2, &[5, 0, 200, 30, 41, 49, 0, 0, 0, 255, 255, 255]);
    assert_eq!(image_diff(&a, &b), image_diff(&b, &a));
}

#[test]
fn diff_is_the_sum_of_channel_differences_by_pixels() {
    // |0-5| + |0-5| + |0-5| = 15, |10-10| + |20-20| + |30-40| = 10; 25 / 2 = 12
    let a = block(2, 1, &[0, 0, 0, 10, 20, 30]);
    let b = block(2, 1, &[5, 5, 5, 10, 20, 40]);
    assert_eq!(image_diff(&a, &b), 12);
}

#[test]
fn diff_rounds_down() {
    let a = PixelBlock::new(8, 8);
    let mut b = PixelBlock::new(8, 8);
    b.put_pixel(0, 0, (21, 21, 21));
    // 63 / 64 = 0 although the blocks differ
    assert_eq!(image_diff(&a, &b), 0);
    b.put_pixel(0, 0, (21, 21, 22));
    assert_eq!(image_diff(&a, &b), 1);
}

#[test]
fn diff_of_black_and_white_is_765() {
    let a = PixelBlock::new(8, 8);
    let b = PixelBlock::from_pixel(8, 8, (255, 255, 255));
    assert_eq!(image_diff(&a, &b), 765);
}

#[test]
fn diff_of_a_single_pixel() {
    let a = block(1, 1, &[100, 150, 200]);
    let b = block(1, 1, &[110, 140, 0]);
    assert_eq!(image_diff(&a, &b), 220);
}
