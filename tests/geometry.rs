use wasm_fractals::geometry::{index_to_pixel, pixel_offset, ImageDescriptor, Pixel};

#[test]
fn index_zero_is_top_left() {
    let image = ImageDescriptor::new(4, 3, 10);
    assert_eq!(index_to_pixel(0, &image), Pixel::new(0, 0));
}

#[test]
fn index_splits_into_column_and_row() {
    let image = ImageDescriptor::new(4, 3, 10);
    assert_eq!(index_to_pixel(5, &image), Pixel::new(1, 1));
    assert_eq!(index_to_pixel(3, &image), Pixel::new(3, 0));
    assert_eq!(index_to_pixel(4, &image), Pixel::new(0, 1));
    assert_eq!(index_to_pixel(11, &image), Pixel::new(3, 2));
}

#[test]
fn single_column_image_maps_index_to_row() {
    let image = ImageDescriptor::new(1, 5, 10);
    assert_eq!(index_to_pixel(4, &image), Pixel::new(0, 4));
}

#[test]
fn offset_uses_full_image_width_as_stride() {
    let image = ImageDescriptor::new(4, 3, 10);
    assert_eq!(pixel_offset(&Pixel::new(0, 0), &image), 0);
    assert_eq!(pixel_offset(&Pixel::new(1, 1), &image), 20);
    assert_eq!(pixel_offset(&Pixel::new(3, 2), &image), 44);
}

#[test]
fn offset_is_four_times_index() {
    let image = ImageDescriptor::new(7, 5, 10);
    for index in 0..35usize {
        let p = index_to_pixel(index, &image);
        assert_eq!(pixel_offset(&p, &image), 4 * index);
    }
}

#[test]
fn pixel_new_keeps_coordinates() {
    let p = Pixel::new(12, 34);
    assert_eq!(p.x, 12);
    assert_eq!(p.y, 34);
}
