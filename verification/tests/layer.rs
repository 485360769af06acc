use pocket_femtanyl::layer::{copy_rows, LayerSize};

#[test]
fn configure_keeps_dimensions_left_to_the_client() {
    let mut size = LayerSize::new(480, 360);
    assert_eq!(size.drawable_size(), None);
    size.configure(0, 0);
    assert_eq!(size, LayerSize { width: 480, height: 360, configured: true });
    assert_eq!(size.drawable_size(), Some((480, 360)));
    size.configure(640, 0);
    assert_eq!((size.width, size.height), (640, 360));
    size.configure(0, 200);
    assert_eq!((size.width, size.height), (640, 200));
}

#[test]
fn copies_rows_between_strides() {
    // two rows of 3 bytes, source rows 4 bytes apart
    let data = [1u8, 2, 3, 99, 4, 5, 6, 99];
    let mut canvas = [0u8; 7];
    copy_rows(&mut canvas, &data, 2, 3, 4, 3);
    assert_eq!(canvas, [1, 2, 3, 4, 5, 6, 0]);
}

#[test]
fn copies_nothing_for_no_rows() {
    let mut canvas = [7u8; 4];
    copy_rows(&mut canvas, &[], 0, 4, 4, 4);
    assert_eq!(canvas, [7; 4]);
}

#[test]
fn later_rows_overwrite_overlapping_ones() {
    let data = [1u8, 2, 3, 4];
    let mut canvas = [0u8; 3];
    // destination rows 1 byte apart: the second row lands over the first
    copy_rows(&mut canvas, &data, 2, 2, 2, 1);
    assert_eq!(canvas, [1, 3, 4]);
}
