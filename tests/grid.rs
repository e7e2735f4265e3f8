use sixteenbit_encoding::types::{
    ColorIndex, EnumerateIndexedImageMut, ImageError, IndexedImage, Palette, PaletteCollection,
};

fn canvas() -> IndexedImage<256, 16> {
    IndexedImage::<256, 16>::new::<16>().unwrap()
}

#[test]
fn new_grid_is_empty() {
    let img = canvas();
    assert_eq!(img.vertical_trim, 0);
    assert_eq!(img.resolution(), (16, 16));
    assert!(img.pixels.iter().all(|c| *c == ColorIndex::Empty));
}

#[test]
fn new_grid_rejects_mismatched_height() {
    assert!(matches!(
        IndexedImage::<256, 16>::new::<15>(),
        Err(ImageError::Configuration)
    ));
    assert!(matches!(
        IndexedImage::<512, 2>::new::<256>(),
        Err(ImageError::Configuration)
    ));
}

#[test]
fn set_then_get_reads_back() {
    let mut img = canvas();
    assert_eq!(img.set(3, 4, ColorIndex::Dark), Ok(()));
    assert_eq!(img.get(3, 4), Ok(ColorIndex::Dark));
    assert_eq!(img.get(4, 3), Ok(ColorIndex::Empty));
    assert_eq!(img.get_at(4 * 16 + 3), ColorIndex::Dark);
}

#[test]
fn out_of_bounds_is_an_error() {
    let mut img = canvas();
    assert_eq!(img.get(16, 0), Err(ImageError::OutOfBounds));
    assert_eq!(img.get(0, 16), Err(ImageError::OutOfBounds));
    assert_eq!(img.set(16, 2, ColorIndex::Skin), Err(ImageError::OutOfBounds));
    assert!(img.pixels.iter().all(|c| *c == ColorIndex::Empty));
}

#[test]
fn enumerate_visits_cells_row_major() {
    let mut img = IndexedImage::<6, 3>::new::<2>().unwrap();
    img.set(2, 0, ColorIndex::Bright).unwrap();
    img.set(0, 1, ColorIndex::Skin).unwrap();
    let mut it = img.enumerate_pixels();
    let mut seen = vec![];
    while let Some(cell) = it.next() {
        seen.push(cell);
    }
    assert_eq!(
        seen,
        vec![
            (0, 0, ColorIndex::Empty),
            (1, 0, ColorIndex::Empty),
            (2, 0, ColorIndex::Bright),
            (0, 1, ColorIndex::Skin),
            (1, 1, ColorIndex::Empty),
            (2, 1, ColorIndex::Empty),
        ]
    );
    assert_eq!(it.next(), None);
}

#[test]
fn enumerate_mut_hands_out_every_position_once() {
    let mut img = IndexedImage::<6, 3>::new::<2>().unwrap();
    let mut it: EnumerateIndexedImageMut<6, 3> = img.enumerate_pixels_mut();
    let mut count = 0;
    while let Some((x, y, i)) = it.next() {
        assert_eq!(i, y as usize * 3 + x as usize);
        img.set_at(i, ColorIndex::Accent4);
        count += 1;
    }
    assert_eq!(count, 6);
    assert!(img.pixels.iter().all(|c| *c == ColorIndex::Accent4));
}

#[test]
fn shift_moves_pixels_and_fills_with_empty() {
    let mut img = canvas();
    img.set(3, 4, ColorIndex::Dark).unwrap();
    img.set(15, 15, ColorIndex::Skin).unwrap();
    img.shift(2, -1);
    assert_eq!(img.get(5, 3), Ok(ColorIndex::Dark));
    assert_eq!(img.get(3, 4), Ok(ColorIndex::Empty));
    let inked = img.pixels.iter().filter(|c| **c != ColorIndex::Empty).count();
    assert_eq!(inked, 1);
}

#[test]
fn shift_past_width_clears_grid() {
    let mut img = canvas();
    for i in 0..256 {
        img.set_at(i, ColorIndex::Bright);
    }
    img.shift(20, 0);
    assert!(img.pixels.iter().all(|c| *c == ColorIndex::Empty));
}

#[test]
fn shift_keeps_trim() {
    let mut img = canvas();
    img.vertical_trim = 5;
    img.shift(0, 0);
    assert_eq!(img.vertical_trim, 5);
}

#[test]
fn color_codes_round_trip() {
    for v in 0u8..8 {
        let c = ColorIndex::from_integer(v).unwrap();
        assert_eq!(c.as_u8(), v);
    }
    assert_eq!(ColorIndex::from_integer(8), None);
    assert_eq!(ColorIndex::from_integer(3), Some(ColorIndex::Skin));
    assert_eq!(ColorIndex::default(), ColorIndex::Empty);
}

#[test]
fn default_palette_colors() {
    let p = Palette::<u8>::default();
    assert_eq!(p.index(ColorIndex::Dark).0, [0, 0, 0]);
    assert_eq!(p.index(ColorIndex::Bright).0, [255, 255, 255]);
    assert_eq!(p.index(ColorIndex::Accent4).0, [62, 24, 24]);
    let mut all = PaletteCollection::<u8>::default();
    assert_eq!(all.index(7).index(ColorIndex::Skin).0, [204, 164, 153]);
    let _ = all.index_mut(2);
    assert_eq!(all.index(2).index(ColorIndex::PantsAccent2).0, [101, 107, 255]);
}
