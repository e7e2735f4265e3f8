use sixteenbit_encoding::encodings::hex_text::{parse_hex, rle_hex_on_indexed, HexError, ImportError};
use sixteenbit_encoding::encodings::{
    indexed_to_rle, rle_on_indexed, rle_to_indexed, DecodeError, EncodeError, OneByteRle, RunByte,
};
use sixteenbit_encoding::types::{ColorIndex, IndexedImage};

fn canvas() -> IndexedImage<256, 16> {
    IndexedImage::<256, 16>::new::<16>().unwrap()
}

fn sprite() -> IndexedImage<256, 16> {
    let mut img = canvas();
    let cells = [
        (4, 2, ColorIndex::Dark),
        (5, 2, ColorIndex::Dark),
        (6, 2, ColorIndex::Dark),
        (3, 3, ColorIndex::Skin),
        (7, 3, ColorIndex::Skin),
        (5, 4, ColorIndex::EyesAccent3),
        (4, 6, ColorIndex::ShirtAccent1),
        (6, 6, ColorIndex::PantsAccent2),
        (5, 9, ColorIndex::Accent4),
    ];
    for (x, y, c) in cells {
        img.set(x, y, c).unwrap();
    }
    img
}

#[test]
fn header_packs_and_unpacks() {
    for offset in 0u8..8 {
        for width in 0u8..32 {
            let mut e = OneByteRle::new();
            e.push_header(offset, width);
            assert_eq!(e.bytes.len(), 1);
            assert_eq!(e.bytes[0], offset * 32 + width);
            assert_eq!(OneByteRle::get_header_from_byte(e.bytes[0]), (offset, width));
            assert_eq!(e.get_header(), Some((offset, width)));
            assert_eq!((e.header_offset, e.header_width), (offset, width));
        }
    }
}

#[test]
fn run_byte_packs_and_unpacks() {
    for code in 0u8..8 {
        let color = ColorIndex::from_integer(code).unwrap();
        for len in 1u8..=32 {
            let b = RunByte::new(color, len).get();
            assert_eq!(b, code * 32 + (len - 1));
            let back = RunByte::from_byte(b).unwrap();
            assert_eq!(back.color(), color);
            assert_eq!(back.run_length(), len);
        }
    }
}

#[test]
fn new_with_bytes_reads_header() {
    assert!(OneByteRle::new_with_bytes(vec![]).is_none());
    let e = OneByteRle::new_with_bytes(vec![0b0110_0101, 0x20]).unwrap();
    assert_eq!((e.header_offset, e.header_width), (3, 5));
    assert_eq!(e.bytes(), vec![0b0110_0101, 0x20]);
    assert_eq!(OneByteRle::new().get_header(), None);
}

#[test]
fn append_pixel_runs_keeps_order() {
    let mut e = OneByteRle::new();
    e.push_header(1, 2);
    e.append_pixel_runs(&vec![RunByte::new(ColorIndex::Dark, 3), RunByte::new(ColorIndex::Empty, 32)]);
    e.push_pixel_run(&RunByte::new(ColorIndex::Accent4, 1));
    assert_eq!(e.bytes, vec![0x22, 0x22, 0x1F, 0xE0]);
}

#[test]
fn single_dark_pixel_encodes() {
    let mut img = canvas();
    img.set(3, 4, ColorIndex::Dark).unwrap();
    let e = indexed_to_rle(&img).unwrap();
    assert_eq!(e.bytes[0], 0b0110_0000);
    assert_eq!(*e.bytes.last().unwrap(), 0b0010_0000);
    // column 3 of rows 0..4 is a leading run of four Empty pixels
    assert_eq!(e.bytes, vec![0x60, 0x03, 0x20]);
    assert_eq!(e.to_hex(), "600320");
}

#[test]
fn empty_canvas_encodes_to_header_only() {
    let img = canvas();
    let e = indexed_to_rle(&img).unwrap();
    assert_eq!(e.bytes, vec![0x00]);
    assert_eq!((e.header_offset, e.header_width), (0, 0));
    assert_eq!(e.to_hex(), "00");
}

#[test]
fn empty_below_trim_encodes_to_header_only() {
    let mut img = canvas();
    img.set(2, 1, ColorIndex::Dark).unwrap();
    img.vertical_trim = 4;
    assert_eq!(indexed_to_rle(&img).unwrap().bytes, vec![0x00]);
}

#[test]
fn encode_decode_round_trip() {
    let img = sprite();
    let e = indexed_to_rle(&img).unwrap();
    assert_eq!(e.header_offset, 3);
    assert_eq!(e.header_width, 4);
    let back: IndexedImage<256, 16> = rle_to_indexed(&e, 0);
    assert_eq!(back.pixels, img.pixels);
}

#[test]
fn round_trip_with_trim() {
    let mut img = sprite();
    img.vertical_trim = 3;
    let e = indexed_to_rle(&img).unwrap();
    let back: IndexedImage<256, 16> = rle_to_indexed(&e, 3);
    for y in 0..16 {
        for x in 0..16 {
            let expect = if y >= 3 { img.get(x, y).unwrap() } else { ColorIndex::Empty };
            assert_eq!(back.get(x, y).unwrap(), expect);
        }
    }
}

#[test]
fn re_encoding_decoded_image_is_identical() {
    let mut img = sprite();
    img.vertical_trim = 2;
    let first = indexed_to_rle(&img).unwrap();
    let mut back: IndexedImage<256, 16> = rle_to_indexed(&first, 2);
    back.vertical_trim = 2;
    let second = indexed_to_rle(&back).unwrap();
    assert_eq!(second.bytes, first.bytes);
}

#[test]
fn long_runs_split_at_thirty_two() {
    let mut img = canvas();
    for i in 0..40 {
        img.set_at(i, ColorIndex::Bright);
    }
    let e = indexed_to_rle(&img).unwrap();
    // offset 0, width 15; 32 Bright, then 8 Bright
    assert_eq!(e.bytes, vec![0x0F, 0x5F, 0x47]);
}

#[test]
fn offset_is_capped_at_seven() {
    let mut img = canvas();
    img.set(10, 0, ColorIndex::Dark).unwrap();
    let e = indexed_to_rle(&img).unwrap();
    assert_eq!((e.header_offset, e.header_width), (7, 3));
    assert_eq!(e.bytes, vec![0xE3, 0x02, 0x20]);
    let back: IndexedImage<256, 16> = rle_to_indexed(&e, 0);
    assert_eq!(back.pixels, img.pixels);
}

#[test]
fn too_wide_sprite_fails_to_encode() {
    let mut img = IndexedImage::<4096, 64>::new::<64>().unwrap();
    img.set(0, 0, ColorIndex::Dark).unwrap();
    img.set(40, 0, ColorIndex::Dark).unwrap();
    assert!(matches!(indexed_to_rle(&img), Err(EncodeError::WidthOverflow)));
}

#[test]
fn merge_decode_keeps_canvas_under_empty() {
    let mut canvas_img = canvas();
    for i in 0..256 {
        canvas_img.set_at(i, ColorIndex::Skin);
    }
    // offset 1, width 2 (3 columns): Empty, Dark, Empty, Dark
    let e = OneByteRle::new_with_bytes(vec![0x22, 0x00, 0x20, 0x00, 0x20]).unwrap();
    assert_eq!(rle_on_indexed(&mut canvas_img, &e, 0, false), Ok(()));
    assert_eq!(canvas_img.get(1, 0), Ok(ColorIndex::Skin));
    assert_eq!(canvas_img.get(2, 0), Ok(ColorIndex::Dark));
    assert_eq!(canvas_img.get(3, 0), Ok(ColorIndex::Skin));
    assert_eq!(canvas_img.get(1, 1), Ok(ColorIndex::Dark));
    assert_eq!(canvas_img.get(0, 0), Ok(ColorIndex::Skin));
}

#[test]
fn overwrite_decode_writes_empty() {
    let mut canvas_img = canvas();
    for i in 0..256 {
        canvas_img.set_at(i, ColorIndex::Skin);
    }
    let e = OneByteRle::new_with_bytes(vec![0x22, 0x00, 0x20, 0x00, 0x20]).unwrap();
    assert_eq!(rle_on_indexed(&mut canvas_img, &e, 0, true), Ok(()));
    assert_eq!(canvas_img.get(1, 0), Ok(ColorIndex::Empty));
    assert_eq!(canvas_img.get(2, 0), Ok(ColorIndex::Dark));
    assert_eq!(canvas_img.get(3, 0), Ok(ColorIndex::Empty));
    assert_eq!(canvas_img.get(4, 0), Ok(ColorIndex::Skin));
}

#[test]
fn decode_of_no_bytes_is_empty_buffer() {
    let mut img = canvas();
    img.set(0, 0, ColorIndex::Dark).unwrap();
    let e = OneByteRle::new();
    assert_eq!(rle_on_indexed(&mut img, &e, 0, true), Err(DecodeError::EmptyBuffer));
    assert_eq!(img.get(0, 0), Ok(ColorIndex::Dark));
}

#[test]
fn overrunning_stream_stops_before_last_cell() {
    let mut img = canvas();
    // full width 16 from offset 0; 8 runs of 32 Bright pixels = 256 pixels
    let mut bytes = vec![0x0F];
    for _ in 0..8 {
        bytes.push(0x5F);
    }
    let e = OneByteRle::new_with_bytes(bytes).unwrap();
    assert_eq!(rle_on_indexed(&mut img, &e, 0, true), Err(DecodeError::DestinationOverrun));
    for i in 0..255 {
        assert_eq!(img.get_at(i), ColorIndex::Bright);
    }
    assert_eq!(img.get_at(255), ColorIndex::Empty);
}

#[test]
fn overrun_keeps_earlier_runs() {
    let mut img = canvas();
    // trim 15 leaves one row: 15 writable cells before the last
    let e = OneByteRle::new_with_bytes(vec![0x0F, 0x24, 0x5F]).unwrap();
    assert_eq!(rle_on_indexed(&mut img, &e, 15, true), Err(DecodeError::DestinationOverrun));
    for x in 0..5 {
        assert_eq!(img.get(x, 15), Ok(ColorIndex::Dark));
    }
    for x in 5..15 {
        assert_eq!(img.get(x, 15), Ok(ColorIndex::Bright));
    }
    assert_eq!(img.get(15, 15), Ok(ColorIndex::Empty));
    assert!(img.pixels[..240].iter().all(|c| *c == ColorIndex::Empty));
}

#[test]
fn hex_text_round_trip() {
    let img = sprite();
    let e = indexed_to_rle(&img).unwrap();
    let text = format!("  {}  ", e.to_hex());
    assert_eq!(parse_hex(&text), Ok(e.bytes.clone()));
    let mut out = canvas();
    assert_eq!(rle_hex_on_indexed(&mut out, &text, 0, false), Ok(()));
    assert_eq!(out.pixels, img.pixels);
}

#[test]
fn hex_parse_accepts_either_case() {
    assert_eq!(parse_hex("6aFf00"), Ok(vec![0x6a, 0xff, 0x00]));
    assert_eq!(parse_hex(""), Ok(vec![]));
}

#[test]
fn hex_parse_errors() {
    assert_eq!(parse_hex("603"), Err(HexError::OddLength));
    assert_eq!(
        parse_hex(" 60zz "),
        Err(HexError::InvalidHexCharacter { c: 'z', index: 2 })
    );
    assert_eq!(
        parse_hex("6 20"),
        Err(HexError::InvalidHexCharacter { c: ' ', index: 1 })
    );
    assert_eq!(parse_hex("6 2 "), Err(HexError::OddLength));
}

#[test]
fn hex_import_errors_leave_canvas() {
    let mut img = canvas();
    img.set(1, 1, ColorIndex::Dark).unwrap();
    let before = img.pixels;
    assert_eq!(
        rle_hex_on_indexed(&mut img, "xyz", 0, false),
        Err(ImportError::Hex(HexError::OddLength))
    );
    assert_eq!(
        rle_hex_on_indexed(&mut img, "   ", 0, false),
        Err(ImportError::Decode(DecodeError::EmptyBuffer))
    );
    assert_eq!(img.pixels, before);
}

#[test]
fn to_hex_spells_each_byte() {
    let e = OneByteRle::new_with_bytes(vec![0x0F, 0xA0, 0x5C]).unwrap();
    assert_eq!(e.to_hex(), "0fa05c");
}

#[test]
fn last_cell_is_never_decoded() {
    let mut img = canvas();
    img.set(15, 15, ColorIndex::Dark).unwrap();
    let e = indexed_to_rle(&img).unwrap();
    assert_eq!((e.header_offset, e.header_width), (7, 8));
    let mut back = canvas();
    assert_eq!(rle_on_indexed(&mut back, &e, 0, true), Err(DecodeError::DestinationOverrun));
    assert_eq!(back.get(15, 15), Ok(ColorIndex::Empty));
}

#[test]
fn clamped_offset_can_overflow_width() {
    let mut img = IndexedImage::<4096, 64>::new::<64>().unwrap();
    img.set(10, 3, ColorIndex::Skin).unwrap();
    img.set(40, 3, ColorIndex::Skin).unwrap();
    assert!(matches!(indexed_to_rle(&img), Err(EncodeError::WidthOverflow)));
    img.set(40, 3, ColorIndex::Empty).unwrap();
    img.set(38, 3, ColorIndex::Skin).unwrap();
    let e = indexed_to_rle(&img).unwrap();
    assert_eq!((e.header_offset, e.header_width), (7, 31));
}
