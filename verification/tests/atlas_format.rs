use spine_render::atlas::{parse_tuple, Atlas, AtlasError, Texture};

const HEAD: &str = "\nspineboy.png\nformat: RGBA8888\nfilter: Linear,Linear\nrepeat: none\nhead\n  rotate: false\n  xy: 279, 75\n  size: 163, 179\n  orig: 163, 179\n  offset: 0, 0\n  index: -1\n";

fn head() -> Texture {
    Texture {
        rotate: false,
        xy: (279, 75),
        size: (163, 179),
        orig: (163, 179),
        offset: (0, 0),
        index: -1,
    }
}

fn record(name: &str, rotate: bool, x: u16) -> String {
    format!(
        "{}\n  rotate: {}\n  xy: {}, 2\n  size: 3, 4\n  orig: 5, 6\n  offset: 7, 8\n  index: -1\n",
        name, rotate, x
    )
}

#[test]
fn pair_of_two_numbers() {
    assert_eq!(parse_tuple("12, 34"), Ok((12, 34)));
}

#[test]
fn pair_with_white_space_around_the_numbers() {
    assert_eq!(parse_tuple("  12 ,\t34  "), Ok((12, 34)));
    assert_eq!(parse_tuple("12,34"), Ok((12, 34)));
    assert_eq!(parse_tuple("\u{a0}12\u{2003},\u{3000}34\u{85}"), Ok((12, 34)));
}

#[test]
fn pair_with_a_letter_is_refused() {
    assert_eq!(parse_tuple("a, 3"), Err(AtlasError::InvalidNumericField));
    assert_eq!(parse_tuple("3, a"), Err(AtlasError::InvalidNumericField));
}

#[test]
fn pair_without_a_comma_is_refused() {
    assert_eq!(parse_tuple("12"), Err(AtlasError::InvalidNumericField));
    assert_eq!(parse_tuple(""), Err(AtlasError::InvalidNumericField));
}

#[test]
fn pair_reads_no_further_than_the_second_number() {
    assert_eq!(parse_tuple("1, 2, x"), Ok((1, 2)));
}

#[test]
fn pair_takes_a_plus_sign_and_leading_zeros() {
    assert_eq!(parse_tuple("+7, 0008"), Ok((7, 8)));
    assert_eq!(parse_tuple("0000000000000000000001, 0"), Ok((1, 0)));
}

#[test]
fn pair_refuses_signs_alone_and_minus() {
    assert_eq!(parse_tuple("+, 1"), Err(AtlasError::InvalidNumericField));
    assert_eq!(parse_tuple("-1, 1"), Err(AtlasError::InvalidNumericField));
    assert_eq!(parse_tuple("1 2, 1"), Err(AtlasError::InvalidNumericField));
    assert_eq!(parse_tuple(", 1"), Err(AtlasError::InvalidNumericField));
}

#[test]
fn pair_keeps_to_sixteen_bits() {
    assert_eq!(parse_tuple("65535, 0"), Ok((65535, 0)));
    assert_eq!(parse_tuple("65536, 0"), Err(AtlasError::InvalidNumericField));
    assert_eq!(parse_tuple("0, 99999999999999999999"), Err(AtlasError::InvalidNumericField));
}

#[test]
fn header_lines_are_passed_over() {
    let atlas = Atlas::parse(HEAD).unwrap();
    assert_eq!(atlas.len(), 1);
    let region = atlas.region(0).unwrap();
    assert_eq!(region.name, "head");
    assert_eq!(region.texture, head());
    assert!(atlas.region(1).is_none());
}

#[test]
fn regions_keep_their_order() {
    let text = format!(
        "page.png\n{}{}{}",
        record("c", false, 1),
        record("a", true, 2),
        record("b", false, 3)
    );
    let atlas = Atlas::parse(&text).unwrap();
    assert_eq!(atlas.len(), 3);
    let names: Vec<&str> = (0..3).map(|k| atlas.region(k).unwrap().name.as_str()).collect();
    assert_eq!(names, vec!["c", "a", "b"]);
    assert_eq!(atlas.get("a").unwrap().rotate, true);
    assert_eq!(atlas.get("a").unwrap().xy, (2, 2));
    assert_eq!(atlas.position("b"), Some(2));
    assert_eq!(atlas.position("d"), None);
    assert_eq!(atlas.get("d"), None);
}

#[test]
fn later_region_of_a_name_takes_the_place_of_the_earlier() {
    let text = format!(
        "{}{}{}",
        record("a", false, 1),
        record("b", false, 2),
        record("a", true, 3)
    );
    let atlas = Atlas::parse(&text).unwrap();
    assert_eq!(atlas.len(), 2);
    assert_eq!(atlas.region(0).unwrap().name, "a");
    assert_eq!(atlas.region(0).unwrap().texture.xy, (3, 2));
    assert_eq!(atlas.region(0).unwrap().texture.rotate, true);
    assert_eq!(atlas.region(1).unwrap().name, "b");
}

#[test]
fn insert_puts_new_names_last_and_old_names_in_place() {
    let mut atlas = Atlas::new();
    assert_eq!(atlas.len(), 0);
    atlas.insert("x".to_string(), head());
    atlas.insert("y".to_string(), head());
    let mut other = head();
    other.index = 4;
    atlas.insert("x".to_string(), other);
    assert_eq!(atlas.len(), 2);
    assert_eq!(atlas.get("x"), Some(other));
    assert_eq!(atlas.get("y"), Some(head()));
    assert_eq!(atlas.position("x"), Some(0));
}

#[test]
fn empty_text_is_an_empty_atlas() {
    assert_eq!(Atlas::parse("").unwrap().len(), 0);
    assert_eq!(Atlas::parse("\n\n").unwrap().len(), 0);
    assert_eq!(Atlas::parse("page.png\nformat: RGBA8888\n").unwrap().len(), 0);
}

#[test]
fn fields_at_the_start_of_the_text_have_an_empty_name() {
    let text = "\trotate: true\n\txy: 1, 2\n\tsize: 3, 4\n\torig: 5, 6\n\toffset: 7, 8\n\tindex: 9\n";
    let atlas = Atlas::parse(text).unwrap();
    assert_eq!(atlas.len(), 1);
    assert_eq!(atlas.region(0).unwrap().name, "");
    assert_eq!(
        atlas.region(0).unwrap().texture,
        Texture { rotate: true, xy: (1, 2), size: (3, 4), orig: (5, 6), offset: (7, 8), index: 9 }
    );
}

#[test]
fn fields_right_after_a_region_have_an_empty_name() {
    let text = format!("{}{}", record("a", false, 1), &record("", true, 2)[1..]);
    let atlas = Atlas::parse(&text).unwrap();
    assert_eq!(atlas.len(), 2);
    assert_eq!(atlas.region(1).unwrap().name, "");
    assert_eq!(atlas.region(1).unwrap().texture.xy, (2, 2));
}

#[test]
fn carriage_returns_end_lines_too() {
    let text = HEAD.replace('\n', "\r\n");
    let atlas = Atlas::parse(&text).unwrap();
    assert_eq!(atlas.len(), 1);
    assert_eq!(atlas.region(0).unwrap().name, "head");
    assert_eq!(atlas.region(0).unwrap().texture, head());
}

#[test]
fn last_line_may_end_with_the_text() {
    let text = HEAD.trim_end_matches('\n');
    let atlas = Atlas::parse(text).unwrap();
    assert_eq!(atlas.region(0).unwrap().texture, head());
}

#[test]
fn names_may_hold_any_characters() {
    let text = record("t\u{e9}te d'\u{e2}ne/\u{1F600}", false, 1);
    let atlas = Atlas::parse(&text).unwrap();
    assert_eq!(atlas.region(0).unwrap().name, "t\u{e9}te d'\u{e2}ne/\u{1F600}");
    assert_eq!(atlas.position("t\u{e9}te d'\u{e2}ne/\u{1F600}"), Some(0));
}

#[test]
fn record_cut_after_orig_is_truncated() {
    let text = "head\n  rotate: false\n  xy: 279, 75\n  size: 163, 179\n  orig: 163, 179\n";
    assert_eq!(Atlas::parse(text).err(), Some(AtlasError::TruncatedRecord));
}

#[test]
fn record_cut_anywhere_is_truncated() {
    let lines: Vec<&str> = HEAD.lines().collect();
    for keep in 7..12 {
        let text = lines[..keep].join("\n");
        assert_eq!(Atlas::parse(&text).err(), Some(AtlasError::TruncatedRecord), "{}", keep);
    }
    assert!(Atlas::parse(&lines[..12].join("\n")).is_ok());
}

#[test]
fn field_that_is_no_number_is_refused() {
    let bad = HEAD.replace("163, 179", "163, x79");
    assert_eq!(Atlas::parse(&bad).err(), Some(AtlasError::InvalidNumericField));
    let bad = HEAD.replace("index: -1", "index: one");
    assert_eq!(Atlas::parse(&bad).err(), Some(AtlasError::InvalidNumericField));
    let bad = HEAD.replace("rotate: false", "rotate: no");
    assert_eq!(Atlas::parse(&bad).err(), Some(AtlasError::InvalidNumericField));
    let bad = HEAD.replace("index: -1", "index: 32768");
    assert_eq!(Atlas::parse(&bad).err(), Some(AtlasError::InvalidNumericField));
}

#[test]
fn index_takes_the_whole_signed_range() {
    let low = HEAD.replace("index: -1", "index: -32768");
    assert_eq!(Atlas::parse(&low).unwrap().region(0).unwrap().texture.index, -32768);
    let high = HEAD.replace("index: -1", "index: +32767");
    assert_eq!(Atlas::parse(&high).unwrap().region(0).unwrap().texture.index, 32767);
    let under = HEAD.replace("index: -1", "index: -32769");
    assert_eq!(Atlas::parse(&under).err(), Some(AtlasError::InvalidNumericField));
}

#[test]
fn first_wrong_field_decides_the_error() {
    let text = "head\n  rotate: maybe\n  xy: 1, 2\n";
    assert_eq!(Atlas::parse(text).err(), Some(AtlasError::InvalidNumericField));
    let text = "head\n  rotate: true\n";
    assert_eq!(Atlas::parse(text).err(), Some(AtlasError::TruncatedRecord));
}

#[test]
fn line_too_short_for_its_field_name_is_refused() {
    let bad = HEAD.replace("  xy: 279, 75", "  xy");
    assert_eq!(Atlas::parse(&bad).err(), Some(AtlasError::InvalidLine));
    let bad = HEAD.replace("  rotate: false", " ");
    assert_eq!(Atlas::parse(&bad).err(), Some(AtlasError::InvalidLine));
}

#[test]
fn field_name_length_inside_a_character_is_refused() {
    let bad = HEAD.replace("  xy: 279, 75", "  \u{e9}\u{e9}1, 2");
    assert_eq!(Atlas::parse(&bad).err(), Some(AtlasError::InvalidLine));
    let good = HEAD.replace("  xy: 279, 75", "  x\u{e9}1, 2");
    assert_eq!(Atlas::parse(&good).unwrap().region(0).unwrap().texture.xy, (1, 2));
}

#[test]
fn field_names_are_cut_off_unread() {
    let text = "n\n  ROTATE:true\n  ab:1,2\n  12345 3 , 4 \n  orig 5,6\n  offset:7,8,9\n  index:0\n";
    let atlas = Atlas::parse(text).unwrap();
    assert_eq!(
        atlas.region(0).unwrap().texture,
        Texture { rotate: true, xy: (1, 2), size: (3, 4), orig: (5, 6), offset: (7, 8), index: 0 }
    );
}

#[test]
fn field_lines_after_the_first_need_no_indent() {
    let text = "n\n rotate:false\nxy:1,2\nsize:3,4\norig:5,6\noffset:7,8\nindex:-2\n";
    let atlas = Atlas::parse(text).unwrap();
    assert_eq!(atlas.region(0).unwrap().texture.index, -2);
    assert_eq!(atlas.region(0).unwrap().name, "n");
}

#[test]
fn errors_have_their_words() {
    assert_eq!(AtlasError::TruncatedRecord.message(), "truncated record");
    assert_eq!(AtlasError::InvalidNumericField.message(), "invalid numeric field");
    assert_eq!(AtlasError::InvalidLine.message(), "invalid line");
}

#[test]
fn region_inside_and_outside_the_image() {
    assert!(head().lies_within(1024, 256));
    assert!(head().lies_within(442, 254));
    assert!(!head().lies_within(441, 254));
    assert!(!head().lies_within(442, 253));
    let far = Texture { xy: (65535, 65535), size: (65535, 65535), ..head() };
    assert!(far.lies_within(131070, 131070));
    assert!(!far.lies_within(131069, 131070));
}

#[test]
fn written_regions_read_back() {
    let mut text = String::new();
    let mut expected = Vec::new();
    for k in 0..40u16 {
        let texture = Texture {
            rotate: k % 3 == 0,
            xy: (k, 65535 - k),
            size: (10 * k, 1000 * k),
            orig: (0, 9),
            offset: (k / 2, 10),
            index: (k as i16 - 20) * 1638,
        };
        let name = format!("region {}/\u{e9}", k);
        text.push_str(&format!(
            "{}\n  rotate: {}\n  xy: {}, {}\n  size: {}, {}\n  orig: {}, {}\n  offset: {}, {}\n  index: {}\n",
            name,
            texture.rotate,
            texture.xy.0,
            texture.xy.1,
            texture.size.0,
            texture.size.1,
            texture.orig.0,
            texture.orig.1,
            texture.offset.0,
            texture.offset.1,
            texture.index
        ));
        expected.push((name, texture));
    }
    let atlas = Atlas::parse(&text).unwrap();
    assert_eq!(atlas.len(), expected.len());
    for (k, (name, texture)) in expected.iter().enumerate() {
        let region = atlas.region(k).unwrap();
        assert_eq!(&region.name, name);
        assert_eq!(&region.texture, texture);
    }
}
