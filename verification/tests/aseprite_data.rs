use aseprite_data::AsepriteData;
use aseprite_data::Frame;
use aseprite_data::MalformedDocument;
use aseprite_data::Rect;

fn frame(x: u64, y: u64, w: u64, h: u64) -> Frame {
    Frame { x, y, w, h }
}

fn rect(x: u64, y: u64, width: u64, height: u64) -> Rect {
    Rect { x, y, width, height }
}

#[test]
fn empty_map_yields_empty_sequence() {
    let doc: &[u8] = b"{\"frames\": {}}";
    let m = AsepriteData::parse(doc).unwrap();
    assert_eq!(m.rect_iter(), Vec::<Rect>::new());
}

#[test]
fn missing_extent_fields_are_malformed() {
    let doc: &[u8] = b"{\"frames\": {\"x\": {\"frame\": {\"x\": 0, \"y\": 0}}}}";
    assert!(matches!(AsepriteData::parse(doc), Err(MalformedDocument)));
}

#[test]
fn invalid_syntax_is_malformed() {
    let doc: &[u8] = b"{\"frames\": ";
    assert!(matches!(AsepriteData::parse(doc), Err(MalformedDocument)));
}

#[test]
fn missing_frames_field_is_malformed() {
    let doc: &[u8] = b"{\"sprites\": {}}";
    assert!(matches!(AsepriteData::parse(doc), Err(MalformedDocument)));
}

#[test]
fn frames_field_of_wrong_type_is_malformed() {
    let doc: &[u8] = b"{\"frames\": [1, 2]}";
    assert!(matches!(AsepriteData::parse(doc), Err(MalformedDocument)));
}

#[test]
fn non_integer_coordinate_is_malformed() {
    let doc: &[u8] =
        b"{\"frames\": {\"a\": {\"frame\": {\"x\": 1.5, \"y\": 0, \"w\": 8, \"h\": 8}}}}";
    assert!(matches!(AsepriteData::parse(doc), Err(MalformedDocument)));
}

#[test]
fn negative_coordinate_is_malformed() {
    let doc: &[u8] =
        b"{\"frames\": {\"a\": {\"frame\": {\"x\": -1, \"y\": 0, \"w\": 8, \"h\": 8}}}}";
    assert!(matches!(AsepriteData::parse(doc), Err(MalformedDocument)));
}

#[test]
fn string_coordinate_is_malformed() {
    let doc: &[u8] =
        b"{\"frames\": {\"a\": {\"frame\": {\"x\": \"0\", \"y\": 0, \"w\": 8, \"h\": 8}}}}";
    assert!(matches!(AsepriteData::parse(doc), Err(MalformedDocument)));
}

#[test]
fn missing_frame_field_is_malformed() {
    let doc: &[u8] = b"{\"frames\": {\"a\": {\"x\": 0, \"y\": 0, \"w\": 8, \"h\": 8}}}";
    assert!(matches!(AsepriteData::parse(doc), Err(MalformedDocument)));
}

#[test]
fn end_to_end_example() {
    let doc: &[u8] = b"{\"frames\": {\
        \"sheet 10.png\": {\"frame\": {\"x\":10,\"y\":0,\"w\":8,\"h\":8}},\
        \"sheet 2.png\":  {\"frame\": {\"x\":2,\"y\":0,\"w\":8,\"h\":8}}\
        }}";
    let m = AsepriteData::parse(doc).unwrap();
    assert_eq!(m.rect_iter(), vec![rect(2, 0, 8, 8), rect(10, 0, 8, 8)]);
}

#[test]
fn unknown_fields_are_ignored() {
    let doc: &[u8] = b"{\"meta\": {\"app\": \"x\"}, \"frames\": {\
        \"a\": {\"frame\": {\"x\": 3, \"y\": 4, \"w\": 5, \"h\": 6, \"extra\": []}, \
                \"rotated\": false}\
        }, \"version\": 2}";
    let m = AsepriteData::parse(doc).unwrap();
    assert_eq!(m.rect_iter(), vec![rect(3, 4, 5, 6)]);
}

#[test]
fn length_first_ordering() {
    let entries = vec![
        (b"bb".to_vec(), frame(10, 0, 1, 1)),
        (b"a".to_vec(), frame(20, 0, 1, 1)),
    ];
    let m = AsepriteData::from_entries(&entries);
    assert_eq!(m.rect_iter(), vec![rect(20, 0, 1, 1), rect(10, 0, 1, 1)]);
}

#[test]
fn length_first_beats_lexicographic() {
    // "z" sorts after "ab" lexicographically, but is shorter, so it comes
    // first.
    let entries = vec![
        (b"ab".to_vec(), frame(1, 0, 1, 1)),
        (b"z".to_vec(), frame(2, 0, 1, 1)),
    ];
    let m = AsepriteData::from_entries(&entries);
    assert_eq!(m.rect_iter(), vec![rect(2, 0, 1, 1), rect(1, 0, 1, 1)]);
}

#[test]
fn lexicographic_tie_break() {
    let doc: &[u8] = b"{\"frames\": {\
        \"sheet 3\": {\"frame\": {\"x\": 30, \"y\": 0, \"w\": 8, \"h\": 8}},\
        \"sheet 2\": {\"frame\": {\"x\": 20, \"y\": 0, \"w\": 8, \"h\": 8}}\
        }}";
    let m = AsepriteData::parse(doc).unwrap();
    assert_eq!(m.rect_iter(), vec![rect(20, 0, 8, 8), rect(30, 0, 8, 8)]);
}

#[test]
fn multi_digit_indices_order_numerically() {
    let entries = vec![
        (b"sheet 10.aseprite".to_vec(), frame(10, 0, 1, 1)),
        (b"sheet 2.aseprite".to_vec(), frame(2, 0, 1, 1)),
        (b"sheet 1.aseprite".to_vec(), frame(1, 0, 1, 1)),
    ];
    let m = AsepriteData::from_entries(&entries);
    assert_eq!(
        m.rect_iter(),
        vec![rect(1, 0, 1, 1), rect(2, 0, 1, 1), rect(10, 0, 1, 1)]
    );
}

#[test]
fn one_rectangle_per_entry() {
    let doc: &[u8] = b"{\"frames\": {\
        \"c\": {\"frame\": {\"x\": 1, \"y\": 1, \"w\": 1, \"h\": 1}},\
        \"a\": {\"frame\": {\"x\": 2, \"y\": 2, \"w\": 2, \"h\": 2}},\
        \"b\": {\"frame\": {\"x\": 3, \"y\": 3, \"w\": 3, \"h\": 3}}\
        }}";
    let m = AsepriteData::parse(doc).unwrap();
    let rects = m.rect_iter();
    assert_eq!(rects.len(), 3);
    assert!(rects.contains(&rect(1, 1, 1, 1)));
    assert!(rects.contains(&rect(2, 2, 2, 2)));
    assert!(rects.contains(&rect(3, 3, 3, 3)));
}

#[test]
fn repeated_reads_are_identical() {
    let doc: &[u8] = b"{\"frames\": {\
        \"sheet 1\": {\"frame\": {\"x\": 0, \"y\": 0, \"w\": 4, \"h\": 4}},\
        \"sheet 2\": {\"frame\": {\"x\": 4, \"y\": 0, \"w\": 4, \"h\": 4}}\
        }}";
    let m = AsepriteData::parse(doc).unwrap();
    assert_eq!(m.rect_iter(), m.rect_iter());
}

#[test]
fn duplicate_name_keeps_last_frame() {
    let entries = vec![
        (b"a".to_vec(), frame(1, 1, 1, 1)),
        (b"a".to_vec(), frame(2, 2, 2, 2)),
    ];
    let m = AsepriteData::from_entries(&entries);
    assert_eq!(m.rect_iter(), vec![rect(2, 2, 2, 2)]);
}

#[test]
fn rectangle_fields_carry_over_unchanged() {
    let doc: &[u8] = b"{\"frames\": {\"a\": {\"frame\": {\"x\": 7, \"y\": 11, \"w\": 13, \"h\": 17}}}}";
    let m = AsepriteData::parse(doc).unwrap();
    let rects = m.rect_iter();
    assert_eq!(rects[0].x, 7);
    assert_eq!(rects[0].y, 11);
    assert_eq!(rects[0].width, 13);
    assert_eq!(rects[0].height, 17);
}

#[test]
fn large_integer_coordinates_survive() {
    let doc: &[u8] =
        b"{\"frames\": {\"a\": {\"frame\": {\"x\": 18446744073709551615, \"y\": 0, \"w\": 1, \"h\": 1}}}}";
    let m = AsepriteData::parse(doc).unwrap();
    assert_eq!(m.rect_iter()[0].x, u64::MAX);
}

#[test]
fn duplicate_document_key_keeps_last_frame() {
    let doc: &[u8] = b"{\"frames\": {\
        \"a\": {\"frame\": {\"x\": 1, \"y\": 1, \"w\": 1, \"h\": 1}},\
        \"a\": {\"frame\": {\"x\": 2, \"y\": 2, \"w\": 2, \"h\": 2}}\
        }}";
    let m = AsepriteData::parse(doc).unwrap();
    assert_eq!(m.rect_iter(), vec![rect(2, 2, 2, 2)]);
}
