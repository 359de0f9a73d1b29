use worldmap::cursor::{read_bytes, read_u32, DecodeError};
use worldmap::records::{
    std_string, world_chip, world_event_base, world_event_page, world_map, StdString,
};

fn put(buf: &mut Vec<u8>, v: u32) {
    buf.extend_from_slice(&v.to_le_bytes());
}

fn put_string(buf: &mut Vec<u8>, length: u32, payload: &[u8]) {
    put(buf, length);
    buf.extend_from_slice(payload);
}

fn page_bytes(seed: u32) -> Vec<u8> {
    let mut b = Vec::new();
    for i in 0..16u32 {
        put(&mut b, seed * 100 + i);
    }
    put_string(&mut b, 3, b"abc");
    put_string(&mut b, 0, b"");
    b
}

fn minimal_map() -> Vec<u8> {
    let mut b = Vec::new();
    for v in [1u32, 0, 10, 10, 8, 3, 0, 0, 0, 0, 2] {
        put(&mut b, v);
    }
    put_string(&mut b, 0, b"");
    put_string(&mut b, 0, b"");
    put(&mut b, 0); // tiles types
    put(&mut b, 0); // tiles
    put(&mut b, 0); // events
    put(&mut b, 0); // event templates
    b
}

#[test]
fn reads_little_endian_u32() {
    let data = [0x78u8, 0x56, 0x34, 0x12, 0xff];
    assert_eq!(read_u32(&data, 0), Ok((0x12345678, 4)));
    assert_eq!(
        read_u32(&data, 2),
        Err(DecodeError::InsufficientData { offset: 2, needed: 4, available: 3 })
    );
}

#[test]
fn reads_raw_bytes() {
    let data = [1u8, 2, 3, 4];
    assert_eq!(read_bytes(&data, 1, 2), Ok((vec![2, 3], 3)));
    assert_eq!(
        read_bytes(&data, 1, 4),
        Err(DecodeError::InsufficientData { offset: 1, needed: 4, available: 3 })
    );
}

#[test]
fn short_strings_have_no_payload() {
    for length in [0u32, 1] {
        let mut b = Vec::new();
        put_string(&mut b, length, b"\x41\x42\x43");
        let (s, end) = std_string(&b, 0).unwrap();
        assert_eq!(s, StdString { length, data: vec![] });
        assert_eq!(end, 4);
    }
}

#[test]
fn long_strings_take_exactly_their_length() {
    let mut b = Vec::new();
    put_string(&mut b, 2, b"hi!");
    let (s, end) = std_string(&b, 0).unwrap();
    assert_eq!(s, StdString { length: 2, data: b"hi".to_vec() });
    assert_eq!(end, 6);
}

#[test]
fn string_payload_shortfall_is_reported() {
    let mut b = Vec::new();
    put_string(&mut b, 5, b"ab");
    assert_eq!(
        std_string(&b, 0),
        Err(DecodeError::InsufficientData { offset: 4, needed: 5, available: 2 })
    );
}

#[test]
fn chip_fields_in_order() {
    let mut b = Vec::new();
    for v in [7u32, 8, 9, 10, 2] {
        put(&mut b, v);
    }
    put_string(&mut b, 2, b"ok");
    put_string(&mut b, 1, b"");
    let (c, end) = world_chip(&b, 0).unwrap();
    assert_eq!((c.header, c.tile_index, c.locked, c.graphic, c.strings_count), (7, 8, 9, 10, 2));
    assert_eq!(c.name.data, b"ok".to_vec());
    assert_eq!(c.unused_string, StdString { length: 1, data: vec![] });
    assert_eq!(end, b.len());
}

#[test]
fn page_fields_in_order() {
    let b = page_bytes(4);
    let (p, end) = world_event_page(&b, 0).unwrap();
    assert_eq!(p.start, 400);
    assert_eq!(p.event_type, 401);
    assert_eq!(p.appearance_condition_world, 407);
    assert_eq!(p.variation_constant, 414);
    assert_eq!(p.strings_count, 415);
    assert_eq!(p.world_name.data, b"abc".to_vec());
    assert_eq!(p.start_stage.length, 0);
    assert_eq!(end, b.len());
}

#[test]
fn event_consumes_exactly_its_pages() {
    let mut b = Vec::new();
    for v in [1u32, 5, 6, 1] {
        put(&mut b, v);
    }
    put_string(&mut b, 2, b"ev");
    put(&mut b, 3);
    for seed in 1..=3u32 {
        b.extend_from_slice(&page_bytes(seed));
    }
    let expected_end = b.len();
    b.extend_from_slice(&page_bytes(9));
    let (e, end) = world_event_base(&b, 0).unwrap();
    assert_eq!(e.pages_count, 3);
    assert_eq!(e.pages.len(), 3);
    assert_eq!(e.pages[0].start, 100);
    assert_eq!(e.pages[1].start, 200);
    assert_eq!(e.pages[2].start, 300);
    assert_eq!(end, expected_end);
}

#[test]
fn minimal_map_end_to_end() {
    let b = minimal_map();
    let (m, end) = world_map(&b).unwrap();
    assert_eq!(m.version, 1);
    assert_eq!(m.settings_count, 0);
    assert_eq!(m.horizontal_width, 10);
    assert_eq!(m.vertical_width, 10);
    assert_eq!(m.chunk_width, 8);
    assert_eq!(m.chunk_pow, 3);
    assert_eq!(m.initial_position_x, 0);
    assert_eq!(m.initial_position_y, 0);
    assert_eq!(m.background_index, 0);
    assert_eq!(m.use_background, 0);
    assert_eq!(m.strings_count, 2);
    assert_eq!(m.name, StdString { length: 0, data: vec![] });
    assert_eq!(m.bg_path, StdString { length: 0, data: vec![] });
    assert!(m.world_chip_data.is_empty());
    assert!(m.map_chip_data.is_empty());
    assert!(m.event_data.is_empty());
    assert!(m.event_template_data.is_empty());
    assert_eq!(end, b.len());
}

#[test]
fn events_are_bounded_by_tile_count() {
    let mut b = Vec::new();
    for v in [1u32, 0, 2, 1, 8, 3, 0, 0, 0, 0, 2] {
        put(&mut b, v);
    }
    put_string(&mut b, 0, b"");
    put_string(&mut b, 4, b"sky!");
    put(&mut b, 1); // one chip
    for v in [1u32, 2, 0, 3, 2] {
        put(&mut b, v);
    }
    put_string(&mut b, 0, b"");
    put_string(&mut b, 0, b"");
    put(&mut b, 2); // two tiles
    put(&mut b, 11);
    put(&mut b, 12);
    put(&mut b, 0); // declared events: ignored as a bound
    for x in [3u32, 4] {
        for v in [1u32, x, x, 1] {
            put(&mut b, v);
        }
        put_string(&mut b, 0, b"");
        put(&mut b, 0);
    }
    put(&mut b, 9); // declared templates: ignored as a bound
    for x in [5u32, 6] {
        for v in [1u32, x, x, 1] {
            put(&mut b, v);
        }
        put_string(&mut b, 0, b"");
        put(&mut b, 0);
    }
    let (m, end) = world_map(&b).unwrap();
    assert_eq!(m.bg_path.data, b"sky!".to_vec());
    assert_eq!(m.world_chip_data.len(), 1);
    assert_eq!(m.world_chip_data[0].graphic, 3);
    assert_eq!(m.map_chip_data, vec![11, 12]);
    assert_eq!(m.events_count, 0);
    assert_eq!(m.event_data.len(), 2);
    assert_eq!(m.event_data[1].placement_x, 4);
    assert_eq!(m.events_pal_count, 9);
    assert_eq!(m.event_template_data.len(), 2);
    assert_eq!(m.event_template_data[0].placement_y, 5);
    assert_eq!(end, b.len());
}

#[test]
fn truncation_at_each_boundary_reports_that_offset() {
    let b = minimal_map();
    let mut k = 0;
    while k < b.len() {
        let r = world_map(&b[..k]);
        // every field of the minimal map is four bytes wide
        assert_eq!(
            r,
            Err(DecodeError::InsufficientData { offset: k, needed: 4, available: 0 })
        );
        k += 4;
    }
}

#[test]
fn truncation_inside_a_payload() {
    let mut b = Vec::new();
    for v in [1u32, 0, 10, 10, 8, 3, 0, 0, 0, 0, 2] {
        put(&mut b, v);
    }
    put_string(&mut b, 6, b"abc");
    assert_eq!(
        world_map(&b),
        Err(DecodeError::InsufficientData { offset: 48, needed: 6, available: 3 })
    );
}

#[test]
fn empty_input_fails_at_start() {
    assert_eq!(
        world_map(&[]),
        Err(DecodeError::InsufficientData { offset: 0, needed: 4, available: 0 })
    );
}

#[test]
fn trailing_bytes_are_left_alone() {
    let mut b = minimal_map();
    let end_of_map = b.len();
    b.extend_from_slice(&[0xde, 0xad, 0xbe, 0xef, 0x01]);
    let (m, end) = world_map(&b).unwrap();
    assert_eq!(end, end_of_map);
    assert_eq!(m.version, 1);
    assert_eq!(world_map(&b[..end_of_map]), world_map(&b));
}

#[test]
fn truncated_inside_a_field_reports_that_field() {
    let b = minimal_map();
    assert_eq!(
        world_map(&b[..6]),
        Err(DecodeError::InsufficientData { offset: 4, needed: 4, available: 2 })
    );
}
