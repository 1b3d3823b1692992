use quadgrid::components::math::Size2i;
use quadgrid::components::visuals::Point;
use quadgrid::data_structures::quadtree::{Quadtree, Region};
use quadgrid::encoding::decoder::{decode_bytes, DecodeError, Decoder};
use quadgrid::encoding::encoder::{Encoder, EncoderBuilder, EncoderContext};
use quadgrid::encoding::{encode, Decodable, Encodable};

fn sorted(mut points: Vec<Point>) -> Vec<(u32, u32)> {
    let mut pairs: Vec<(u32, u32)> = points.drain(..).map(|p| (p.x, p.y)).collect();
    pairs.sort();
    pairs
}

#[test]
fn encode_two_by_one_grid() {
    let rows: Vec<Vec<u8>> = vec![vec![0, 1]];
    let bytes = encode(&rows, &Size2i::new(2, 1));
    assert_eq!(bytes, vec![0x00, 0x02, 0x00, 0x01, 0x00, 0x02]);
}

#[test]
fn decode_two_by_one_grid() {
    let bytes: Vec<u8> = vec![0x00, 0x02, 0x00, 0x01, 0x00, 0x02];
    let points = decode_bytes(&bytes).unwrap();
    assert_eq!(sorted(points), vec![(1, 0)]);
}

#[test]
fn quadtree_encodes_like_its_grid() {
    let mut tree = Quadtree::new(Point::new(0, 0), Size2i::new(2, 1));
    tree.insert_point(Point::new(1, 0));
    let bytes = encode(&tree, &Size2i::new(2, 1));
    assert_eq!(bytes, vec![0x00, 0x02, 0x00, 0x01, 0x00, 0x02]);
}

#[test]
fn to_grid_marks_occupied_cells() {
    let mut tree = Quadtree::new(Point::new(0, 0), Size2i::new(3, 2));
    tree.insert_point(Point::new(0, 0));
    tree.insert_point(Point::new(2, 1));
    let rows = tree.to_grid();
    assert_eq!(rows, vec![vec![1, 0, 0], vec![0, 0, 1]]);
}

#[test]
fn round_trip_recovers_the_point_set() {
    let mut tree = Quadtree::new(Point::new(0, 0), Size2i::new(7, 5));
    let inserted = [(0u32, 0u32), (6, 0), (3, 2), (0, 4), (6, 4), (5, 1)];
    for (x, y) in inserted {
        tree.insert_point(Point::new(x, y));
    }
    let bytes = encode(&tree, &Size2i::new(7, 5));
    let decoded = decode_bytes(&bytes).unwrap();
    let mut expected: Vec<(u32, u32)> = inserted.to_vec();
    expected.sort();
    assert_eq!(sorted(decoded), expected);
}

#[test]
fn round_trip_of_empty_grid_is_empty() {
    let tree = Quadtree::new(Point::new(0, 0), Size2i::new(9, 3));
    let bytes = encode(&tree, &Size2i::new(9, 3));
    assert_eq!(bytes.len(), 4 + 2 * 2);
    let decoded = decode_bytes(&bytes).unwrap();
    assert!(decoded.is_empty());
}

#[test]
fn header_only_buffer_decodes_to_no_points() {
    let bytes: Vec<u8> = vec![0x00, 0x09, 0x00, 0x04];
    let points = decode_bytes(&bytes).unwrap();
    assert!(points.is_empty());
}

#[test]
fn short_buffer_is_malformed() {
    let bytes: Vec<u8> = vec![0x00, 0x09, 0x00];
    assert_eq!(decode_bytes(&bytes), Err(DecodeError::MalformedInput));
    assert_eq!(decode_bytes(&Vec::new()), Err(DecodeError::MalformedInput));
}

#[test]
fn decoder_caches_its_first_result() {
    let bytes: Vec<u8> = vec![0x00, 0x02, 0x00, 0x01, 0x00, 0x02];
    let mut decoder = Decoder::new(bytes);
    assert!(!decoder.is_cached());
    let first = decoder.decode().unwrap();
    assert!(decoder.is_cached());
    let second = decoder.decode().unwrap();
    assert_eq!(first, second);
    assert_eq!(sorted(first), vec![(1, 0)]);
}

#[test]
fn decoder_reports_nothing_for_malformed_input() {
    let mut decoder = Decoder::new(vec![0u8, 1u8]);
    assert_eq!(decoder.decode(), None);
    assert!(!decoder.is_cached());
}

#[test]
fn decodable_buffer_decodes_directly() {
    let bytes: Vec<u8> = vec![0x00, 0x02, 0x00, 0x02, 0x00, 0x03];
    let points = bytes.decode().unwrap();
    assert_eq!(sorted(points), vec![(0, 0), (1, 0)]);
}

#[test]
fn builder_assembles_an_encoder() {
    let mut tree = Quadtree::new(Point::new(0, 0), Size2i::new(2, 1));
    tree.insert_point(Point::new(0, 0));
    let encoder: Encoder<Quadtree> = EncoderBuilder::new()
        .sized(Size2i::new(2, 1))
        .with_data(tree)
        .build();
    assert_eq!(encoder.context.size, Size2i::new(2, 1));
    assert_eq!(encoder.encode(), vec![0x00, 0x02, 0x00, 0x01, 0x00, 0x01]);
}

#[test]
fn grid_encodable_flattens_rows_in_order() {
    let rows: Vec<Vec<u8>> = vec![vec![1, 0, 0, 0], vec![0, 0, 0, 1]];
    let context = EncoderContext {
        size: Size2i::new(4, 2),
    };
    let bytes = rows.encode(&context);
    // bits 0 and 7 set in one word: 0x0081, big-endian
    assert_eq!(bytes, vec![0x00, 0x04, 0x00, 0x02, 0x00, 0x81]);
}

#[test]
fn partial_final_word_is_flushed() {
    let rows: Vec<Vec<u8>> = vec![vec![1; 20]];
    let context = EncoderContext {
        size: Size2i::new(20, 1),
    };
    let bytes = rows.encode(&context);
    assert_eq!(bytes.len(), 4 + 4);
    assert_eq!(&bytes[4..], &[0xFF, 0xFF, 0x00, 0x0F]);
}

#[test]
fn odd_length_tail_is_read_as_high_byte() {
    // lone trailing byte 0x80 acts as the high byte of a final word
    let bytes: Vec<u8> = vec![0x00, 0x10, 0x00, 0x01, 0x80];
    let points = decode_bytes(&bytes).unwrap();
    assert_eq!(sorted(points), vec![(15, 0)]);
}
