use quadgrid::encoding::rle::{encode, RleEncoder, RleValue};
use quadgrid::encoding::{compress, Compressor};

#[test]
fn runs_become_value_count_pairs() {
    let data: Vec<u8> = vec![1, 1, 1, 2, 5, 5];
    let pairs = RleEncoder::new(&data).encode();
    assert_eq!(
        pairs,
        vec![
            RleValue { value: 1, count: 3 },
            RleValue { value: 2, count: 1 },
            RleValue { value: 5, count: 2 },
        ]
    );
}

#[test]
fn empty_input_has_no_runs() {
    let pairs = RleEncoder::new(&Vec::new()).encode();
    assert!(pairs.is_empty());
}

#[test]
fn long_runs_are_capped_at_255() {
    let data: Vec<u8> = vec![7; 300];
    let pairs = RleEncoder::new(&data).encode();
    assert_eq!(
        pairs,
        vec![
            RleValue {
                value: 7,
                count: 255
            },
            RleValue {
                value: 7,
                count: 45
            },
        ]
    );
}

#[test]
fn run_of_exactly_255_is_one_pair() {
    let data: Vec<u8> = vec![9; 255];
    let pairs = RleEncoder::new(&data).encode();
    assert_eq!(
        pairs,
        vec![RleValue {
            value: 9,
            count: 255
        }]
    );
}

#[test]
fn byte_form_interleaves_value_then_count() {
    let data: Vec<u8> = vec![0, 0, 0, 0, 4];
    let bytes = encode(&data);
    assert_eq!(bytes, vec![0, 4, 4, 1]);
    assert_eq!(bytes.len(), 2 * 2);
}

#[test]
fn compressor_applies_the_rle_stage() {
    let data: Vec<u8> = vec![8, 8, 3];
    assert_eq!(Compressor::Rle.compress(&data), vec![8, 2, 3, 1]);
    assert_eq!(compress(&data, Compressor::Rle), vec![8, 2, 3, 1]);
}

#[test]
fn pair_renders_count_then_value() {
    let pair = RleValue { value: 7, count: 3 };
    assert_eq!(pair.to_string(), "37");
    let wide = RleValue {
        value: 201,
        count: 12,
    };
    assert_eq!(wide.to_string(), "12201");
    let zero = RleValue { value: 0, count: 0 };
    assert_eq!(zero.to_string(), "00");
    let max = RleValue {
        value: 255,
        count: 255,
    };
    assert_eq!(max.to_string(), "255255");
}
