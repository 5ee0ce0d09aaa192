use mateyship::bits::BitField;
use mateyship::text::{ascii_string, decimal_text, hex_text};
use mateyship::types::{Block, BlockMeta, Message};

#[test]
fn the_most_significant_bit_comes_first() {
    let field = BitField::from_bytes(vec![0b1000_0001, 0b0100_0000]);
    assert_eq!(field.len(), 16);
    let bits: Vec<bool> = (0..16).map(|i| field.get(i).unwrap()).collect();
    let set: Vec<usize> = (0..16).filter(|&i| bits[i]).collect();
    assert_eq!(set, vec![0, 7, 9]);
    assert_eq!(field.get(16), None);
}

#[test]
fn bytes_survive_a_bit_field() {
    for byte in 0..=255u8 {
        assert_eq!(
            BitField::from_bytes(vec![byte, !byte]).into_bytes(),
            vec![byte, !byte]
        );
    }
}

#[test]
fn a_bit_field_fills_its_last_byte_up() {
    let mut field = BitField::cleared(10);
    assert_eq!(field.len(), 10);
    assert!(field.set(0, true));
    assert!(field.set(9, true));
    assert!(!field.set(10, true));
    assert_eq!(field.get(9), Some(true));
    assert_eq!(field.get(8), Some(false));
    assert_eq!(field.clone(), field);
    assert_eq!(field.into_bytes(), vec![0b1000_0000, 0b0100_0000]);
}

#[test]
fn decimal_texts() {
    assert_eq!(decimal_text(0), b"0");
    assert_eq!(decimal_text(10), b"10");
    assert_eq!(decimal_text(907), b"907");
    assert_eq!(decimal_text(u64::MAX), b"18446744073709551615");
}

#[test]
fn hexadecimal_texts() {
    assert_eq!(hex_text(&[0x00, 0x0f, 0xa0, 0xff]), "000fa0ff");
    assert_eq!(hex_text(&[]), "");
}

#[test]
fn ascii_texts() {
    assert_eq!(ascii_string(b"Matey Ship"), "Matey Ship");
}

#[test]
fn blocks_are_named_by_their_place() {
    let meta = BlockMeta {
        piece_index: 1,
        begin: 16384,
        length: 3,
    };
    assert_eq!(format!("{:?}", meta), "BlockMeta(1, 16384, 3)");
    assert_eq!(format!("{:x?}", meta), "BlockMeta(1, 4000, 3)");
    assert_eq!(format!("{:2?}", meta), "BlockMeta( 1, 16384,  3)");
    assert_eq!(
        format!("{:#?}", meta),
        "BlockMeta(\n    1,\n    16384,\n    3,\n)"
    );
    let block = Block {
        meta,
        data: vec![1, 2, 3],
    };
    assert_eq!(
        format!("{:?}", block),
        "Block { meta: BlockMeta(1, 16384, 3), data: \"..\" }"
    );
    assert_eq!(
        format!("{:#?}", block),
        "Block {\n    meta: BlockMeta(\n        1,\n        16384,\n        3,\n    ),\n    data: \"..\",\n}"
    );
    assert_eq!(
        format!("{:#?}", Some(Message::Cancel(meta))),
        "Some(\n    Cancel(\n        BlockMeta(\n            1,\n            16384,\n            3,\n        ),\n    ),\n)"
    );
}
