use binox::row::BinRow;

#[test]
pub fn basics() {
    assert!(BinRow::new(18).is_err());
    assert!(BinRow::new(2).is_err());
    assert!(BinRow::new(7).is_err());
    assert!(BinRow::new(6).is_ok());
    let mut row = BinRow::new(8).unwrap();
    assert_eq!(row.data, 0);
    assert_eq!(row.count, 0);
    row.set_zero(1).unwrap();
    assert_eq!(row.data, 0);
    assert_eq!(row.count, 0);
    row.set_one(1).unwrap();
    row.set_one(3).unwrap();
    row.set_one(1).unwrap();
    assert_eq!(row.data, 0b00001010);
    assert_eq!(row.count, 2);
    assert!(row.set_one(12).is_err());
    assert!(row.is_valid());
    row.set_one(2).unwrap();
    assert!(!row.is_valid());
    row.set_zero(3).unwrap();
    row.set_one(4).unwrap();
    row.set_one(5).unwrap();
    assert!(row.is_valid());
    row.set_one(7).unwrap();
    assert!(!row.is_valid());
}

#[test]
fn new_rejects_each_bad_size_with_its_message() {
    assert_eq!(BinRow::new(17).unwrap_err(), "size must be at most 16");
    assert_eq!(BinRow::new(255).unwrap_err(), "size must be at most 16");
    assert_eq!(BinRow::new(3).unwrap_err(), "size must be at least 4");
    assert_eq!(BinRow::new(0).unwrap_err(), "size must be at least 4");
    assert_eq!(BinRow::new(5).unwrap_err(), "size must be even");
    assert_eq!(BinRow::new(15).unwrap_err(), "size must be even");
    for size in [4u8, 6, 8, 10, 12, 14, 16] {
        let row = BinRow::new(size).unwrap();
        assert_eq!(row.size, size);
        assert_eq!(row.data, 0);
        assert_eq!(row.count, 0);
    }
}

#[test]
fn positions_out_of_range_are_refused_and_change_nothing() {
    let mut row = BinRow::new(4).unwrap();
    row.set_one(3).unwrap();
    let before = row;
    assert_eq!(row.set_one(4).unwrap_err(), "attempted to set one out of range");
    assert_eq!(row.set_zero(4).unwrap_err(), "attempted to set zero out of range");
    assert_eq!(row.set_bool(9, true).unwrap_err(), "attempted to set one out of range");
    assert_eq!(row.set_bool(9, false).unwrap_err(), "attempted to set zero out of range");
    assert_eq!(row.get(4).unwrap_err(), "attempted to get out of range");
    assert_eq!(row, before);
}

#[test]
fn get_reads_back_what_was_set() {
    let mut row = BinRow::new(16).unwrap();
    row.set_bool(15, true).unwrap();
    row.set_bool(0, true).unwrap();
    row.set_bool(7, true).unwrap();
    row.set_bool(7, false).unwrap();
    assert_eq!(row.data, 0b1000_0000_0000_0001);
    assert_eq!(row.count, 2);
    for position in 0..16u8 {
        assert_eq!(row.get(position).unwrap(), position == 0 || position == 15);
    }
}

#[test]
fn count_moves_only_when_a_bit_changes() {
    let mut row = BinRow::new(6).unwrap();
    row.set_one(2).unwrap();
    row.set_one(2).unwrap();
    assert_eq!(row.count, 1);
    row.set_zero(2).unwrap();
    row.set_zero(2).unwrap();
    assert_eq!(row.count, 0);
    assert_eq!(row.data, 0);
}

fn row_from_bits(size: u8, bits: u16) -> BinRow {
    let mut row = BinRow::new(size).unwrap();
    for position in 0..size {
        if bits & (1 << position) != 0 {
            row.set_one(position).unwrap();
        }
    }
    row
}

fn has_run_of_three(size: u8, bits: u16) -> bool {
    (0..size.saturating_sub(2)).any(|i| (bits >> i) & 0b111 == 0b111)
}

#[test]
fn simple_rule_on_every_line_of_size_4_6_and_8() {
    for size in [4u8, 6, 8] {
        for bits in 0..(1u16 << size) {
            let row = row_from_bits(size, bits);
            assert_eq!(row.count as u32, bits.count_ones());
            let expected = !has_run_of_three(size, bits) && bits.count_ones() <= (size / 2) as u32;
            assert_eq!(row.is_valid_simple(), expected, "size {} bits {:b}", size, bits);
        }
    }
}

#[test]
fn strict_rule_on_every_line_of_size_4_6_and_8() {
    for size in [4u8, 6, 8] {
        let mask = (1u16 << size) - 1;
        for bits in 0..(1u16 << size) {
            let row = row_from_bits(size, bits);
            let simple = !has_run_of_three(size, bits) && bits.count_ones() <= (size / 2) as u32;
            let half = bits.count_ones() == (size / 2) as u32;
            let expected = simple && !(half && has_run_of_three(size, !bits & mask));
            assert_eq!(row.is_valid(), expected, "size {} bits {:b}", size, bits);
        }
    }
}

#[test]
fn strict_rule_looks_at_the_free_half() {
    let row = row_from_bits(6, 0b000111);
    assert!(!row.is_valid_simple());
    let row = row_from_bits(6, 0b100011);
    assert!(row.is_valid_simple());
    assert!(!row.is_valid());
    let row = row_from_bits(6, 0b010011);
    assert!(row.is_valid());
}

#[test]
fn strict_rule_on_the_widest_line() {
    let row = row_from_bits(16, 0b0101_0101_0101_0101);
    assert!(row.is_valid());
    let row = row_from_bits(16, 0b0001_1011_0110_1101);
    assert_eq!(row.count, 9);
    assert!(!row.is_valid());
    let row = row_from_bits(16, 0b0001_0011_0110_1101);
    assert_eq!(row.count, 8);
    assert!(row.is_valid_simple());
    assert!(!row.is_valid());
    let row = row_from_bits(16, 0b1011_0010_0110_1100);
    assert_eq!(row.count, 8);
    assert!(row.is_valid());
    let row = row_from_bits(16, 0b1110_0000_0000_0000);
    assert!(!row.is_valid_simple());
}
