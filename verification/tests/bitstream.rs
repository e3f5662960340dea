use wavpack_rs::bitstream::BitstreamReader;

#[test]
fn read_bits_basic() {
    // 0xA5 = 1010_0101 → LSB-first: bit0=1, bit1=0, bit2=1, bit3=0, bit4=0, bit5=1, ...
    let data = [0xA5u8];
    let mut br = BitstreamReader::new(&data);

    assert_eq!(br.read_bit(), 1); // bit 0
    assert_eq!(br.read_bit(), 0); // bit 1
    assert_eq!(br.read_bits(2), 0b01); // bits 2-3 (bit2=1, bit3=0 → 01 in LSB-first)
    assert_eq!(br.read_bits(4), 0b1010); // bits 4-7
}

#[test]
fn read_bits_multi_byte() {
    // 0xFF, 0x00 = 8 ones, then 8 zeros
    let data = [0xFF, 0x00];
    let mut br = BitstreamReader::new(&data);

    assert_eq!(br.read_bits(8), 0xFF);
    assert_eq!(br.read_bits(8), 0x00);
}

#[test]
fn read_unary_basic() {
    // Bit pattern LSB-first: 1,1,1,0,... → unary = 3
    // Byte: 0b_xxxx_0111 = 0x07 (plus whatever)
    let data = [0x07]; // bits: 1,1,1,0,0,0,0,0
    let mut br = BitstreamReader::new(&data);
    assert_eq!(br.read_unary(), 3);
}

#[test]
fn read_unary_zero() {
    // First bit is 0 → unary = 0
    let data = [0x00];
    let mut br = BitstreamReader::new(&data);
    assert_eq!(br.read_unary(), 0);
}

#[test]
fn read_unary_escape() {
    // 16 consecutive 1-bits → escape
    let data = [0xFF, 0xFF]; // 16 ones
    let mut br = BitstreamReader::new(&data);
    assert_eq!(br.read_unary(), 16);
}

#[test]
fn read_bits_cross_byte() {
    // Read 12 bits spanning 2 bytes
    let data = [0xAB, 0xCD]; // 0xCDAB in 16-bit LE
    let mut br = BitstreamReader::new(&data);
    let val = br.read_bits(12);
    // LSB-first: bottom 12 bits of 0xCDAB = 0xDAB
    assert_eq!(val, 0xDAB);
}

#[test]
fn bits_remaining() {
    let data = [0x00, 0x00, 0x00];
    let mut br = BitstreamReader::new(&data);
    assert_eq!(br.bits_remaining(), 24);
    br.read_bits(5);
    assert_eq!(br.bits_remaining(), 19);
}

#[test]
fn reading_past_the_end_gives_zeros() {
    let data = [0xFF];
    let mut br = BitstreamReader::new(&data);
    assert_eq!(br.read_bits(12), 0xFF);
    assert!(br.is_empty());
    assert_eq!(br.read_bits(32), 0);
    assert_eq!(br.read_bits(0), 0);
    assert_eq!(br.bits_remaining(), 0);
    assert_eq!(br.bit_position(), 8);
}

#[test]
fn read_bits_full_word() {
    let data = [0x78, 0x56, 0x34, 0x12, 0xEF, 0xCD, 0xAB, 0x89, 0x01];
    let mut br = BitstreamReader::new(&data);
    assert_eq!(br.read_bits(32), 0x1234_5678);
    assert_eq!(br.read_bits(32), 0x89AB_CDEF);
    assert_eq!(br.read_bits(8), 0x01);
}

#[test]
fn unary_consumes_its_terminator() {
    // 1,1,1,0,1,0,...
    let data = [0x17];
    let mut br = BitstreamReader::new(&data);
    assert_eq!(br.read_unary(), 3);
    assert_eq!(br.bit_position(), 4);
    assert_eq!(br.read_unary(), 1);
    assert_eq!(br.bit_position(), 6);
}

#[test]
fn unary_stops_at_its_cap() {
    let data = [0xFF; 10];
    let mut br = BitstreamReader::new(&data);
    assert_eq!(br.read_unary(), 33);
    assert_eq!(br.bit_position(), 33);
    assert_eq!(br.read_unary_unlimited(), 47);
    assert_eq!(br.bit_position(), 80);
}

#[test]
fn unary_consumes_the_terminator_behind_its_cap() {
    // 33 ones, then zeros
    let data = [0xFF, 0xFF, 0xFF, 0xFF, 0x01];
    let mut br = BitstreamReader::new(&data);
    assert_eq!(br.read_unary(), 33);
    assert_eq!(br.bit_position(), 34);
    // 32 ones and the end of the data
    let data = [0xFF; 4];
    let mut br = BitstreamReader::new(&data);
    assert_eq!(br.read_unary(), 32);
    assert_eq!(br.bit_position(), 32);
}

#[test]
fn exhausted_stream_stays_exhausted() {
    let data = [0xFF, 0x0F];
    let mut br = BitstreamReader::new(&data);
    assert_eq!(br.bit_position(), 0);
    br.read_bits(20);
    for _ in 0..3 {
        assert!(br.is_empty());
        assert_eq!(br.read_bits(7), 0);
        assert_eq!(br.read_unary(), 0);
        assert_eq!(br.read_unary_unlimited(), 0);
        br.read_egc();
        assert_eq!(br.bit_position(), 16);
        assert_eq!(br.bits_remaining(), 0);
    }
}

#[test]
fn unlimited_unary_counts_past_the_cap() {
    let data = [0xFF, 0xFF, 0xFF, 0xFF, 0xFF, 0x01];
    let mut br = BitstreamReader::new(&data);
    assert_eq!(br.read_unary_unlimited(), 41);
    assert_eq!(br.bit_position(), 42);
}

#[test]
fn egc_adds_up_its_pairs() {
    // Pairs (continue, bit): (1,1) (1,0) (0,1) -> 1 + 2 + 2 + 8
    let data = [0b0010_0111];
    let mut br = BitstreamReader::new(&data);
    assert_eq!(br.read_egc(), 13);
    assert_eq!(br.bit_position(), 6);
}

#[test]
fn position_and_rest_add_up() {
    let data = [0x5A; 12];
    let mut br = BitstreamReader::new(&data);
    let mut n = 0;
    while !br.is_empty() {
        br.read_bits(n % 7);
        assert_eq!(br.bit_position() + br.bits_remaining(), 96);
        n += 1;
    }
}
