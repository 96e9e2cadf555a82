use bones::io_buffer::IoBuffer;
use bones::io_buffer::IoError;

#[test]
fn get_byte() {
    let input_byte = 0xa5;
    let mut io = IoBuffer::with_io(vec![input_byte], vec![]);

    for bit_offset in 0..8 {
        let got_bit = io.get().expect("a bit");
        let bit = (input_byte & (1 << bit_offset)) > 0;

        assert_eq!(got_bit, bit);
    }
}

#[test]
fn put_byte() {
    let output_byte = 0x5a;
    let mut io = IoBuffer::with_io(vec![], vec![]);

    for bit_offset in 0..8 {
        let gave_bit = (output_byte & (1 << bit_offset)) > 0;
        io.put(gave_bit);
    }

    assert_eq!(output_byte, io.take_output()[0]);
}

#[test]
fn bits_travel_least_significant_first() {
    let mut io = IoBuffer::with_io(vec![0b0000_0001, 0b1000_0000], vec![]);
    let bits: Vec<bool> = (0..16).map(|_| io.get().expect("a bit")).collect();
    let mut expected = vec![false; 16];
    expected[0] = true;
    expected[15] = true;
    assert_eq!(bits, expected);
}

#[test]
fn reading_past_the_input_fails_and_changes_nothing() {
    let mut io = IoBuffer::with_io(vec![], vec![]);
    assert!(!io.has_input(1));
    assert!(io.has_input(0));
    assert_eq!(io.get(), Err(IoError::UnexpectedEof));
    assert_eq!(io.get(), Err(IoError::UnexpectedEof));
    io.feed(0b0000_0010);
    assert!(io.has_input(8));
    assert!(!io.has_input(9));
    assert_eq!(io.get(), Ok(false));
    assert!(io.has_input(7));
    assert!(!io.has_input(8));
    assert_eq!(io.get(), Ok(true));
    for _ in 0..6 {
        assert_eq!(io.get(), Ok(false));
    }
    assert_eq!(io.get(), Err(IoError::UnexpectedEof));
    io.feed(0xff);
    io.feed(0x00);
    assert!(io.has_input(16));
    assert!(!io.has_input(17));
    assert_eq!(io.get(), Ok(true));
    assert!(io.has_input(15));
    assert!(!io.has_input(16));
}

#[test]
fn a_byte_is_emitted_with_the_eighth_bit() {
    let mut io = IoBuffer::with_io(vec![], vec![0x11]);
    for bit in [true, false, true, true, false, false, true] {
        io.put(bit);
    }
    assert_eq!(
        io.written_bits()[8..],
        [true, false, true, true, false, false, true]
    );
    assert_eq!(io.take_output(), vec![0x11]);
    assert_eq!(io.take_output(), Vec::<u8>::new());
    io.put(true);
    assert_eq!(io.take_output(), vec![0b1100_1101]);
    assert!(io.written_bits().is_empty());
    io.put(true);
    assert_eq!(io.written_bits(), vec![true]);
    assert_eq!(io.take_output(), Vec::<u8>::new());
}
