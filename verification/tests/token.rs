use procon_lib::token::{
    has_next_ascii, is_whitespace, read_ascii_from, read_token_from, token_step, ByteReader, TokenStep,
};

#[test]
fn io_read_token() {
    let mut read = ByteReader::new(b"123 abcdef  \tghi\r\n".to_vec());
    assert_eq!(read_token_from(&mut read), "123");
    assert_eq!(read_token_from(&mut read), "abcdef");
    assert_eq!(read_token_from(&mut read), "ghi");
}

#[test]
fn io_read_ascii() {
    let mut read = ByteReader::new("hello \t w orld".as_bytes().to_vec());
    assert_eq!(read_ascii_from(&mut read), 'h');
    assert_eq!(read_ascii_from(&mut read), 'e');
    assert_eq!(read_ascii_from(&mut read), 'l');
    assert_eq!(read_ascii_from(&mut read), 'l');
    assert_eq!(read_ascii_from(&mut read), 'o');
    assert_eq!(read_ascii_from(&mut read), 'w');
    assert_eq!(read_ascii_from(&mut read), 'o');
    assert_eq!(read_ascii_from(&mut read), 'r');
    assert_eq!(read_ascii_from(&mut read), 'l');
    assert_eq!(read_ascii_from(&mut read), 'd');
}

#[test]
fn stdin_read_token() {
    let mut read = ByteReader::new(b"123 abcdef  \tghi\r\n".to_vec());
    assert_eq!(read_token_from(&mut read), "123");
    assert_eq!(read_token_from(&mut read), "abcdef");
    assert_eq!(read_token_from(&mut read), "ghi");
}

#[test]
fn stdin_read_ascii() {
    let mut read = ByteReader::new("hello \t w orld".as_bytes().to_vec());
    assert_eq!(read_ascii_from(&mut read), 'h');
    assert_eq!(read_ascii_from(&mut read), 'e');
    assert_eq!(read_ascii_from(&mut read), 'l');
    assert_eq!(read_ascii_from(&mut read), 'l');
    assert_eq!(read_ascii_from(&mut read), 'o');
    assert_eq!(read_ascii_from(&mut read), 'w');
    assert_eq!(read_ascii_from(&mut read), 'o');
    assert_eq!(read_ascii_from(&mut read), 'r');
    assert_eq!(read_ascii_from(&mut read), 'l');
    assert_eq!(read_ascii_from(&mut read), 'd');
}

#[test]
fn tokens_and_characters_in_turn() {
    let mut read = ByteReader::new(b"123 4  56\r\n789".to_vec());
    assert_eq!(read_token_from(&mut read), "123");
    assert_eq!(read_ascii_from(&mut read), '4');
    assert_eq!(read_ascii_from(&mut read), '5');
    assert_eq!(read_token_from(&mut read), "6");
    assert_eq!(read_ascii_from(&mut read), '7');
    assert_eq!(read_token_from(&mut read), "89");
    assert_eq!(read.remaining(), 0);
}

#[test]
fn tokens_of_several_lines() {
    let mut read = ByteReader::new(b"123   423\r\n-234 hello\n43 42\n".to_vec());
    assert_eq!(read_token_from(&mut read), "123");
    assert_eq!(read_token_from(&mut read), "423");
    assert_eq!(read_token_from(&mut read), "-234");
    assert_eq!(read_token_from(&mut read), "hello");
    assert_eq!(read_token_from(&mut read), "43");
    assert_eq!(read_token_from(&mut read), "42");
    assert_eq!(read_token_from(&mut read), "");
    assert_eq!(read_token_from(&mut read), "");
}

#[test]
fn the_byte_after_a_token_is_taken_too() {
    let mut read = ByteReader::new(b"ab  cd".to_vec());
    assert_eq!(read.remaining(), 6);
    assert_eq!(read_token_from(&mut read), "ab");
    assert_eq!(read.remaining(), 3);
    assert_eq!(read_token_from(&mut read), "cd");
    assert_eq!(read.remaining(), 0);
}

#[test]
fn bytes_are_read_as_characters() {
    let mut read = ByteReader::new(vec![0xE9, 0x41, 0xA0, 0xFF, 0x85, 0x7A]);
    assert_eq!(read_token_from(&mut read), "\u{e9}A");
    assert_eq!(read_token_from(&mut read), "\u{ff}");
    assert!(has_next_ascii(&read));
    assert_eq!(read_ascii_from(&mut read), 'z');
    assert!(!has_next_ascii(&read));
}

#[test]
fn whitespace_is_that_of_characters() {
    for b in 0..=255u8 {
        assert_eq!(is_whitespace(b), (b as char).is_whitespace());
    }
}

#[test]
fn steps_of_a_token() {
    assert_eq!(token_step(false, b' '), TokenStep::Skip);
    assert_eq!(token_step(false, b'x'), TokenStep::Take('x'));
    assert_eq!(token_step(true, b'x'), TokenStep::Take('x'));
    assert_eq!(token_step(true, b'\n'), TokenStep::Stop);
    assert_eq!(token_step(true, 0xE9), TokenStep::Take('\u{e9}'));
}

#[test]
fn nothing_to_read() {
    let mut read = ByteReader::new(Vec::new());
    assert!(!has_next_ascii(&read));
    assert_eq!(read_token_from(&mut read), "");
    let mut read = ByteReader::new(b" \t\n".to_vec());
    assert!(!has_next_ascii(&read));
    assert_eq!(read_token_from(&mut read), "");
    assert_eq!(read.remaining(), 0);
}
