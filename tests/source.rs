use goldparser::source::SourceReader;

const SRC_TEST: &str = "LDI R0,23\nLDI R1,10\nMOV R0, R1";

#[test]
fn look() {
    let mut src = SourceReader::new(String::from(SRC_TEST));
    println!("{SRC_TEST}");
    println!("{}", src.to_string());
    let fifth = src.peek(5);
    println!("src[5] = '{:?}'", fifth);
    println!("src[3] = '{:?}'", src.peek(3));
    println!("lookahead: 3 = {:?}", src.lookahead(3));
    println!("bufpos: {}", src.get_abs_pos());
    assert_eq!(fifth, Some('R'));
    assert_eq!(src.peek(5), Some('2'));
    assert_eq!(src.lookahead(3), Some('I'));
    assert_eq!(src.get_abs_pos(), 3);
}

#[test]
fn read() {
    let mut src = SourceReader::new(String::from(SRC_TEST));
    let mut count = 0;
    loop {
        match src.read() {
            Some((idx, ch)) => {
                println!("{idx}:{ch} ");
                assert_eq!(idx, count);
                count += 1;
            },
            None => break,
        }
    }
    assert_eq!(count, SRC_TEST.chars().count());
}

#[test]
fn consume_tracks_lines_and_columns() {
    let mut src = SourceReader::new(String::from("ab\ncd\r\nef\rg"));
    assert_eq!((src.line(), src.col()), (1, 1));
    assert_eq!(src.lookahead(11), Some('g'));
    src.consume_buf(2);
    assert_eq!((src.line(), src.col()), (1, 3));
    src.consume_buf(1);
    assert_eq!((src.line(), src.col()), (2, 1));
    src.consume_buf(4);
    assert_eq!((src.line(), src.col()), (3, 1));
    src.consume_buf(3);
    assert_eq!((src.line(), src.col()), (4, 1));
    assert_eq!(src.get_buf_slice_to(1), "g");
    assert_eq!(src.lookahead(2), None);
}

#[test]
fn consume_out_of_range_does_nothing() {
    let mut src = SourceReader::new(String::from("xyz"));
    src.lookahead(1);
    src.consume_buf(2);
    assert_eq!(src.get_buf_len(), 1);
    assert_eq!((src.line(), src.col()), (1, 1));
    src.consume_buf(0);
    assert_eq!(src.get_buf_len(), 1);
}

#[test]
fn load_and_clear() {
    let mut src = SourceReader::new(String::from("abc"));
    src.lookahead(2);
    src.consume_buf(2);
    src.load(String::from("hello"));
    assert_eq!(src.len(), 5);
    assert_eq!((src.line(), src.col()), (1, 1));
    assert_eq!(src.lookahead(1), Some('h'));
    src.clear();
    assert_eq!(src.len(), 0);
    assert_eq!(src.lookahead(1), None);
}

#[test]
fn crlf_breaks_the_line_at_the_newline() {
    let mut src = SourceReader::new(String::from("a\r\nb\rc"));
    assert_eq!(src.lookahead(6), Some('c'));
    src.consume_buf(2);
    assert_eq!((src.line(), src.col()), (1, 3));
    src.consume_buf(1);
    assert_eq!((src.line(), src.col()), (2, 1));
    src.consume_buf(2);
    assert_eq!((src.line(), src.col()), (3, 1));
}
