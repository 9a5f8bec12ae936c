use larry::error::Lerror;
use larry::store::{Larry, Scanner};

/// Build a store by feeding `bytes` to a scanner in chunks of `chunk` bytes,
/// so terminators may straddle two chunks.
fn build(bytes: &[u8], chunk: usize) -> Larry {
    let mut scanner = Scanner::new();
    let mut i: usize = 0;
    while i < bytes.len() {
        let end = if i + chunk < bytes.len() { i + chunk } else { bytes.len() };
        scanner.feed(&bytes[i..end]);
        i = end;
    }
    scanner.finish()
}

/// Read line `i` the way a caller would: look up its span, hand the span's
/// bytes to `fill` on a cache miss, and take the cached text.
fn read_line(larry: &mut Larry, bytes: &[u8], i: usize) -> Result<String, Lerror> {
    let (start, n) = larry.span(i)?;
    if larry.cached_text(i).is_none() {
        let seg = &bytes[start as usize..(start + n) as usize];
        larry.fill(i, seg)?;
    }
    Ok(larry.cached_text(i).expect("text was just cached").clone())
}

fn check_lines(name: &str, lines: &[&str], chunk: usize) {
    let joined = lines.concat();
    let bytes = joined.as_bytes();
    let mut larry = build(bytes, chunk);
    assert_eq!(lines.len(), larry.len(), "counted lines in {}", name);
    for (i, line) in lines.iter().enumerate() {
        let first = read_line(&mut larry, bytes, i).expect("could not get line");
        assert_eq!(*line, first.as_str(), "line {} of {}", i, name);
        let again = read_line(&mut larry, bytes, i).expect("could not get line again");
        assert_eq!(first, again, "line {} of {} read twice", i, name);
    }
    assert!(
        matches!(larry.span(lines.len() + 1), Err(Lerror::OutOfBounds { .. })),
        "read past end of {}",
        name
    );
}

fn generic_test(name: &str, lines: &[&str]) {
    check_lines(name, lines, 1024);
    // one byte at a time: every terminator pair straddles a chunk boundary
    check_lines(name, lines, 1);
}

#[test]
fn simple_list_of_numbers() {
    let lines = ["1\n", "2\n", "3\n", "4\n", "5\n"];
    generic_test("simple_list_of_numbers", &lines);
}

#[test]
fn offset() {
    let lines = ["1\n", "2\n", "3\n", "4\n", "5\n"];
    let joined = lines.concat();
    let larry = build(joined.as_bytes(), 1024);
    assert_eq!(8, larry.offset(4).unwrap());
}

#[test]
fn no_terminal_endline() {
    let lines = ["1\n", "5"];
    generic_test("no_terminal_endline", &lines);
}

#[test]
fn middle_blank_line() {
    let lines = ["1\n", "\n", "5"];
    generic_test("middle_blank_line", &lines);
}

#[test]
fn initial_blank_line() {
    let lines = ["\n", "5"];
    generic_test("initial_blank_line", &lines);
}

#[test]
fn final_blank_line() {
    let lines = ["1\n", "\n"];
    generic_test("final_blank_line", &lines);
}

#[test]
fn understands_r() {
    let lines = ["\r", "1\r", "\r"];
    generic_test("understands_r", &lines);
}

#[test]
fn understands_rn() {
    let lines = ["\r\n", "1\r\n", "\r\n"];
    generic_test("understands_rn", &lines);
}

#[test]
fn understands_nr() {
    let lines = ["\n\r", "1\n\r", "\n\r"];
    generic_test("understands_nr", &lines);
}

#[test]
fn mixed_line_endings() {
    let lines = [
        "1\n", "2\r", "3\r\n", "4\n\r", "space\r", "\r", "space\n", "\n", "\n\r", "\r\n",
    ];
    generic_test("mixed_line_endings", &lines);
}

#[test]
fn large_file() {
    let lines = std::iter::repeat("these are the times that try men's souls\n")
        .take(50_000)
        .collect::<Vec<&str>>();
    check_lines("large_file", &lines, 4096);
}

#[test]
fn empty_input() {
    let larry = build(b"", 1024);
    assert_eq!(0, larry.len());
    assert_eq!(
        Err(Lerror::OutOfBounds { index: 0, len: 0 }),
        larry.offset(0)
    );
}

#[test]
fn out_of_bounds_carries_index_and_count() {
    let mut larry = build(b"1\n5", 1024);
    assert_eq!(2, larry.len());
    assert_eq!(
        Err(Lerror::OutOfBounds { index: 2, len: 2 }),
        larry.offset(2)
    );
    assert!(matches!(
        larry.span(7),
        Err(Lerror::OutOfBounds { index: 7, len: 2 })
    ));
    assert_eq!(
        Err(Lerror::OutOfBounds { index: 2, len: 2 }),
        larry.fill(2, b"x")
    );
}

#[test]
fn invalid_utf8_is_a_decode_error() {
    let bytes: [u8; 3] = [0xff, 0xfe, 0x0a];
    let mut larry = build(&bytes, 1024);
    assert_eq!(1, larry.len());
    let (start, n) = larry.span(0).unwrap();
    assert_eq!((0, 3), (start, n));
    assert_eq!(Err(Lerror::Decode { index: 0 }), larry.fill(0, &bytes));
    assert!(larry.cached_text(0).is_none());
}

#[test]
fn offsets_and_spans() {
    // "1\n" "2\r" "3\r\n" "4\n\r" "5"
    let bytes = b"1\n2\r3\r\n4\n\r5";
    let larry = build(bytes, 1024);
    assert_eq!(5, larry.len());
    assert_eq!(0, larry.offset(0).unwrap());
    assert_eq!(2, larry.offset(1).unwrap());
    assert_eq!(4, larry.offset(2).unwrap());
    assert_eq!(7, larry.offset(3).unwrap());
    assert_eq!(10, larry.offset(4).unwrap());
    assert_eq!((4, 3), larry.span(2).unwrap());
    assert_eq!((10, 1), larry.span(4).unwrap());
}

#[test]
fn offsets_strictly_increase() {
    let bytes = b"\r\n\n\r\r\ralpha\nbeta\r";
    let larry = build(bytes, 1);
    let mut i: usize = 0;
    while i + 1 < larry.len() {
        assert!(larry.offset(i).unwrap() < larry.offset(i + 1).unwrap());
        i += 1;
    }
}

#[test]
fn cached_text_is_never_replaced() {
    let mut larry = build(b"ab\ncd", 1024);
    larry.fill(0, b"ab\n").unwrap();
    assert_eq!("ab\n", larry.cached_text(0).unwrap().as_str());
    larry.fill(0, b"zz\n").unwrap();
    assert_eq!("ab\n", larry.cached_text(0).unwrap().as_str());
}

#[test]
fn multibyte_text_round_trips() {
    let lines = ["héllo\n", "wörld — ≤∞\r\n", "końcówka"];
    generic_test("multibyte_text_round_trips", &lines);
}
