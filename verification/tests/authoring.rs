use psva4_model::authoring::{
    read_cell, read_line, read_row, space_len, split_line, LineError, Record, Row, Token,
};

fn words_of(line: &str) -> Vec<&str> {
    split_line(line.as_bytes()).iter().map(|t| &line[t.start..t.end]).collect()
}

#[test]
fn every_white_space_character_is_known() {
    let mut buf = [0u8; 4];
    for code in 0..=0x10ffffu32 {
        if let Some(c) = char::from_u32(code) {
            let bytes = c.encode_utf8(&mut buf).as_bytes();
            let expected = if c.is_whitespace() { bytes.len() } else { 0 };
            assert_eq!(space_len(bytes, 0), expected, "U+{:04X}", code);
        }
    }
    assert_eq!(space_len(b"a b", 1), 1);
    assert_eq!(space_len(b"a b", 2), 0);
    assert_eq!(space_len(b"a b", 3), 0);
    assert_eq!(space_len(&[0xe2, 0x80], 0), 0);
    assert_eq!(space_len(&[0xc2], 0), 0);
}

#[test]
fn lines_are_divided_as_by_white_space() {
    let samples = [
        "",
        " ",
        "v a 1 2",
        "  v   a\t1.5  -2e3 \r",
        "f a b c",
        "x",
        "\u{3000}f\u{a0}p\u{2003}q\u{85}r\u{1680}",
        "v \u{e9}t\u{e9} 1 2 0.5 extra words",
        "\u{2028}\u{2029}\u{202f}\u{205f}",
        "a\u{200b}b c",
        "\u{feff}v n 0 0",
    ];
    for line in samples {
        let expected: Vec<&str> = line.split_whitespace().collect();
        assert_eq!(words_of(line), expected, "{:?}", line);
    }
}

#[test]
fn words_are_given_by_their_places() {
    assert_eq!(
        split_line(b" ab  c "),
        vec![Token { start: 1, end: 3 }, Token { start: 5, end: 6 }]
    );
    assert_eq!(split_line(b"ab"), vec![Token { start: 0, end: 2 }]);
    assert_eq!(split_line(b"  "), vec![]);
}

#[test]
fn vertex_lines_are_read() {
    let at = |start: usize, end: usize| Token { start, end };
    assert_eq!(
        read_line(b"v top 1.5 -2"),
        Ok(Record::Vertex { name: at(2, 5), x: at(6, 9), y: at(10, 12), im: None })
    );
    assert_eq!(
        read_line(b"v top 1.5 -2 0.25 rest"),
        Ok(Record::Vertex { name: at(2, 5), x: at(6, 9), y: at(10, 12), im: Some(at(13, 17)) })
    );
    assert_eq!(read_line(b"v top 1.5"), Err(LineError::ShortVertex));
    assert_eq!(read_line(b"v"), Err(LineError::ShortVertex));
}

#[test]
fn face_lines_are_read() {
    let at = |start: usize, end: usize| Token { start, end };
    assert_eq!(
        read_line(b"f a bc d"),
        Ok(Record::Face { a: at(2, 3), b: at(4, 6), c: at(7, 8) })
    );
    assert_eq!(read_line(b"f a b"), Err(LineError::FaceArity));
    assert_eq!(read_line(b"f a b c d"), Err(LineError::FaceArity));
}

#[test]
fn other_lines_are_blank_or_unknown() {
    assert_eq!(read_line(b""), Ok(Record::Blank));
    assert_eq!(read_line(b" \t "), Ok(Record::Blank));
    assert_eq!(read_line(b"# note"), Err(LineError::UnknownKind(Token { start: 0, end: 1 })));
    assert_eq!(read_line(b" vv a 1 2"), Err(LineError::UnknownKind(Token { start: 1, end: 3 })));
    assert_eq!(read_line(b"F a b c"), Err(LineError::UnknownKind(Token { start: 0, end: 1 })));
}

#[test]
fn cells_are_read_as_counts_are() {
    let samples = [
        "0", "1", "00", "0001", "+0", "+7", "4294967295", "4294967296", "+4294967295",
        "99999999999999999999999", "000000000000000000000000000", "0000000000000000000000001",
        "", "+", "-", "-0", "-1", "++1", "1+", "1.0", "0x1", " 1", "1 ", "a", "1a", "12\u{663}",
        "\u{661}", "42949672950", "4294967305",
    ];
    for word in samples {
        let expected = word.parse::<u32>().ok().map(|n| n != 0);
        let token = Token { start: 0, end: word.len() };
        assert_eq!(read_cell(word.as_bytes(), &token), expected, "{:?}", word);
    }
    assert_eq!(read_cell(b"x10y", &Token { start: 1, end: 3 }), Some(true));
    assert_eq!(read_cell(b"x10y", &Token { start: 2, end: 3 }), Some(false));
    assert_eq!(read_cell(b"x10y", &Token { start: 2, end: 2 }), None);
}

#[test]
fn rows_are_read() {
    assert_eq!(read_row(b"1 0 1"), Ok(Row::Cells(vec![true, false, true])));
    assert_eq!(read_row(b"  0\t7 +0 "), Ok(Row::Cells(vec![false, true, false])));
    assert_eq!(read_row(b""), Ok(Row::Skip));
    assert_eq!(read_row(b"   "), Ok(Row::Skip));
    assert_eq!(read_row(b"# 1 0"), Ok(Row::Skip));
    assert_eq!(read_row(b"  #1"), Ok(Row::Skip));
    assert_eq!(read_row(b"1 x 0 y"), Err(Token { start: 2, end: 3 }));
    assert_eq!(read_row(b"1 #"), Err(Token { start: 2, end: 3 }));
    assert_eq!(read_row(b"4294967296"), Err(Token { start: 0, end: 10 }));
}
