//! The lines of authored files.
//!
//! A line holds words divided by white space. In a mesh file `v name x y im`
//! gives a vertex its name, its position and, where the fifth word is there,
//! its inverse mass; `f name name name` gives a triangle the names of its
//! corners. A line without words says nothing. The numbers of a mesh file
//! are left as words: reading them is the caller's part.
//!
//! In a grid file a line is a row of cells: each word is a count, and the
//! cell is filled where the count is not zero. A line without words and a
//! line that starts with `#` are passed over.
use vstd::prelude::*;

verus! {

/// A word of a line: its bytes stand from place `start` up to place `end`.
#[derive(Clone, Copy, Debug, PartialEq, Eq, Structural)]
pub struct Token {
    /// The place of the first byte.
    pub start: usize,
    /// The place behind the last byte.
    pub end: usize,
}

/// What a line says.
#[derive(Clone, Copy, Debug, PartialEq, Eq, Structural)]
pub enum Record {
    /// The line has no word.
    Blank,
    /// A vertex: its name, the two coordinates of its position and, where
    /// given, its inverse mass.
    Vertex { name: Token, x: Token, y: Token, im: Option<Token> },
    /// A triangle: the names of its corners.
    Face { a: Token, b: Token, c: Token },
}

/// Why a line says nothing that can be read.
#[derive(Clone, Copy, Debug, PartialEq, Eq, Structural)]
pub enum LineError {
    /// A vertex line has fewer than four words.
    ShortVertex,
    /// A triangle line has more or fewer than four words.
    FaceArity,
    /// The first word is neither `v` nor `f`.
    UnknownKind(Token),
}

impl View for Token {
    type V = (int, int);

    open spec fn view(&self) -> (int, int) {
        (self.start as int, self.end as int)
    }
}

/// Whether the byte is a white-space character of its own.
pub open spec fn narrow_space(b: u8) -> bool {
    b == 0x20 || (0x09 <= b && b <= 0x0d)
}

/// Whether the two bytes are a white-space character: the next line mark or
/// the no-break space.
pub open spec fn middle_space(a: u8, b: u8) -> bool {
    a == 0xc2 && (b == 0x85 || b == 0xa0)
}

/// Whether the three bytes are a white-space character: the ogham space
/// mark, one of the spaces and separators of general punctuation, or the
/// ideographic space.
pub open spec fn wide_space(a: u8, b: u8, c: u8) -> bool {
    ||| a == 0xe1 && b == 0x9a && c == 0x80
    ||| a == 0xe2 && b == 0x80 && ((0x80 <= c && c <= 0x8a) || c == 0xa8 || c == 0xa9 || c == 0xaf)
    ||| a == 0xe2 && b == 0x81 && c == 0x9f
    ||| a == 0xe3 && b == 0x80 && c == 0x80
}

/// The number of bytes of the white-space character that starts at place
/// `i`; zero where none starts there.
pub open spec fn space_at(line: Seq<u8>, i: int) -> int {
    if i < 0 || i >= line.len() {
        0
    } else if narrow_space(line[i]) {
        1
    } else if i + 1 < line.len() && middle_space(line[i], line[i + 1]) {
        2
    } else if i + 2 < line.len() && wide_space(line[i], line[i + 1], line[i + 2]) {
        3
    } else {
        0
    }
}

/// The words from place `i` on, where `open` is the start of a word that
/// has begun before `i` and has not ended.
pub open spec fn words_from(line: Seq<u8>, i: int, open: Option<int>) -> Seq<(int, int)>
    decreases line.len() - i,
{
    let done = match open {
        Some(start) => seq![(start, i)],
        None => Seq::empty(),
    };
    if i < 0 || i >= line.len() {
        done
    } else if space_at(line, i) > 0 {
        done + words_from(line, i + space_at(line, i), None)
    } else {
        words_from(
            line,
            i + 1,
            Some(
                match open {
                    Some(start) => start,
                    None => i,
                },
            ),
        )
    }
}

/// The words of a line: the longest runs of bytes in which no white-space
/// character starts, in their order.
pub open spec fn words(line: Seq<u8>) -> Seq<(int, int)> {
    words_from(line, 0, None)
}

/// The bytes of a word.
pub open spec fn spelled(line: Seq<u8>, word: (int, int)) -> Seq<u8> {
    line.subrange(word.0, word.1)
}

/// The places of a list of words.
pub open spec fn places(tokens: Seq<Token>) -> Seq<(int, int)> {
    tokens.map_values(|t: Token| t@)
}

/// The words of a line as tokens.
pub open spec fn line_tokens(line: Seq<u8>) -> Seq<Token> {
    words(line).map_values(|w: (int, int)| Token { start: w.0 as usize, end: w.1 as usize })
}

/// What a line says.
pub open spec fn line_record(line: Seq<u8>) -> Result<Record, LineError> {
    record_of(line, line_tokens(line))
}

/// What the words of a line say.
pub open spec fn record_of(line: Seq<u8>, tokens: Seq<Token>) -> Result<Record, LineError> {
    if tokens.len() == 0 {
        Ok(Record::Blank)
    } else if spelled(line, tokens[0]@) == seq![0x76u8] {
        if tokens.len() < 4 {
            Err(LineError::ShortVertex)
        } else {
            Ok(
                Record::Vertex {
                    name: tokens[1],
                    x: tokens[2],
                    y: tokens[3],
                    im: if tokens.len() > 4 {
                        Some(tokens[4])
                    } else {
                        None
                    },
                },
            )
        }
    } else if spelled(line, tokens[0]@) == seq![0x66u8] {
        if tokens.len() != 4 {
            Err(LineError::FaceArity)
        } else {
            Ok(Record::Face { a: tokens[1], b: tokens[2], c: tokens[3] })
        }
    } else {
        Err(LineError::UnknownKind(tokens[0]))
    }
}

/// Every word found from place `i` on lies in the line behind the start of
/// the open word, is not empty, holds no start of a white-space character
/// and ends at the end of the line or before such a character; the words
/// stand in their order and do not touch.
pub proof fn lemma_words_from(line: Seq<u8>, i: int, open: Option<int>)
    requires
        0 <= i <= line.len(),
        open matches Some(start) ==> 0 <= start < i && forall|p: int|
            start <= p < i ==> space_at(line, p) == 0,
    ensures
        forall|w: int|
            0 <= w < words_from(line, i, open).len() ==> {
                let word = #[trigger] words_from(line, i, open)[w];
                &&& 0 <= word.0 < word.1 <= line.len()
                &&& (open matches Some(start) ==> start <= word.0)
                &&& (open is None ==> i <= word.0)
                &&& forall|p: int| word.0 <= p < word.1 ==> space_at(line, p) == 0
                &&& (word.1 == line.len() || space_at(line, word.1) > 0)
            },
        forall|v: int, w: int|
            0 <= v < w < words_from(line, i, open).len() ==> words_from(line, i, open)[v].1
                < words_from(line, i, open)[w].0,
        open is Some ==> words_from(line, i, open).len() > 0 && words_from(line, i, open)[0].0
            == open->0,
    decreases line.len() - i,
{
    let all = words_from(line, i, open);
    let done = match open {
        Some(start) => seq![(start, i)],
        None => Seq::empty(),
    };
    if i >= line.len() {
    } else if space_at(line, i) > 0 {
        let step = space_at(line, i);
        let rest = words_from(line, i + step, None);
        lemma_words_from(line, i + step, None);
        assert(all == done + rest);
        assert forall|w: int| 0 <= w < all.len() implies {
            let word = #[trigger] all[w];
            &&& 0 <= word.0 < word.1 <= line.len()
            &&& (open matches Some(start) ==> start <= word.0)
            &&& (open is None ==> i <= word.0)
            &&& forall|p: int| word.0 <= p < word.1 ==> space_at(line, p) == 0
            &&& (word.1 == line.len() || space_at(line, word.1) > 0)
        } by {
            if w >= done.len() {
                assert(all[w] == rest[w - done.len()]);
            }
        }
        assert forall|v: int, w: int| 0 <= v < w < all.len() implies all[v].1 < all[w].0 by {
            assert(all[w] == rest[w - done.len()]);
            if v >= done.len() {
                assert(all[v] == rest[v - done.len()]);
            }
        }
    } else {
        let start = match open {
            Some(start) => start,
            None => i,
        };
        lemma_words_from(line, i + 1, Some(start));
    }
}

/// The words of a line are not empty, hold no start of a white-space
/// character, end at the end of the line or before such a character, stand
/// in their order and do not touch.
pub proof fn lemma_words(line: Seq<u8>)
    ensures
        forall|w: int|
            0 <= w < words(line).len() ==> {
                let word = #[trigger] words(line)[w];
                &&& 0 <= word.0 < word.1 <= line.len()
                &&& forall|p: int| word.0 <= p < word.1 ==> space_at(line, p) == 0
                &&& (word.1 == line.len() || space_at(line, word.1) > 0)
            },
        forall|v: int, w: int|
            0 <= v < w < words(line).len() ==> words(line)[v].1 < words(line)[w].0,
{
    lemma_words_from(line, 0, None);
}

/// Whether the bytes from place `a` up to place `b` are white-space
/// characters, one behind the other.
pub open spec fn blank(line: Seq<u8>, a: int, b: int) -> bool
    decreases b - a,
{
    if a >= b {
        a == b
    } else if 0 < space_at(line, a) && a + space_at(line, a) <= b {
        blank(line, a + space_at(line, a), b)
    } else {
        false
    }
}

/// Whether the line from place `i` on is the given words with nothing but
/// white space before, between and behind them.
pub open spec fn covered(line: Seq<u8>, i: int, found: Seq<(int, int)>) -> bool
    decreases found.len(),
{
    if found.len() == 0 {
        blank(line, i, line.len() as int)
    } else {
        blank(line, i, found[0].0) && covered(line, found[0].1, found.skip(1))
    }
}

proof fn lemma_words_cover(line: Seq<u8>, i: int, open: Option<int>)
    requires
        0 <= i <= line.len(),
        open matches Some(start) ==> 0 <= start < i && forall|p: int|
            start <= p < i ==> space_at(line, p) == 0,
    ensures
        open is None ==> covered(line, i, words_from(line, i, open)),
        open is Some ==> words_from(line, i, open).len() > 0 && covered(
            line,
            words_from(line, i, open)[0].1,
            words_from(line, i, open).skip(1),
        ),
    decreases line.len() - i,
{
    let all = words_from(line, i, open);
    let done = match open {
        Some(start) => seq![(start, i)],
        None => Seq::empty(),
    };
    if i >= line.len() {
        if open is Some {
            assert(all.skip(1) =~= Seq::<(int, int)>::empty());
        }
    } else if space_at(line, i) > 0 {
        let step = space_at(line, i);
        let rest = words_from(line, i + step, None);
        lemma_words_cover(line, i + step, None);
        lemma_words_from(line, i + step, None);
        assert(all == done + rest);
        assert(covered(line, i, rest)) by {
            if rest.len() > 0 {
                assert(i + step <= rest[0].0);
            }
        }
        if open is Some {
            assert(all.skip(1) =~= rest);
        } else {
            assert(all =~= rest);
        }
    } else {
        let start = match open {
            Some(start) => start,
            None => i,
        };
        lemma_words_cover(line, i + 1, Some(start));
        lemma_words_from(line, i + 1, Some(start));
    }
}

/// The words of a line are all of it but white space: before the first
/// word, between two words and behind the last there are white-space
/// characters and nothing else.
pub proof fn lemma_words_are_all(line: Seq<u8>)
    ensures
        covered(line, 0, words(line)),
{
    lemma_words_cover(line, 0, None);
}

/// The number of bytes of the white-space character that starts at place
/// `i`; zero where none starts there.
pub fn space_len(line: &[u8], i: usize) -> (len: usize)
    ensures
        len == space_at(line@, i as int),
{
    let n = line.len();
    if i >= n {
        return 0;
    }
    let a = line[i];
    if a == 0x20 || (0x09 <= a && a <= 0x0d) {
        return 1;
    }
    if n - i >= 2 {
        let b = line[i + 1];
        if a == 0xc2 && (b == 0x85 || b == 0xa0) {
            return 2;
        }
        if n - i >= 3 {
            let c = line[i + 2];
            if (a == 0xe1 && b == 0x9a && c == 0x80) || (a == 0xe2 && b == 0x80 && ((0x80 <= c && c
                <= 0x8a) || c == 0xa8 || c == 0xa9 || c == 0xaf)) || (a == 0xe2 && b == 0x81 && c
                == 0x9f) || (a == 0xe3 && b == 0x80 && c == 0x80) {
                return 3;
            }
        }
    }
    0
}

/// Divides a line into its words.
pub fn split_line(line: &[u8]) -> (tokens: Vec<Token>)
    ensures
        places(tokens@) == words(line@),
        tokens@ == line_tokens(line@),
{
    let n = line.len();
    let mut tokens: Vec<Token> = Vec::new();
    let mut open: Option<usize> = None;
    let mut i: usize = 0;
    let ghost shown = match open {
        Some(start) => Some(start as int),
        None => None,
    };
    assert(places(tokens@) + words_from(line@, 0, None) =~= words(line@));
    while i < n
        invariant
            i <= n,
            n == line.len(),
            open matches Some(start) ==> start < i,
            places(tokens@) + words_from(
                line@,
                i as int,
                match open {
                    Some(start) => Some(start as int),
                    None => None,
                },
            ) == words(line@),
        decreases n - i,
    {
        let step = space_len(line, i);
        let ghost found = places(tokens@);
        let ghost before = match open {
            Some(start) => Some(start as int),
            None => None,
        };
        if step > 0 {
            match open {
                Some(start) => {
                    tokens.push(Token { start, end: i });
                    proof {
                        assert(places(tokens@) =~= found + seq![(start as int, i as int)]);
                    }
                },
                None => {},
            }
            open = None;
            proof {
                let done = match before {
                    Some(start) => seq![(start, i as int)],
                    None => Seq::empty(),
                };
                assert(words_from(line@, i as int, before) == done + words_from(
                    line@,
                    i + step,
                    None,
                ));
                assert(places(tokens@) =~= found + done);
                assert(places(tokens@) + words_from(line@, i + step, None) =~= found + (done
                    + words_from(line@, i + step, None)));
            }
            i += step;
        } else {
            if open.is_none() {
                open = Some(i);
            }
            i += 1;
        }
    }
    match open {
        Some(start) => {
            let ghost found = places(tokens@);
            tokens.push(Token { start, end: n });
            proof {
                assert(places(tokens@) =~= found + seq![(start as int, n as int)]);
            }
        },
        None => {
            assert(places(tokens@) + Seq::<(int, int)>::empty() =~= places(tokens@));
        },
    }
    proof {
        assert(tokens@ =~= line_tokens(line@)) by {
            assert forall|w: int| 0 <= w < tokens@.len() implies tokens@[w] == line_tokens(
                line@,
            )[w] by {
                assert(places(tokens@)[w] == words(line@)[w]);
            }
        }
    }
    tokens
}

/// Whether the word is the one byte `byte`.
fn is_letter(line: &[u8], word: &Token, byte: u8) -> (same: bool)
    requires
        word.start <= word.end <= line.len(),
    ensures
        same == (spelled(line@, word@) == seq![byte]),
{
    if word.end - word.start == 1 && line[word.start] == byte {
        assert(spelled(line@, word@) =~= seq![byte]);
        true
    } else {
        proof {
            if word.end - word.start == 1 {
                assert(spelled(line@, word@)[0] != byte);
            } else {
                assert(spelled(line@, word@).len() != 1);
            }
        }
        false
    }
}

/// Reads a line: finds its words and what they say.
pub fn read_line(line: &[u8]) -> (res: Result<Record, LineError>)
    ensures
        res == line_record(line@),
{
    let tokens = split_line(line);
    proof {
        lemma_words(line@);
        assert forall|w: int| 0 <= w < tokens@.len() implies (#[trigger] tokens@[w]).start
            < tokens@[w].end && tokens@[w].end <= line.len() by {
            assert(places(tokens@)[w] == words(line@)[w]);
        }
    }
    let n = tokens.len();
    if n == 0 {
        return Ok(Record::Blank);
    }
    let first = tokens[0];
    if is_letter(line, &first, 0x76) {
        if n < 4 {
            Err(LineError::ShortVertex)
        } else {
            Ok(
                Record::Vertex {
                    name: tokens[1],
                    x: tokens[2],
                    y: tokens[3],
                    im: if n > 4 {
                        Some(tokens[4])
                    } else {
                        None
                    },
                },
            )
        }
    } else if is_letter(line, &first, 0x66) {
        if n != 4 {
            Err(LineError::FaceArity)
        } else {
            Ok(Record::Face { a: tokens[1], b: tokens[2], c: tokens[3] })
        }
    } else {
        Err(LineError::UnknownKind(first))
    }
}

/// Whether the byte is a decimal digit.
pub open spec fn is_digit(b: u8) -> bool {
    0x30 <= b && b <= 0x39
}

/// The number that a sequence of digits stands for.
pub open spec fn digits_value(digits: Seq<u8>) -> int
    decreases digits.len(),
{
    if digits.len() == 0 {
        0
    } else {
        digits_value(digits.drop_last()) * 10 + (digits.last() - 0x30)
    }
}

/// The word without the plus sign that may stand before its digits.
pub open spec fn unsigned(word: Seq<u8>) -> Seq<u8> {
    if word.len() > 0 && word[0] == 0x2b {
        word.skip(1)
    } else {
        word
    }
}

/// Whether the word is a count: digits, at least one, behind at most one
/// plus sign, that stand for a number of 32 bits.
pub open spec fn is_count(word: Seq<u8>) -> bool {
    &&& unsigned(word).len() > 0
    &&& forall|i: int| 0 <= i < unsigned(word).len() ==> is_digit(#[trigger] unsigned(word)[i])
    &&& digits_value(unsigned(word)) <= u32::MAX
}

/// Whether the cell of the word is filled; nothing where the word is no count.
pub open spec fn cell_of(word: Seq<u8>) -> Option<bool> {
    if is_count(word) {
        Some(digits_value(unsigned(word)) != 0)
    } else {
        None
    }
}

/// What a line of a grid file says.
#[derive(Debug, PartialEq, Eq)]
pub enum Row {
    /// The line has no word or is a remark.
    Skip,
    /// The cells of the row, one for each word.
    Cells(Vec<bool>),
}

/// Whether the line is passed over: it has no word, or its first word
/// starts with `#`.
pub open spec fn is_skipped(line: Seq<u8>) -> bool {
    words(line).len() == 0 || line[words(line)[0].0] == 0x23
}

/// Whether place `w` holds the first word of the line that is no count.
pub open spec fn first_bad_cell(line: Seq<u8>, w: int) -> bool {
    &&& 0 <= w < words(line).len()
    &&& cell_of(spelled(line, words(line)[w])) is None
    &&& forall|v: int| 0 <= v < w ==> cell_of(spelled(line, #[trigger] words(line)[v])) is Some
}

/// The number of digits grows with every digit, and so does no number shrink.
proof fn lemma_digits_value(digits: Seq<u8>)
    requires
        forall|i: int| 0 <= i < digits.len() ==> is_digit(#[trigger] digits[i]),
    ensures
        0 <= digits_value(digits),
        digits.len() > 0 ==> digits_value(digits.drop_last()) <= digits_value(digits),
    decreases digits.len(),
{
    if digits.len() > 0 {
        let front = digits.drop_last();
        assert forall|i: int| 0 <= i < front.len() implies is_digit(#[trigger] front[i]) by {
            assert(front[i] == digits[i]);
        }
        lemma_digits_value(front);
        assert(is_digit(digits[digits.len() - 1]));
    }
}

/// Reads one cell: whether the count of the word is not zero.
pub fn read_cell(line: &[u8], word: &Token) -> (cell: Option<bool>)
    requires
        word.start <= word.end <= line.len(),
    ensures
        cell == cell_of(spelled(line@, word@)),
{
    let ghost spelling = spelled(line@, word@);
    let ghost digits = unsigned(spelling);
    let mut i: usize = word.start;
    if i < word.end && line[i] == 0x2b {
        i += 1;
    }
    let first = i;
    proof {
        assert(digits =~= line@.subrange(first as int, word.end as int)) by {
            if word.start < word.end {
                assert(spelling[0] == line@[word.start as int]);
            }
        }
    }
    if first == word.end {
        return None;
    }
    let mut value: u64 = 0;
    let mut over = false;
    while i < word.end
        invariant
            first <= i <= word.end <= line.len(),
            digits == unsigned(spelled(line@, word@)),
            digits == line@.subrange(first as int, word.end as int),
            forall|p: int| 0 <= p < i - first ==> is_digit(#[trigger] digits[p]),
            !over ==> value == digits_value(digits.take(i - first)) && value <= 0xffff_ffff,
            over ==> digits_value(digits.take(i - first)) > u32::MAX,
        decreases word.end - i,
    {
        let b = line[i];
        if !(0x30 <= b && b <= 0x39) {
            assert(digits[i - first] == b);
            return None;
        }
        proof {
            let more = digits.take(i - first + 1);
            assert(more.drop_last() =~= digits.take(i - first));
            assert(more.last() == b);
            assert forall|p: int| 0 <= p < more.len() implies is_digit(#[trigger] more[p]) by {
                assert(more[p] == digits[p]);
            }
            lemma_digits_value(more);
        }
        if !over {
            value = value * 10 + (b - 0x30) as u64;
            if value > 0xffff_ffff {
                over = true;
            }
        }
        i += 1;
    }
    proof {
        assert(digits.take(digits.len() as int) =~= digits);
    }
    if over {
        None
    } else {
        Some(value != 0)
    }
}

/// Reads a line of a grid file: the cells of a row, or that the line is
/// passed over, or the first word that is no count.
pub fn read_row(line: &[u8]) -> (res: Result<Row, Token>)
    ensures
        match res {
            Ok(Row::Skip) => is_skipped(line@),
            Ok(Row::Cells(cells)) => {
                &&& !is_skipped(line@)
                &&& cells@.len() == words(line@).len()
                &&& forall|w: int|
                    0 <= w < cells@.len() ==> Some(#[trigger] cells@[w]) == cell_of(
                        spelled(line@, words(line@)[w]),
                    )
            },
            Err(bad) => !is_skipped(line@) && exists|w: int|
                first_bad_cell(line@, w) && bad@ == #[trigger] words(line@)[w],
        },
{
    let tokens = split_line(line);
    proof {
        lemma_words(line@);
        assert forall|w: int| 0 <= w < tokens@.len() implies (#[trigger] tokens@[w]).start
            < tokens@[w].end && tokens@[w].end <= line.len() && tokens@[w]@ == words(line@)[w] by {
            assert(places(tokens@)[w] == words(line@)[w]);
        }
    }
    if tokens.len() == 0 {
        return Ok(Row::Skip);
    }
    if line[tokens[0].start] == 0x23 {
        return Ok(Row::Skip);
    }
    assert(!is_skipped(line@));
    let mut cells: Vec<bool> = Vec::new();
    let mut i: usize = 0;
    while i < tokens.len()
        invariant
            i <= tokens.len(),
            !is_skipped(line@),
            tokens@.len() == words(line@).len(),
            cells@.len() == i,
            forall|w: int|
                0 <= w < tokens@.len() ==> (#[trigger] tokens@[w]).start < tokens@[w].end
                    && tokens@[w].end <= line.len() && tokens@[w]@ == words(line@)[w],
            forall|w: int|
                0 <= w < i ==> Some(#[trigger] cells@[w]) == cell_of(
                    spelled(line@, words(line@)[w]),
                ),
        decreases tokens.len() - i,
    {
        let word = tokens[i];
        match read_cell(line, &word) {
            Some(cell) => {
                cells.push(cell);
            },
            None => {
                proof {
                    assert forall|v: int| 0 <= v < i implies cell_of(
                        spelled(line@, #[trigger] words(line@)[v]),
                    ) is Some by {
                        assert(Some(cells@[v]) == cell_of(spelled(line@, words(line@)[v])));
                    }
                    assert(first_bad_cell(line@, i as int) && word@ == words(line@)[i as int]);
                }
                return Err(word);
            },
        }
        i += 1;
    }
    Ok(Row::Cells(cells))
}

} // verus!
