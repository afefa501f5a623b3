use vstd::prelude::*;
use crate::error::{ParseError, PuzzleError};
use crate::npuzzle::{NPuzzle, tiles_error};

verus! {

/// The line feed, which ends a line.
pub const NEWLINE: u8 = 10;

/// The `#`, which opens a comment.
pub const HASH: u8 = 35;

/// The `+`, which may stand before a number.
pub const PLUS: u8 = 43;

/// The digit `0`.
pub const ZERO: u8 = 48;

/// The digit `9`.
pub const NINE: u8 = 57;

/// The bytes that separate words: space, tab, line feed, vertical tab, form
/// feed and carriage return.
pub open spec fn is_space(c: u8) -> bool {
    c == 32 || (9 <= c && c <= 13)
}

/// The decimal digits.
pub open spec fn is_digit(c: u8) -> bool {
    ZERO <= c && c <= NINE
}

/// The first index in `from..hi` that holds `stop`, or `hi`.
pub open spec fn find_byte(text: Seq<u8>, stop: u8, from: int, hi: int) -> int
    decreases hi - from,
{
    if from >= hi {
        hi
    } else if text[from] == stop {
        from
    } else {
        find_byte(text, stop, from + 1, hi)
    }
}

/// Where the line that starts at `from` ends: at the next line feed or at the
/// end of the text.
pub open spec fn line_end(text: Seq<u8>, from: int) -> int {
    find_byte(text, NEWLINE, from, text.len() as int)
}

/// Where the data of the line `from..end` ends: at the `#` that opens a
/// comment, or at the end of the line.
pub open spec fn data_end(text: Seq<u8>, from: int, end: int) -> int {
    find_byte(text, HASH, from, end)
}

/// The first index in `from..hi` that holds no space, or `hi`.
pub open spec fn skip_spaces(text: Seq<u8>, from: int, hi: int) -> int
    decreases hi - from,
{
    if from >= hi {
        hi
    } else if !is_space(text[from]) {
        from
    } else {
        skip_spaces(text, from + 1, hi)
    }
}

/// The first index in `from..hi` that holds a space, or `hi`.
pub open spec fn word_end(text: Seq<u8>, from: int, hi: int) -> int
    decreases hi - from,
{
    if from >= hi {
        hi
    } else if is_space(text[from]) {
        from
    } else {
        word_end(text, from + 1, hi)
    }
}

/// The value of a run of decimal digits; `None` for the empty run and for one
/// that holds anything but digits.
pub open spec fn decimal(word: Seq<u8>) -> Option<int>
    decreases word.len(),
{
    if word.len() == 0 || !is_digit(word.last()) {
        None
    } else if word.len() == 1 {
        Some(word.last() - ZERO)
    } else {
        match decimal(word.drop_last()) {
            Some(v) => Some(v * 10 + (word.last() - ZERO)),
            None => None,
        }
    }
}

/// The number that a word stands for: decimal digits, a `+` before them or
/// not, with a value that fits in a byte.
pub open spec fn number(word: Seq<u8>) -> Option<u8> {
    let digits = if word.len() > 0 && word[0] == PLUS {
        word.skip(1)
    } else {
        word
    };
    match decimal(digits) {
        Some(v) => if v <= 255 {
            Some(v as u8)
        } else {
            None
        },
        None => None,
    }
}

/// The numbers that the words in `from..hi` stand for, or `None` where a word
/// stands for none.
pub open spec fn row_values(text: Seq<u8>, from: int, hi: int) -> Option<Seq<u8>>
    decreases hi - from,
{
    let start = skip_spaces(text, from, hi);
    if start >= hi {
        Some(Seq::empty())
    } else {
        let end = word_end(text, start + 1, hi);
        proof {
            lemma_skip_spaces(text, from, hi);
            lemma_word_end(text, start + 1, hi);
        }
        match number(text.subrange(start, end)) {
            None => None,
            Some(v) => match row_values(text, end, hi) {
                Some(rest) => Some(seq![v] + rest),
                None => None,
            },
        }
    }
}

/// The rows in the lines from `from` on: a line that holds a comment and no
/// word is passed over; every other line gives a row of `size` numbers.
pub open spec fn rows(text: Seq<u8>, from: int, size: u8) -> Result<Seq<u8>, ParseError>
    decreases text.len() + 1 - from,
{
    if from >= text.len() {
        Ok(Seq::empty())
    } else {
        let end = line_end(text, from);
        let data = data_end(text, from, end);
        proof {
            lemma_find_byte(text, NEWLINE, from, text.len() as int);
        }
        if skip_spaces(text, from, data) >= data && data < end {
            rows(text, end + 1, size)
        } else {
            match row_values(text, from, data) {
                None => Err(ParseError::InvalidToken),
                Some(values) => if values.len() != size {
                    Err(ParseError::RowLength)
                } else {
                    match rows(text, end + 1, size) {
                        Ok(rest) => Ok(values + rest),
                        Err(e) => Err(e),
                    }
                },
            }
        }
    }
}

/// The side and the tiles that the lines from `from` on describe: the first
/// word of the first line that holds one is the side, the lines after it
/// hold the rows.
pub open spec fn document(text: Seq<u8>, from: int) -> Result<(u8, Seq<u8>), ParseError>
    decreases text.len() + 1 - from,
{
    if from >= text.len() {
        Err(ParseError::MissingSize)
    } else {
        let end = line_end(text, from);
        let data = data_end(text, from, end);
        let start = skip_spaces(text, from, data);
        proof {
            lemma_find_byte(text, NEWLINE, from, text.len() as int);
        }
        if start >= data {
            document(text, end + 1)
        } else {
            match number(text.subrange(start, word_end(text, start + 1, data))) {
                None => Err(ParseError::InvalidToken),
                Some(size) => match rows(text, end + 1, size) {
                    Ok(cells) => Ok((size, cells)),
                    Err(e) => Err(e),
                },
            }
        }
    }
}

/// What a text describes: a board, or the first thing that is wrong with it.
pub open spec fn parsed(text: Seq<u8>) -> Result<(u8, Seq<u8>), ParseError> {
    match document(text, 0) {
        Ok((size, cells)) => match tiles_error(size as int, cells) {
            Some(e) => Err(e),
            None => Ok((size, cells)),
        },
        Err(e) => Err(e),
    }
}

/// The byte that is looked for is found within the range, or the end of the
/// range is.
pub proof fn lemma_find_byte(text: Seq<u8>, stop: u8, from: int, hi: int)
    requires
        from <= hi,
    ensures
        from <= find_byte(text, stop, from, hi) <= hi,
        find_byte(text, stop, from, hi) < hi ==> text[find_byte(text, stop, from, hi)] == stop,
    decreases hi - from,
{
    if from < hi && text[from] != stop {
        lemma_find_byte(text, stop, from + 1, hi);
    }
}

/// Passing over spaces ends within the range, on a byte that is no space or
/// at the end of the range.
pub proof fn lemma_skip_spaces(text: Seq<u8>, from: int, hi: int)
    requires
        from <= hi,
    ensures
        from <= skip_spaces(text, from, hi) <= hi,
        skip_spaces(text, from, hi) < hi ==> !is_space(text[skip_spaces(text, from, hi)]),
    decreases hi - from,
{
    if from < hi && is_space(text[from]) {
        lemma_skip_spaces(text, from + 1, hi);
    }
}

/// A word ends within the range.
pub proof fn lemma_word_end(text: Seq<u8>, from: int, hi: int)
    requires
        from <= hi,
    ensures
        from <= word_end(text, from, hi) <= hi,
    decreases hi - from,
{
    if from < hi && !is_space(text[from]) {
        lemma_word_end(text, from + 1, hi);
    }
}

fn scan_byte(text: &[u8], stop: u8, from: usize, hi: usize) -> (r: usize)
    requires
        from <= hi <= text.len(),
    ensures
        r == find_byte(text@, stop, from as int, hi as int),
        from <= r <= hi,
{
    let mut i = from;
    while i < hi && text[i] != stop
        invariant
            from <= i <= hi <= text.len(),
            find_byte(text@, stop, from as int, hi as int) == find_byte(
                text@,
                stop,
                i as int,
                hi as int,
            ),
        decreases hi - i,
    {
        i += 1;
    }
    i
}

fn byte_is_space(c: u8) -> (r: bool)
    ensures
        r == is_space(c),
{
    c == 32 || (9 <= c && c <= 13)
}

fn scan_spaces(text: &[u8], from: usize, hi: usize) -> (r: usize)
    requires
        from <= hi <= text.len(),
    ensures
        r == skip_spaces(text@, from as int, hi as int),
        from <= r <= hi,
{
    let mut i = from;
    while i < hi && byte_is_space(text[i])
        invariant
            from <= i <= hi <= text.len(),
            skip_spaces(text@, from as int, hi as int) == skip_spaces(text@, i as int, hi as int),
        decreases hi - i,
    {
        i += 1;
    }
    i
}

fn scan_word(text: &[u8], from: usize, hi: usize) -> (r: usize)
    requires
        from <= hi <= text.len(),
    ensures
        r == word_end(text@, from as int, hi as int),
        from <= r <= hi,
{
    let mut i = from;
    while i < hi && !byte_is_space(text[i])
        invariant
            from <= i <= hi <= text.len(),
            word_end(text@, from as int, hi as int) == word_end(text@, i as int, hi as int),
        decreases hi - i,
    {
        i += 1;
    }
    i
}

/// The number that the word in `from..hi` stands for.
#[verifier::loop_isolation(false)]
fn parse_number(text: &[u8], from: usize, hi: usize) -> (r: Option<u8>)
    requires
        from <= hi <= text.len(),
    ensures
        r == number(text@.subrange(from as int, hi as int)),
{
    let ghost word = text@.subrange(from as int, hi as int);
    let first = if from < hi && text[from] == PLUS {
        from + 1
    } else {
        from
    };
    let ghost digits = text@.subrange(first as int, hi as int);
    proof {
        if first > from {
            assert(word[0] == PLUS);
            assert(digits =~= word.skip(1));
        } else {
            assert(digits =~= word);
        }
    }
    if first == hi {
        assert(digits.len() == 0);
        return None;
    }
    let mut value: u32 = 0;
    let mut i = first;
    while i < hi
        invariant
            first <= i <= hi <= text.len(),
            first < hi,
            digits == text@.subrange(first as int, hi as int),
            value <= 256,
            i > first ==> decimal(digits.take(i - first)) is Some,
            i > first ==> value == if decimal(digits.take(i - first)).unwrap() > 255 {
                256
            } else {
                decimal(digits.take(i - first)).unwrap()
            },
            i == first ==> value == 0,
        decreases hi - i,
    {
        let c = text[i];
        proof {
            let prefix = digits.take(i + 1 - first);
            assert(prefix.last() == c);
            assert(prefix.drop_last() =~= digits.take(i - first));
            if !is_digit(c) {
                lemma_decimal_prefix(digits, i + 1 - first);
            }
        }
        if c < ZERO || c > NINE {
            return None;
        }
        value = value * 10 + (c - ZERO) as u32;
        if value > 256 {
            value = 256;
        }
        i += 1;
    }
    proof {
        assert(digits.take(hi - first) =~= digits);
    }
    if value > 255 {
        None
    } else {
        Some(value as u8)
    }
}

/// A run with a prefix that is no number is no number.
proof fn lemma_decimal_prefix(word: Seq<u8>, k: int)
    requires
        0 < k <= word.len(),
        decimal(word.take(k)) is None,
    ensures
        decimal(word) is None,
    decreases word.len(),
{
    if k < word.len() {
        assert(word.drop_last().take(k) =~= word.take(k));
        lemma_decimal_prefix(word.drop_last(), k);
    } else {
        assert(word.take(k) =~= word);
    }
}

/// Reads the numbers of the words in `from..hi` onto the end of `board`;
/// returns how many there were.
fn parse_row(text: &[u8], from: usize, hi: usize, board: &mut Vec<u8>) -> (r: Option<usize>)
    requires
        from <= hi <= text.len(),
    ensures
        match r {
            Some(count) => row_values(text@, from as int, hi as int) matches Some(values)
                && values.len() == count && final(board)@ == old(board)@ + values,
            None => row_values(text@, from as int, hi as int) is None,
        },
{
    let mut count: usize = 0;
    let mut i = from;
    let ghost mut read: Seq<u8> = Seq::empty();
    proof {
        assert(board@ =~= old(board)@ + read);
    }
    loop
        invariant
            from <= i <= hi <= text.len(),
            count == read.len(),
            count <= i - from,
            board@ == old(board)@ + read,
            row_values(text@, from as int, hi as int) == match row_values(
                text@,
                i as int,
                hi as int,
            ) {
                Some(rest) => Some(read + rest),
                None => None,
            },
        decreases hi - i,
    {
        let start = scan_spaces(text, i, hi);
        if start >= hi {
            proof {
                assert(read + Seq::<u8>::empty() =~= read);
            }
            return Some(count);
        }
        let end = scan_word(text, start + 1, hi);
        let value = match parse_number(text, start, end) {
            Some(value) => value,
            None => {
                return None;
            },
        };
        proof {
            let rest = row_values(text@, end as int, hi as int);
            if let Some(rest) = rest {
                assert(read + (seq![value] + rest) =~= read.push(value) + rest);
            }
            assert(board@.push(value) =~= old(board)@ + read.push(value));
            read = read.push(value);
        }
        board.push(value);
        count += 1;
        i = end;
    }
}

impl NPuzzle {
    /// Reads a board from a text: the side on the first line that holds a
    /// word, then one line for each row, with `#` opening a comment that
    /// runs to the end of its line.
    #[verifier::loop_isolation(false)]
    pub fn parse(text: &[u8]) -> (r: Result<NPuzzle, PuzzleError>)
        ensures
            match r {
                Ok(npuzzle) => npuzzle.well_formed() && parsed(text@) == Ok::<
                    (u8, Seq<u8>),
                    ParseError,
                >((npuzzle.size, npuzzle.board@)),
                Err(PuzzleError::Parse(e)) => parsed(text@) == Err::<(u8, Seq<u8>), ParseError>(e),
                Err(_) => false,
            },
    {
        let len = text.len();
        let mut pos: usize = 0;
        let mut size: u8 = 0;
        let mut found = false;
        while pos < len && !found
            invariant
                len == text.len(),
                pos <= len,
                !found ==> document(text@, 0) == document(text@, pos as int),
                found ==> document(text@, 0) == match rows(text@, pos as int, size) {
                    Ok(cells) => Ok::<(u8, Seq<u8>), ParseError>((size, cells)),
                    Err(e) => Err(e),
                },
            decreases len - pos,
        {
            let end = scan_byte(text, NEWLINE, pos, len);
            let data = scan_byte(text, HASH, pos, end);
            let start = scan_spaces(text, pos, data);
            if start < data {
                let word = scan_word(text, start + 1, data);
                match parse_number(text, start, word) {
                    Some(value) => {
                        size = value;
                        found = true;
                    },
                    None => {
                        return Err(PuzzleError::Parse(ParseError::InvalidToken));
                    },
                }
            }
            proof {
                let missing = Err::<(u8, Seq<u8>), ParseError>(ParseError::MissingSize);
                assert(document(text@, len as int) == missing);
                assert(document(text@, len + 1) == missing);
                assert(rows(text@, len as int, size) == rows(text@, len + 1, size));
            }
            pos = if end < len {
                end + 1
            } else {
                len
            };
        }
        if !found {
            return Err(PuzzleError::Parse(ParseError::MissingSize));
        }
        let mut board: Vec<u8> = Vec::new();
        let ghost all = rows(text@, pos as int, size);
        proof {
            assert(Seq::<u8>::empty() + Seq::<u8>::empty() =~= Seq::<u8>::empty());
        }
        while pos < len
            invariant
                len == text.len(),
                pos <= len,
                all == match rows(text@, pos as int, size) {
                    Ok(rest) => Ok::<Seq<u8>, ParseError>(board@ + rest),
                    Err(e) => Err(e),
                },
            decreases len - pos,
        {
            let end = scan_byte(text, NEWLINE, pos, len);
            let data = scan_byte(text, HASH, pos, end);
            let start = scan_spaces(text, pos, data);
            if start < data || data == end {
                let ghost before = board@;
                match parse_row(text, pos, data, &mut board) {
                    None => {
                        return Err(PuzzleError::Parse(ParseError::InvalidToken));
                    },
                    Some(count) => {
                        if count != size as usize {
                            return Err(PuzzleError::Parse(ParseError::RowLength));
                        }
                        proof {
                            let values = row_values(text@, pos as int, data as int).unwrap();
                            if let Ok(rest) = rows(text@, end + 1, size) {
                                assert(before + (values + rest) =~= board@ + rest);
                            }
                        }
                    },
                }
            }
            pos = if end < len {
                end + 1
            } else {
                len
            };
        }
        proof {
            assert(board@ + Seq::<u8>::empty() =~= board@);
        }
        match NPuzzle::from_tiles(size, board) {
            Ok(npuzzle) => Ok(npuzzle),
            Err(e) => Err(PuzzleError::Parse(e)),
        }
    }
}

} // verus!
