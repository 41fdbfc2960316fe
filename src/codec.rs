use vstd::prelude::*;
use vstd::utf8::{char_is_scalar, encode_scalar, encode_utf8};

verus! {

/// Number of bytes that `c` occupies in UTF-8.
pub open spec fn utf8_width(c: char) -> nat {
    if (c as u32) < 0x80 {
        1
    } else if (c as u32) < 0x800 {
        2
    } else if (c as u32) < 0x10000 {
        3
    } else {
        4
    }
}

/// Number of UTF-16 code units that `c` occupies (two for a surrogate pair).
pub open spec fn utf16_width(c: char) -> nat {
    if (c as u32) < 0x10000 {
        1
    } else {
        2
    }
}

/// Length of `s` in UTF-8 bytes.
pub open spec fn utf8_len(s: Seq<char>) -> nat
    decreases s.len(),
{
    if s.len() == 0 {
        0
    } else {
        utf8_len(s.drop_last()) + utf8_width(s.last())
    }
}

/// Length of `s` in UTF-16 code units.
pub open spec fn utf16_len(s: Seq<char>) -> nat
    decreases s.len(),
{
    if s.len() == 0 {
        0
    } else {
        utf16_len(s.drop_last()) + utf16_width(s.last())
    }
}

/// The byte offset, within `line`, of the UTF-16 column `character`: the
/// UTF-8 length of the prefix whose UTF-16 length is `character`, if such a
/// prefix exists (it is then unique).
pub open spec fn column_offset(line: Seq<char>, character: nat) -> Option<nat> {
    if exists|k: int| 0 <= k <= line.len() && #[trigger] utf16_len(line.take(k)) == character {
        let k = choose|k: int| 0 <= k <= line.len() && #[trigger] utf16_len(line.take(k)) == character;
        Some(utf8_len(line.take(k)))
    } else {
        None
    }
}

/// The UTF-16 column of the byte offset `offset` within `line`, if `offset`
/// falls on a character boundary of the line.
pub open spec fn offset_column(line: Seq<char>, offset: nat) -> Option<nat> {
    if exists|k: int| 0 <= k <= line.len() && #[trigger] utf8_len(line.take(k)) == offset {
        let k = choose|k: int| 0 <= k <= line.len() && #[trigger] utf8_len(line.take(k)) == offset;
        Some(utf16_len(line.take(k)))
    } else {
        None
    }
}

/// Extending a prefix by one character adds that character's widths.
pub proof fn lemma_prefix_step(s: Seq<char>, i: int)
    requires
        0 <= i < s.len(),
    ensures
        utf8_len(s.take(i + 1)) == utf8_len(s.take(i)) + utf8_width(s[i]),
        utf16_len(s.take(i + 1)) == utf16_len(s.take(i)) + utf16_width(s[i]),
{
    assert(s.take(i + 1).drop_last() =~= s.take(i));
}

/// Longer prefixes are strictly longer in both encodings.
pub proof fn lemma_prefix_strictly_grows(s: Seq<char>, a: int, b: int)
    requires
        0 <= a < b <= s.len(),
    ensures
        utf8_len(s.take(a)) < utf8_len(s.take(b)),
        utf16_len(s.take(a)) < utf16_len(s.take(b)),
    decreases b - a,
{
    lemma_prefix_step(s, b - 1);
    if a < b - 1 {
        lemma_prefix_strictly_grows(s, a, b - 1);
    }
}

/// A prefix length in either encoding identifies the prefix.
pub proof fn lemma_prefix_injective(s: Seq<char>, a: int, b: int)
    requires
        0 <= a <= s.len(),
        0 <= b <= s.len(),
        utf8_len(s.take(a)) == utf8_len(s.take(b)) || utf16_len(s.take(a)) == utf16_len(
            s.take(b),
        ),
    ensures
        a == b,
{
    if a < b {
        lemma_prefix_strictly_grows(s, a, b);
    } else if b < a {
        lemma_prefix_strictly_grows(s, b, a);
    }
}

/// The UTF-8 length decomposes from the front as well.
pub proof fn lemma_utf8_len_front(s: Seq<char>)
    requires
        s.len() > 0,
    ensures
        utf8_len(s) == utf8_width(s[0]) + utf8_len(s.drop_first()),
        utf16_len(s) == utf16_width(s[0]) + utf16_len(s.drop_first()),
    decreases s.len(),
{
    if s.len() > 1 {
        lemma_utf8_len_front(s.drop_last());
        assert(s.drop_first().drop_last() =~= s.drop_last().drop_first());
    } else {
        assert(s.drop_last() =~= Seq::<char>::empty());
        assert(s.drop_first() =~= Seq::<char>::empty());
    }
}

/// `utf8_len` is the length of the UTF-8 encoding.
pub proof fn lemma_utf8_len_is_encoded_len(s: Seq<char>)
    ensures
        utf8_len(s) == encode_utf8(s).len(),
    decreases s.len(),
{
    if s.len() > 0 {
        lemma_utf8_len_front(s);
        lemma_utf8_len_is_encoded_len(s.drop_first());
        char_is_scalar(s[0]);
        assert(encode_scalar(s[0] as u32).len() == utf8_width(s[0]));
    }
}

/// A string never has more UTF-16 code units than UTF-8 bytes.
pub proof fn lemma_utf16_le_utf8(s: Seq<char>)
    ensures
        utf16_len(s) <= utf8_len(s),
    decreases s.len(),
{
    if s.len() > 0 {
        lemma_utf16_le_utf8(s.drop_last());
    }
}

/// Width in UTF-8 bytes of `c`.
pub fn char_utf8_width(c: char) -> (r: usize)
    ensures
        r == utf8_width(c),
{
    let v: u32 = c as u32;
    if v < 0x80 {
        1
    } else if v < 0x800 {
        2
    } else if v < 0x10000 {
        3
    } else {
        4
    }
}

/// Width in UTF-16 code units of `c`.
pub fn char_utf16_width(c: char) -> (r: usize)
    ensures
        r == utf16_width(c),
{
    if (c as u32) < 0x10000 {
        1
    } else {
        2
    }
}

/// The characters of `s`, in order.
pub fn collect_chars(s: &str) -> (r: Vec<char>)
    ensures
        r@ == s@,
{
    let mut r: Vec<char> = Vec::new();
    for c in it: s.chars()
        invariant
            r@ == it.seq().take(it.index() as int),
            it.seq() == s@,
    {
        r.push(c);
    }
    r
}


/// A prefix is never longer than the whole, in either encoding.
pub proof fn lemma_prefix_bounded(s: Seq<char>, k: int)
    requires
        0 <= k <= s.len(),
    ensures
        utf8_len(s.take(k)) <= utf8_len(s),
        utf16_len(s.take(k)) <= utf16_len(s),
        utf16_len(s.take(k)) <= utf8_len(s.take(k)),
{
    assert(s.take(s.len() as int) =~= s);
    if k < s.len() {
        lemma_prefix_strictly_grows(s, k, s.len() as int);
    }
    lemma_utf16_le_utf8(s.take(k));
}

/// The column just past a line's last character is its end, at the line's
/// byte length; the column after that is no position of the line.
pub proof fn lemma_end_of_line(line: Seq<char>)
    ensures
        column_offset(line, utf16_len(line)) == Some(utf8_len(line)),
        column_offset(line, utf16_len(line) + 1) is None,
{
    let n = line.len() as int;
    assert(line.take(n) =~= line);
    assert(utf16_len(line.take(n)) == utf16_len(line));
    let k = choose|k: int| 0 <= k <= line.len() && #[trigger] utf16_len(line.take(k)) == utf16_len(line);
    lemma_prefix_injective(line, k, n);
    assert forall|k: int| 0 <= k <= line.len() implies #[trigger] utf16_len(line.take(k)) != utf16_len(
        line,
    ) + 1 by {
        lemma_prefix_bounded(line, k);
    }
}

/// Why a position or a byte offset could not be converted.
#[derive(Debug, Clone, Copy, PartialEq, Eq, Structural)]
pub enum CodecError {
    /// The line index is not that of a line of the text; `max` is the number of lines.
    LineOutOfRange { requested: usize, max: usize },
    /// No character boundary of the line lies at the UTF-16 column `requested`;
    /// `max` is the line's length in UTF-16 code units.
    ColumnOutOfRange { requested: usize, max: usize },
    /// The byte offset is not on a character boundary of the text.
    InvalidByteBoundary { given: usize },
}

/// Byte offset, within `line`, of the UTF-16 column `character`.
pub fn column_to_offset(line: &Vec<char>, character: u32) -> (r: Result<usize, CodecError>)
    requires
        utf8_len(line@) <= usize::MAX,
    ensures
        match column_offset(line@, character as nat) {
            Some(o) => r == Ok::<usize, CodecError>(o as usize),
            None => r == Err::<usize, CodecError>(
                CodecError::ColumnOutOfRange {
                    requested: character as usize,
                    max: utf16_len(line@) as usize,
                },
            ),
        },
{
    let mut i: usize = 0;
    let mut units: usize = 0;
    let mut bytes: usize = 0;
    while i < line.len()
        invariant
            i <= line@.len(),
            units == utf16_len(line@.take(i as int)),
            bytes == utf8_len(line@.take(i as int)),
            utf8_len(line@) <= usize::MAX,
            forall|k: int| 0 <= k < i ==> #[trigger] utf16_len(line@.take(k)) != character,
        decreases line@.len() - i,
    {
        if units == character as usize {
            proof {
                let k = choose|k: int|
                    0 <= k <= line@.len() && #[trigger] utf16_len(line@.take(k)) == character;
                lemma_prefix_injective(line@, k, i as int);
            }
            return Ok(bytes);
        }
        let c = line[i];
        proof {
            lemma_prefix_step(line@, i as int);
            lemma_prefix_bounded(line@, i + 1);
        }
        units = units + char_utf16_width(c);
        bytes = bytes + char_utf8_width(c);
        i = i + 1;
    }
    assert(line@.take(i as int) =~= line@);
    if units == character as usize {
        proof {
            let k = choose|k: int|
                0 <= k <= line@.len() && #[trigger] utf16_len(line@.take(k)) == character;
            lemma_prefix_injective(line@, k, i as int);
        }
        Ok(bytes)
    } else {
        proof {
            lemma_prefix_bounded(line@, i as int);
        }
        Err(CodecError::ColumnOutOfRange { requested: character as usize, max: units })
    }
}

/// UTF-16 column, within `line`, of the byte offset `offset`.
pub fn offset_to_column(line: &Vec<char>, offset: usize) -> (r: Result<usize, CodecError>)
    requires
        utf8_len(line@) <= usize::MAX,
    ensures
        match offset_column(line@, offset as nat) {
            Some(c) => r == Ok::<usize, CodecError>(c as usize),
            None => r == Err::<usize, CodecError>(
                CodecError::InvalidByteBoundary { given: offset },
            ),
        },
{
    let mut i: usize = 0;
    let mut units: usize = 0;
    let mut bytes: usize = 0;
    while i < line.len()
        invariant
            i <= line@.len(),
            units == utf16_len(line@.take(i as int)),
            bytes == utf8_len(line@.take(i as int)),
            utf8_len(line@) <= usize::MAX,
            forall|k: int| 0 <= k < i ==> #[trigger] utf8_len(line@.take(k)) != offset,
        decreases line@.len() - i,
    {
        if bytes == offset {
            proof {
                let k = choose|k: int|
                    0 <= k <= line@.len() && #[trigger] utf8_len(line@.take(k)) == offset;
                lemma_prefix_injective(line@, k, i as int);
            }
            return Ok(units);
        }
        let c = line[i];
        proof {
            lemma_prefix_step(line@, i as int);
            lemma_prefix_bounded(line@, i + 1);
        }
        units = units + char_utf16_width(c);
        bytes = bytes + char_utf8_width(c);
        i = i + 1;
    }
    assert(line@.take(i as int) =~= line@);
    if bytes == offset {
        proof {
            let k = choose|k: int|
                0 <= k <= line@.len() && #[trigger] utf8_len(line@.take(k)) == offset;
            lemma_prefix_injective(line@, k, i as int);
        }
        Ok(units)
    } else {
        Err(CodecError::InvalidByteBoundary { given: offset })
    }
}

/// Byte offset, within `line`, of the UTF-16 column `character`: the byte
/// index of the character that starts at that column, or the line's length
/// when the column is the end of the line.
pub fn character_to_line_offset(line: &str, character: u32) -> (r: Result<usize, CodecError>)
    ensures
        match column_offset(line@, character as nat) {
            Some(o) => r == Ok::<usize, CodecError>(o as usize),
            None => r == Err::<usize, CodecError>(
                CodecError::ColumnOutOfRange {
                    requested: character as usize,
                    max: utf16_len(line@) as usize,
                },
            ),
        },
{
    let chars = collect_chars(line);
    // the line's length in bytes, which bounds every offset below
    let _byte_len: usize = line.as_bytes().len();
    proof {
        lemma_utf8_len_is_encoded_len(line@);
    }
    column_to_offset(&chars, character)
}

} // verus!
