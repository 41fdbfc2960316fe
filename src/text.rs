use vstd::prelude::*;
use crate::codec::{
    collect_chars, char_utf8_width, column_offset, column_to_offset, offset_column,
    offset_to_column, utf16_len, utf8_len, utf8_width, lemma_prefix_bounded, lemma_prefix_step,
    lemma_utf8_len_is_encoded_len, lemma_prefix_injective, CodecError,
};

verus! {

/// An editor position: a zero-based line and a column in UTF-16 code units.
#[derive(Debug, Clone, Copy, PartialEq, Eq, Structural)]
pub struct Position {
    pub line: u32,
    pub character: u32,
}

/// An editor range, from `start` to `end`.
#[derive(Debug, Clone, Copy, PartialEq, Eq, Structural)]
pub struct Range {
    pub start: Position,
    pub end: Position,
}

/// A byte range `[start, end)` within one file.
#[derive(Debug, Clone, Copy, PartialEq, Eq, Structural)]
pub struct Span {
    pub start: usize,
    pub end: usize,
}

/// The text that results from joining `lines` with `'\n'`.
pub open spec fn join_lines(lines: Seq<Seq<char>>) -> Seq<char>
    decreases lines.len(),
{
    if lines.len() == 0 {
        Seq::empty()
    } else if lines.len() == 1 {
        lines[0]
    } else {
        join_lines(lines.drop_last()) + seq!['\n'] + lines.last()
    }
}

/// Byte offset at which line `i` starts: every earlier line and its `'\n'`.
pub open spec fn line_start(lines: Seq<Seq<char>>, i: int) -> nat
    decreases i,
{
    if i <= 0 {
        0
    } else {
        line_start(lines, i - 1) + utf8_len(lines[i - 1]) + 1
    }
}

/// Byte offset of the position (`line`, `character`), if the line exists and
/// a character boundary lies at that UTF-16 column.
pub open spec fn position_offset(lines: Seq<Seq<char>>, line: nat, character: nat) -> Option<nat> {
    if line < lines.len() {
        match column_offset(lines[line as int], character) {
            Some(o) => Some(line_start(lines, line as int) + o),
            None => None,
        }
    } else {
        None
    }
}

/// Byte offset `offset` lies within line `i`, its end included.
pub open spec fn offset_in_line(lines: Seq<Seq<char>>, i: int, offset: nat) -> bool {
    &&& 0 <= i < lines.len()
    &&& line_start(lines, i) <= offset <= line_start(lines, i) + utf8_len(lines[i])
}

/// The (line, UTF-16 column) of a byte offset, if it is a character
/// boundary of the text or the end of a line.
pub open spec fn offset_position(lines: Seq<Seq<char>>, offset: nat) -> Option<(nat, nat)> {
    if exists|i: int| #[trigger] offset_in_line(lines, i, offset) {
        let i = choose|i: int| #[trigger] offset_in_line(lines, i, offset);
        match offset_column(lines[i], (offset - line_start(lines, i)) as nat) {
            Some(c) => Some((i as nat, c)),
            None => None,
        }
    } else {
        None
    }
}

/// The result of converting an editor position to a byte offset: the line
/// must exist, and a character boundary must lie at the column.
pub open spec fn position_to_offset(lines: Seq<Seq<char>>, position: Position) -> Result<
    usize,
    CodecError,
> {
    if position.line >= lines.len() {
        Err(CodecError::LineOutOfRange { requested: position.line as usize, max: lines.len() as usize })
    } else {
        match position_offset(lines, position.line as nat, position.character as nat) {
            Some(o) => Ok(o as usize),
            None => Err(
                CodecError::ColumnOutOfRange {
                    requested: position.character as usize,
                    max: utf16_len(lines[position.line as int]) as usize,
                },
            ),
        }
    }
}

/// The result of converting a byte offset to an editor position: the line
/// and column must be boundaries of the text and fit in a `u32`.
pub open spec fn offset_to_position(lines: Seq<Seq<char>>, offset: usize) -> Result<
    Position,
    CodecError,
> {
    match offset_position(lines, offset as nat) {
        Some((l, c)) => if l > u32::MAX {
            Err(CodecError::LineOutOfRange { requested: l as usize, max: u32::MAX as usize })
        } else if c > u32::MAX {
            Err(CodecError::ColumnOutOfRange { requested: c as usize, max: u32::MAX as usize })
        } else {
            Ok(Position { line: l as u32, character: c as u32 })
        },
        None => Err(CodecError::InvalidByteBoundary { given: offset }),
    }
}

/// The result of converting a byte span to an editor range: its start is
/// converted first, and the first failure is reported.
pub open spec fn span_to_range(lines: Seq<Seq<char>>, span: Span) -> Result<Range, CodecError> {
    match offset_to_position(lines, span.start) {
        Ok(s) => match offset_to_position(lines, span.end) {
            Ok(e) => Ok(Range { start: s, end: e }),
            Err(e) => Err(e),
        },
        Err(e) => Err(e),
    }
}

/// Line starts depend only on the lines before.
pub proof fn lemma_line_start_prefix(a: Seq<Seq<char>>, b: Seq<Seq<char>>, i: int)
    requires
        0 <= i <= a.len(),
        i <= b.len(),
        a.take(i) == b.take(i),
    ensures
        line_start(a, i) == line_start(b, i),
    decreases i,
{
    if i > 0 {
        assert(a[i - 1] == a.take(i)[i - 1]);
        assert(b[i - 1] == b.take(i)[i - 1]);
        assert(a.take(i - 1) =~= a.take(i).take(i - 1));
        assert(b.take(i - 1) =~= b.take(i).take(i - 1));
        lemma_line_start_prefix(a, b, i - 1);
    }
}

/// A later line starts after the end of an earlier one and its `'\n'`.
pub proof fn lemma_line_start_grows(lines: Seq<Seq<char>>, i: int, j: int)
    requires
        0 <= i < j,
    ensures
        line_start(lines, j) >= line_start(lines, i) + utf8_len(lines[i]) + 1,
    decreases j - i,
{
    if i < j - 1 {
        lemma_line_start_grows(lines, i, j - 1);
    }
}

/// At most one line holds a given byte offset.
pub proof fn lemma_offset_line_unique(lines: Seq<Seq<char>>, i: int, j: int, offset: nat)
    requires
        offset_in_line(lines, i, offset),
        offset_in_line(lines, j, offset),
    ensures
        i == j,
{
    if i < j {
        lemma_line_start_grows(lines, i, j);
    } else if j < i {
        lemma_line_start_grows(lines, j, i);
    }
}

/// Converting a position to a byte offset and back gives the position again.
pub proof fn lemma_position_round_trip(lines: Seq<Seq<char>>, line: nat, character: nat)
    requires
        position_offset(lines, line, character) is Some,
    ensures
        offset_position(lines, position_offset(lines, line, character)->0) == Some(
            (line, character),
        ),
{
    let l = line as int;
    let o = position_offset(lines, line, character)->0;
    let k = choose|k: int|
        0 <= k <= lines[l].len() && #[trigger] utf16_len(lines[l].take(k)) == character;
    lemma_prefix_bounded(lines[l], k);
    assert(offset_in_line(lines, l, o));
    let i = choose|i: int| #[trigger] offset_in_line(lines, i, o);
    lemma_offset_line_unique(lines, i, l, o);
    let rel = (o - line_start(lines, l)) as nat;
    assert(utf8_len(lines[l].take(k)) == rel);
    let k2 = choose|k2: int| 0 <= k2 <= lines[l].len() && #[trigger] utf8_len(lines[l].take(k2)) == rel;
    lemma_prefix_injective(lines[l], k, k2);
}


/// The text of one file, split into lines, with the byte offset at which
/// each line starts and ends (the `'\n'` excluded).
pub struct SourceText {
    lines: Vec<Vec<char>>,
    starts: Vec<usize>,
    ends: Vec<usize>,
}

impl SourceText {
    /// The lines, without their `'\n'`.
    pub closed spec fn view_lines(&self) -> Seq<Seq<char>> {
        self.lines@.map_values(|l: Vec<char>| l@)
    }

    pub closed spec fn wf(&self) -> bool {
        let ls = self.view_lines();
        &&& ls.len() >= 1
        &&& self.starts@.len() == ls.len()
        &&& self.ends@.len() == ls.len()
        &&& forall|i: int|
            0 <= i < ls.len() ==> #[trigger] self.starts@[i] == line_start(ls, i)
                && self.ends@[i] == line_start(ls, i) + utf8_len(ls[i])
        &&& forall|i: int| 0 <= i < ls.len() ==> !(#[trigger] ls[i]).contains('\n')
    }

    /// Splits `text` at each `'\n'`: a text with `n` line breaks has `n + 1` lines.
    pub fn from_text(text: &str) -> (r: SourceText)
        ensures
            r.wf(),
            join_lines(r.view_lines()) == text@,
            forall|i: int|
                0 <= i < r.view_lines().len() ==> !(#[trigger] r.view_lines()[i]).contains('\n'),
    {
        let chars = collect_chars(text);
        // the text's length in bytes, which bounds every line start and end
        let _byte_len: usize = text.as_bytes().len();
        proof {
            lemma_utf8_len_is_encoded_len(text@);
        }
        let mut lines: Vec<Vec<char>> = Vec::new();
        let mut starts: Vec<usize> = Vec::new();
        let mut ends: Vec<usize> = Vec::new();
        let mut cur: Vec<char> = Vec::new();
        let mut cur_start: usize = 0;
        let mut cur_bytes: usize = 0;
        let mut idx: usize = 0;
        while idx < chars.len()
            invariant
                chars@ == text@,
                utf8_len(text@) <= usize::MAX,
                idx <= chars@.len(),
                starts@.len() == lines@.len(),
                ends@.len() == lines@.len(),
                join_lines(lines@.map_values(|l: Vec<char>| l@).push(cur@)) == text@.take(
                    idx as int,
                ),
                forall|i: int|
                    0 <= i < lines@.len() ==> #[trigger] starts@[i] == line_start(
                        lines@.map_values(|l: Vec<char>| l@),
                        i,
                    ) && ends@[i] == starts@[i] + utf8_len(lines@[i]@),
                forall|i: int| 0 <= i < lines@.len() ==> !(#[trigger] lines@[i]@).contains('\n'),
                !cur@.contains('\n'),
                cur_start == line_start(
                    lines@.map_values(|l: Vec<char>| l@).push(cur@),
                    lines@.len() as int,
                ),
                cur_bytes == utf8_len(cur@),
                cur_start + cur_bytes == utf8_len(text@.take(idx as int)),
            decreases chars@.len() - idx,
        {
            let ghost old_ls = lines@.map_values(|l: Vec<char>| l@);
            let ghost old_cur = cur@;
            let c = chars[idx];
            proof {
                lemma_prefix_step(text@, idx as int);
                lemma_prefix_bounded(text@, idx + 1);
                assert(text@.take(idx + 1) =~= text@.take(idx as int).push(c));
                assert(old_ls.push(old_cur).drop_last() =~= old_ls);
            }
            if c == '\n' {
                lines.push(cur);
                starts.push(cur_start);
                ends.push(cur_start + cur_bytes);
                cur = Vec::new();
                cur_start = cur_start + cur_bytes + 1;
                cur_bytes = 0;
                proof {
                    let ls = lines@.map_values(|l: Vec<char>| l@);
                    assert(ls =~= old_ls.push(old_cur));
                    assert(ls.push(cur@).drop_last() =~= ls);
                    assert(cur@ =~= Seq::<char>::empty());
                    assert(join_lines(ls.push(cur@)) =~= join_lines(ls) + seq!['\n']);
                    assert forall|i: int| 0 <= i < lines@.len() implies #[trigger] starts@[i]
                        == line_start(ls, i) && ends@[i] == starts@[i] + utf8_len(lines@[i]@) by {
                        if i < lines@.len() - 1 {
                            assert(ls.take(i) =~= old_ls.take(i));
                            lemma_line_start_prefix(ls, old_ls, i);
                        } else {
                            assert(ls.take(i) =~= old_ls.push(old_cur).take(i));
                            lemma_line_start_prefix(ls, old_ls.push(old_cur), i);
                        }
                    }
                    assert(ls.push(cur@).take(ls.len() - 1) =~= ls.take(ls.len() - 1));
                    lemma_line_start_prefix(ls.push(cur@), ls, ls.len() - 1);
                    assert(old_ls.push(old_cur).take(ls.len() - 1) =~= ls.take(ls.len() - 1));
                    lemma_line_start_prefix(old_ls.push(old_cur), ls, ls.len() - 1);
                    assert(utf8_width('\n') == 1);
                }
            } else {
                cur.push(c);
                cur_bytes = cur_bytes + char_utf8_width(c);
                proof {
                    let ls = lines@.map_values(|l: Vec<char>| l@);
                    assert(ls =~= old_ls);
                    assert(cur@.drop_last() =~= old_cur);
                    assert(ls.push(cur@).drop_last() =~= ls);
                    assert(join_lines(ls.push(cur@)) =~= join_lines(ls.push(old_cur)).push(c));
                    assert(ls.push(cur@).take(ls.len() as int) =~= ls.push(old_cur).take(
                        ls.len() as int,
                    ));
                    lemma_line_start_prefix(ls.push(cur@), ls.push(old_cur), ls.len() as int);
                    assert forall|j: int| 0 <= j < cur@.len() implies cur@[j] != '\n' by {
                        if j < old_cur.len() {
                            assert(cur@[j] == old_cur[j]);
                        }
                    }
                }
            }
            idx = idx + 1;
        }
        proof {
            assert(text@.take(idx as int) =~= text@);
            lemma_prefix_bounded(text@, idx as int);
        }
        let ghost pre_ls = lines@.map_values(|l: Vec<char>| l@);
        let ghost pre_cur = cur@;
        let ghost pre_lines = lines@;
        let ghost pre_starts = starts@;
        let ghost pre_ends = ends@;
        lines.push(cur);
        starts.push(cur_start);
        ends.push(cur_start + cur_bytes);
        let r = SourceText { lines, starts, ends };
        proof {
            let ls = r.view_lines();
            assert(ls =~= pre_ls.push(pre_cur));
            assert forall|i: int| 0 <= i < ls.len() implies #[trigger] r.starts@[i]
                == line_start(ls, i) && r.ends@[i] == line_start(ls, i) + utf8_len(ls[i]) by {
                if i < ls.len() - 1 {
                    assert(pre_starts[i] == line_start(pre_ls, i));
                    assert(pre_ends[i] == pre_starts[i] + utf8_len(pre_lines[i]@));
                    assert(r.starts@[i] == pre_starts[i]);
                    assert(r.ends@[i] == pre_ends[i]);
                    assert(ls[i] == pre_lines[i]@);
                    assert(ls.take(i) =~= pre_ls.take(i));
                    lemma_line_start_prefix(ls, pre_ls, i);
                }
            }
        }
        r
    }

    /// Number of lines (one more than the number of `'\n'`).
    pub fn line_count(&self) -> (r: usize)
        requires
            self.wf(),
        ensures
            r == self.view_lines().len(),
    {
        self.lines.len()
    }

    /// Byte offset in the text of an editor position.
    pub fn position_to_byte_index(&self, position: &Position) -> (r: Result<usize, CodecError>)
        requires
            self.wf(),
        ensures
            r == position_to_offset(self.view_lines(), *position),
    {
        let line: usize = position.line as usize;
        if line >= self.lines.len() {
            return Err(CodecError::LineOutOfRange { requested: line, max: self.lines.len() });
        }
        let ghost ls = self.view_lines();
        assert(self.starts@[line as int] == line_start(ls, line as int));
        assert(ls[line as int] == self.lines@[line as int]@);
        let col = column_to_offset(&self.lines[line], position.character);
        match col {
            Ok(o) => {
                proof {
                    let k = choose|k: int|
                        0 <= k <= ls[line as int].len() && #[trigger] utf16_len(
                            ls[line as int].take(k),
                        ) == position.character as nat;
                    lemma_prefix_bounded(ls[line as int], k);
                }
                Ok(self.starts[line] + o)
            },
            Err(e) => Err(e),
        }
    }

    /// Editor position of a byte offset in the text. The end of a line (the
    /// offset of its `'\n'`) is a position too.
    pub fn byte_index_to_position(&self, offset: usize) -> (r: Result<Position, CodecError>)
        requires
            self.wf(),
        ensures
            r == offset_to_position(self.view_lines(), offset),
    {
        let ghost ls = self.view_lines();
        // the last line that starts at or before `offset`
        let mut lo: usize = 0;
        let mut hi: usize = self.starts.len();
        while hi - lo > 1
            invariant
                self.wf(),
                ls == self.view_lines(),
                lo < hi <= ls.len(),
                self.starts@[lo as int] <= offset,
                hi == ls.len() || self.starts@[hi as int] > offset,
            decreases hi - lo,
        {
            let mid: usize = lo + (hi - lo) / 2;
            if self.starts[mid] <= offset {
                lo = mid;
            } else {
                hi = mid;
            }
        }
        let ghost lo_i = lo as int;
        assert(self.starts@[lo_i] == line_start(ls, lo_i));
        assert(ls[lo_i] == self.lines@[lo_i]@);
        if offset > self.ends[lo] {
            proof {
                assert forall|j: int| !(#[trigger] offset_in_line(ls, j, offset as nat)) by {
                    if 0 <= j < lo_i {
                        lemma_line_start_grows(ls, j, lo_i);
                    } else if lo_i < j < ls.len() {
                        assert(self.starts@[hi as int] == line_start(ls, hi as int));
                        if hi < j {
                            lemma_line_start_grows(ls, hi as int, j);
                        }
                    }
                }
            }
            return Err(CodecError::InvalidByteBoundary { given: offset });
        }
        proof {
            assert(offset_in_line(ls, lo_i, offset as nat));
            let i = choose|i: int| #[trigger] offset_in_line(ls, i, offset as nat);
            lemma_offset_line_unique(ls, i, lo_i, offset as nat);
            assert(offset_position(ls, offset as nat) == match offset_column(
                ls[lo_i],
                (offset - self.starts@[lo_i]) as nat,
            ) {
                Some(c) => Some((lo as nat, c)),
                None => None,
            });
        }
        let col = offset_to_column(&self.lines[lo], offset - self.starts[lo]);
        match col {
            Ok(c) => {
                proof {
                    let rel = (offset - self.starts@[lo_i]) as nat;
                    let k = choose|k: int|
                        0 <= k <= ls[lo_i].len() && #[trigger] utf8_len(ls[lo_i].take(k)) == rel;
                    lemma_prefix_bounded(ls[lo_i], k);
                }
                if lo > u32::MAX as usize {
                    Err(CodecError::LineOutOfRange { requested: lo, max: u32::MAX as usize })
                } else if c > u32::MAX as usize {
                    Err(CodecError::ColumnOutOfRange { requested: c, max: u32::MAX as usize })
                } else {
                    Ok(Position { line: lo as u32, character: c as u32 })
                }
            },
            Err(_) => Err(CodecError::InvalidByteBoundary { given: offset }),
        }
    }

    /// Editor range of a byte span: the positions of its two ends.
    pub fn byte_span_to_range(&self, span: Span) -> (r: Result<Range, CodecError>)
        requires
            self.wf(),
        ensures
            r == span_to_range(self.view_lines(), span),
    {
        let start = self.byte_index_to_position(span.start);
        match start {
            Ok(s) => {
                let end = self.byte_index_to_position(span.end);
                match end {
                    Ok(e) => Ok(Range { start: s, end: e }),
                    Err(err) => Err(err),
                }
            },
            Err(err) => Err(err),
        }
    }

    /// Converting a position of the text to a byte offset and the offset back
    /// gives the position again.
    pub proof fn lemma_byte_index_round_trip(&self, position: Position)
        requires
            self.wf(),
            position_to_offset(self.view_lines(), position) is Ok,
        ensures
            offset_to_position(
                self.view_lines(),
                position_to_offset(self.view_lines(), position)->Ok_0,
            ) == Ok::<Position, CodecError>(position),
    {
        let ls = self.view_lines();
        let l = position.line as int;
        let o = position_offset(ls, position.line as nat, position.character as nat)->0;
        let k = choose|k: int|
            0 <= k <= ls[l].len() && #[trigger] utf16_len(ls[l].take(k)) == position.character as nat;
        lemma_prefix_bounded(ls[l], k);
        assert(self.starts@[l] == line_start(ls, l));
        assert(self.ends@[l] == line_start(ls, l) + utf8_len(ls[l]));
        lemma_position_round_trip(ls, position.line as nat, position.character as nat);
    }
}

} // verus!
