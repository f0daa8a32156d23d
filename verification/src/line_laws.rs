//! How every file of plain text is read: its lines stay as they are, whatever ends
//! them.

use vstd::prelude::*;
use vstd::utf8::*;

use crate::parse::{
    line_feeds, normalized, skip_marks, text_document, text_file, unmarked, ParseErrorCode,
};
use crate::text::{drop_space, skip_space, trimmed};

verus! {

/// Characters without a line end.
pub open spec fn one_line(s: Seq<char>) -> bool {
    forall|i: int| 0 <= i < s.len() ==> #[trigger] s[i] != '\r' && s[i] != '\n'
}

/// What ends a line: a carriage return with a line feed, or either of them alone.
pub open spec fn ends_line(end: Seq<char>) -> bool {
    end == seq!['\r', '\n'] || end == seq!['\r'] || end == seq!['\n']
}

/// The lines with their ends, from the `k`-th line on. The last line has none.
pub open spec fn written(lines: Seq<Seq<char>>, ends: Seq<Seq<char>>, k: int) -> Seq<char>
    decreases lines.len() - k,
{
    if k < 0 || k >= lines.len() {
        Seq::empty()
    } else if k == lines.len() - 1 {
        lines[k]
    } else {
        lines[k] + ends[k] + written(lines, ends, k + 1)
    }
}

/// Lines and what ends them. A carriage return and a line feed with nothing between
/// them are one end, not two.
pub open spec fn are_lines(lines: Seq<Seq<char>>, ends: Seq<Seq<char>>) -> bool {
    &&& lines.len() > 0
    &&& ends.len() == lines.len() - 1
    &&& forall|i: int| 0 <= i < lines.len() ==> one_line(#[trigger] lines[i])
    &&& forall|i: int| 0 <= i < ends.len() ==> ends_line(#[trigger] ends[i])
    &&& forall|i: int|
        0 <= i && i + 1 < ends.len() && #[trigger] ends[i] == seq!['\r'] && ends[i + 1] == seq![
            '\n',
        ] ==> lines[i + 1].len() > 0
}

/// A line feed behind each of the lines but the last.
pub open spec fn only_feeds(lines: Seq<Seq<char>>) -> Seq<Seq<char>> {
    Seq::new((lines.len() - 1) as nat, |i: int| seq!['\n'])
}

/// Byte order marks alone.
pub open spec fn only_marks(s: Seq<char>) -> bool {
    forall|i: int| 0 <= i < s.len() ==> #[trigger] s[i] == '\u{FEFF}'
}

proof fn lemma_line(s: Seq<char>, i: int, line: Seq<char>)
    requires
        0 <= i,
        i + line.len() <= s.len(),
        s.subrange(i, i + line.len()) == line,
        one_line(line),
    ensures
        line_feeds(s, i) == line + line_feeds(s, i + line.len()),
    decreases line.len(),
{
    if line.len() == 0 {
        assert(line + line_feeds(s, i) =~= line_feeds(s, i));
    } else {
        let rest = line.skip(1);
        assert(s[i] == line[0]) by {
            assert(s.subrange(i, i + line.len())[0] == s[i]);
        }
        assert(s.subrange(i + 1, i + 1 + rest.len()) =~= rest) by {
            assert forall|k: int| 0 <= k < rest.len() implies s.subrange(
                i + 1,
                i + 1 + rest.len(),
            )[k] == rest[k] by {
                assert(s.subrange(i, i + line.len())[k + 1] == line[k + 1]);
            }
        }
        assert forall|k: int| 0 <= k < rest.len() implies #[trigger] rest[k] != '\r' && rest[k]
            != '\n' by {
            assert(rest[k] == line[k + 1]);
        }
        lemma_line(s, i + 1, rest);
        assert(line + line_feeds(s, i + line.len()) =~= seq![line[0]] + (rest + line_feeds(
            s,
            i + line.len(),
        )));
    }
}

proof fn lemma_lines(s: Seq<char>, i: int, lines: Seq<Seq<char>>, ends: Seq<Seq<char>>, k: int)
    requires
        are_lines(lines, ends),
        0 <= k < lines.len(),
        0 <= i <= s.len(),
        s.skip(i) == written(lines, ends, k),
    ensures
        line_feeds(s, i) == written(lines, only_feeds(lines), k),
    decreases lines.len() - k,
{
    let line = lines[k];
    let rest = s.skip(i);
    assert(one_line(line));
    if k == lines.len() - 1 {
        assert(s.subrange(i, i + line.len()) =~= line) by {
            assert(s.subrange(i, i + line.len()) =~= rest.subrange(0, line.len() as int));
        }
        lemma_line(s, i, line);
        assert(line + line_feeds(s, i + line.len()) =~= line);
    } else {
        let end = ends[k];
        let tail = written(lines, ends, k + 1);
        assert(ends_line(end));
        let j = i + line.len();
        let n = j + end.len();
        assert(rest == line + end + tail);
        assert(s.subrange(i, j) =~= line) by {
            assert(s.subrange(i, j) =~= rest.subrange(0, line.len() as int));
        }
        lemma_line(s, i, line);
        assert(s.skip(n) =~= tail) by {
            assert(s.skip(n) =~= rest.skip((line.len() + end.len()) as int));
        }
        lemma_lines(s, n, lines, ends, k + 1);
        assert forall|m: int| 0 <= m < end.len() implies s[j + m] == end[m] by {
            assert(rest[line.len() + m] == end[m]);
        }
        if end == seq!['\r'] && n < s.len() {
            assert(s[n] == tail[0]);
            let next = lines[k + 1];
            assert(one_line(next));
            if next.len() > 0 {
                assert(tail[0] == next[0]);
            } else if k + 1 < lines.len() - 1 {
                assert(ends_line(ends[k + 1]));
                assert(ends[k] == seq!['\r']);
                assert(tail[0] == ends[k + 1][0]);
            }
            assert(s[n] != '\n');
        }
        assert(line_feeds(s, j) == seq!['\n'] + line_feeds(s, n)) by {
            assert(s[j] == end[0]);
            if end == seq!['\r', '\n'] {
                assert(s[j + 1] == end[1]);
            } else if end == seq!['\r'] {
                assert(end[0] == '\r');
            } else {
                assert(end == seq!['\n']);
                assert(end[0] == '\n');
            }
        }
        let feeds = only_feeds(lines);
        assert(feeds[k] == seq!['\n']);
        assert(line + (seq!['\n'] + line_feeds(s, n)) =~= line + seq!['\n'] + line_feeds(s, n));
    }
}

proof fn lemma_skip_marks(s: Seq<char>, marks: Seq<char>, i: int)
    requires
        only_marks(marks),
        0 <= i <= marks.len() <= s.len(),
        s.take(marks.len() as int) == marks,
        s.len() == marks.len() || s[marks.len() as int] != '\u{FEFF}',
    ensures
        skip_marks(s, i) == marks.len(),
    decreases marks.len() - i,
{
    if i < marks.len() {
        assert(s[i] == marks[i]) by {
            assert(s.take(marks.len() as int)[i] == s[i]);
        }
        lemma_skip_marks(s, marks, i + 1);
    }
}

/// The lines of a text come out as they are, with a line feed between two of them,
/// whatever ends they had. Byte order marks in front are left out.
pub proof fn law_lines_are_kept(marks: Seq<char>, lines: Seq<Seq<char>>, ends: Seq<Seq<char>>)
    requires
        only_marks(marks),
        are_lines(lines, ends),
        lines[0].len() > 0 ==> lines[0][0] != '\u{FEFF}',
    ensures
        normalized(marks + written(lines, ends, 0)) == written(lines, only_feeds(lines), 0),
{
    let body = written(lines, ends, 0);
    let s = marks + body;
    let n = marks.len() as int;
    assert(s.take(n) =~= marks);
    if s.len() > n {
        assert(s[n] == body[0]);
        if lines[0].len() > 0 {
            assert(body[0] == lines[0][0]);
        } else {
            assert(lines.len() > 1);
            assert(ends_line(ends[0]));
            assert(body[0] == ends[0][0]);
        }
    }
    lemma_skip_marks(s, marks, 0);
    assert(s.skip(n) =~= body);
    lemma_lines(s, n, lines, ends, 0);
}

/// Every text is made of lines and what ends them.
pub proof fn law_every_text_has_lines(s: Seq<char>)
    ensures
        exists|lines: Seq<Seq<char>>, ends: Seq<Seq<char>>| #[trigger]
            are_lines(lines, ends) && s == written(lines, ends, 0),
    decreases s.len(),
{
    if s.len() == 0 {
        let lines = seq![s];
        let ends = Seq::<Seq<char>>::empty();
        assert(are_lines(lines, ends));
        assert(written(lines, ends, 0) == s);
    } else {
        let c = s[0];
        if c != '\r' && c != '\n' {
            let rest = s.skip(1);
            law_every_text_has_lines(rest);
            let (lines, ends) = choose|lines: Seq<Seq<char>>, ends: Seq<Seq<char>>| #[trigger]
                are_lines(lines, ends) && rest == written(lines, ends, 0);
            let longer = lines.update(0, seq![c] + lines[0]);
            assert forall|i: int| 0 <= i < longer.len() implies one_line(#[trigger] longer[i]) by {
                assert(one_line(lines[i]));
                if i == 0 {
                    assert forall|k: int| 0 <= k < longer[0].len() implies #[trigger] longer[0][k]
                        != '\r' && longer[0][k] != '\n' by {
                        if k > 0 {
                            assert(longer[0][k] == lines[0][k - 1]);
                        }
                    }
                }
            }
            assert(are_lines(longer, ends));
            if lines.len() > 1 {
                lemma_written_tail(lines, longer, ends, 1);
            }
            assert(written(longer, ends, 0) =~= seq![c] + rest);
            assert(seq![c] + rest =~= s);
        } else {
            let end = if c == '\r' && s.len() > 1 && s[1] == '\n' {
                seq!['\r', '\n']
            } else {
                seq![c]
            };
            let rest = s.skip(end.len() as int);
            law_every_text_has_lines(rest);
            let (lines, ends) = choose|lines: Seq<Seq<char>>, ends: Seq<Seq<char>>| #[trigger]
                are_lines(lines, ends) && rest == written(lines, ends, 0);
            let first = Seq::<char>::empty();
            let more = seq![first] + lines;
            let all = seq![end] + ends;
            assert forall|i: int| 0 <= i < more.len() implies one_line(#[trigger] more[i]) by {
                if i > 0 {
                    assert(more[i] == lines[i - 1]);
                }
            }
            assert forall|i: int| 0 <= i < all.len() implies ends_line(#[trigger] all[i]) by {
                if i > 0 {
                    assert(all[i] == ends[i - 1]);
                }
            }
            assert forall|i: int|
                0 <= i && i + 1 < all.len() && #[trigger] all[i] == seq!['\r'] && all[i + 1]
                    == seq!['\n'] implies more[i + 1].len() > 0 by {
                assert(more[i + 1] == lines[i]);
                assert(all[i + 1] == ends[i]);
                if i > 0 {
                    assert(all[i] == ends[i - 1]);
                } else if lines[0].len() == 0 {
                    assert(rest[0] == ends[0][0]);
                    assert(rest[0] == s[1]);
                    assert(end.len() == 1);
                    assert(all[0] == end);
                    assert(end[0] == '\r');
                }
            }
            assert(are_lines(more, all));
            lemma_written_shift(lines, more, ends, all, 0);
            assert(written(more, all, 0) =~= end + rest);
            assert(end + rest =~= s);
        }
    }
}

proof fn lemma_written_tail(
    lines: Seq<Seq<char>>,
    longer: Seq<Seq<char>>,
    ends: Seq<Seq<char>>,
    k: int,
)
    requires
        1 <= k <= lines.len() == longer.len(),
        forall|i: int| 1 <= i < lines.len() ==> lines[i] == longer[i],
    ensures
        written(lines, ends, k) == written(longer, ends, k),
    decreases lines.len() - k,
{
    if k < lines.len() {
        lemma_written_tail(lines, longer, ends, k + 1);
    }
}

proof fn lemma_written_shift(
    lines: Seq<Seq<char>>,
    more: Seq<Seq<char>>,
    ends: Seq<Seq<char>>,
    all: Seq<Seq<char>>,
    k: int,
)
    requires
        0 <= k <= lines.len(),
        more.len() == lines.len() + 1,
        all.len() == ends.len() + 1,
        ends.len() == lines.len() - 1,
        forall|i: int| 0 <= i < lines.len() ==> lines[i] == more[i + 1],
        forall|i: int| 0 <= i < ends.len() ==> ends[i] == all[i + 1],
    ensures
        written(lines, ends, k) == written(more, all, k + 1),
    decreases lines.len() - k,
{
    if k < lines.len() {
        lemma_written_shift(lines, more, ends, all, k + 1);
    }
}

proof fn lemma_no_returns(s: Seq<char>, i: int)
    ensures
        !line_feeds(s, i).contains('\r'),
    decreases s.len() - i,
{
    if 0 <= i < s.len() {
        let r = line_feeds(s, i);
        lemma_no_returns(s, i + 1);
        if i + 1 < s.len() {
            lemma_no_returns(s, i + 2);
        }
        if r.contains('\r') {
            let k = choose|k: int| 0 <= k < r.len() && r[k] == '\r';
            let next = if s[i] == '\r' && i + 1 < s.len() && s[i + 1] == '\n' {
                line_feeds(s, i + 2)
            } else {
                line_feeds(s, i + 1)
            };
            assert(r[k] == next[k - 1]);
            assert(next.contains('\r'));
        }
    }
}

/// No carriage return is left in a text.
pub proof fn law_no_carriage_returns(s: Seq<char>)
    ensures
        !normalized(s).contains('\r'),
{
    lemma_no_returns(s, skip_marks(s, 0));
}

proof fn lemma_plain(s: Seq<char>, i: int)
    requires
        0 <= i <= s.len(),
        !s.contains('\r'),
    ensures
        line_feeds(s, i) == s.skip(i),
    decreases s.len() - i,
{
    if i < s.len() {
        assert(s[i] != '\r') by {
            assert(s.contains(s[i]));
        }
        lemma_plain(s, i + 1);
        assert(seq![s[i]] + s.skip(i + 1) =~= s.skip(i));
    } else {
        assert(s.skip(i) =~= Seq::empty());
    }
}

/// A text with line feeds alone and no byte order mark in front stays as it is.
pub proof fn law_plain_texts_stay(s: Seq<char>)
    requires
        !s.contains('\r'),
        s.len() > 0 ==> s[0] != '\u{FEFF}',
    ensures
        normalized(s) == s,
{
    lemma_plain(s, 0);
    assert(s.skip(0) =~= s);
}

/// White space in the sense of the Unicode property White_Space.
pub open spec fn blank(c: char) -> bool {
    ||| 0x09 <= c as u32 && c as u32 <= 0x0d
    ||| c as u32 == 0x20
    ||| c as u32 == 0x85
    ||| c as u32 == 0xa0
    ||| c as u32 == 0x1680
    ||| 0x2000 <= c as u32 && c as u32 <= 0x200a
    ||| c as u32 == 0x2028
    ||| c as u32 == 0x2029
    ||| c as u32 == 0x202f
    ||| c as u32 == 0x205f
    ||| c as u32 == 0x3000
}

proof fn lemma_skips(s: Seq<char>, i: int)
    requires
        0 <= i <= s.len(),
    ensures
        i <= skip_space(s, i) <= s.len(),
        forall|k: int| i <= k < skip_space(s, i) ==> blank(#[trigger] s[k]),
        skip_space(s, i) < s.len() ==> !blank(s[skip_space(s, i)]),
    decreases s.len() - i,
{
    if i < s.len() && blank(s[i]) {
        lemma_skips(s, i + 1);
    }
}

proof fn lemma_drops(s: Seq<char>, i: int, j: int)
    requires
        0 <= i <= j <= s.len(),
    ensures
        i <= drop_space(s, i, j) <= j,
        forall|k: int| drop_space(s, i, j) <= k < j ==> blank(#[trigger] s[k]),
        drop_space(s, i, j) > i ==> !blank(s[drop_space(s, i, j) - 1]),
    decreases j - i,
{
    if i < j && blank(s[j - 1]) {
        lemma_drops(s, i, j - 1);
    }
}

/// A text is trimmed to the part from the first to the last character that is no
/// white space.
pub proof fn law_trimmed(s: Seq<char>) -> (bounds: (int, int))
    ensures
        0 <= bounds.0 <= bounds.1 <= s.len(),
        trimmed(s) == s.subrange(bounds.0, bounds.1),
        forall|k: int| 0 <= k < bounds.0 ==> blank(#[trigger] s[k]),
        forall|k: int| bounds.1 <= k < s.len() ==> blank(#[trigger] s[k]),
        bounds.0 < bounds.1 ==> !blank(s[bounds.0]) && !blank(s[bounds.1 - 1]),
{
    let i = skip_space(s, 0);
    lemma_skips(s, 0);
    lemma_drops(s, i, s.len() as int);
    let j = drop_space(s, i, s.len() as int);
    (i, j)
}

/// A text is refused exactly when it has nothing but white space, byte order marks
/// in front left out; otherwise it is kept with its warnings.
pub proof fn law_blank_texts_are_refused(text: Seq<char>, warnings: Seq<Seq<char>>)
    ensures
        text_document(text, warnings) is Err <==> forall|i: int|
            0 <= i < normalized(text).len() ==> blank(#[trigger] normalized(text)[i]),
        text_document(text, warnings) matches Ok(parsed) ==> parsed.markdown == normalized(text)
            && parsed.warnings == warnings && parsed.parser_name == "text"@,
        text_document(text, warnings) matches Err(e) ==> e.code == ParseErrorCode::Empty,
{
    let s = normalized(text);
    let (i, j) = law_trimmed(s);
    if i < j {
        assert(!blank(s[i]));
    } else {
        assert forall|k: int| 0 <= k < s.len() implies blank(#[trigger] s[k]) by {}
    }
}

/// The three bytes of a byte order mark in UTF-8.
pub open spec fn mark_bytes() -> Seq<u8> {
    seq![0xefu8, 0xbbu8, 0xbfu8]
}

/// A byte order mark in front of a file makes no difference.
pub proof fn law_mark_in_front_is_dropped(bytes: Seq<u8>)
    requires
        !(bytes.len() >= 3 && bytes.take(3) == mark_bytes()),
    ensures
        text_file(mark_bytes() + bytes) == text_file(bytes),
{
    let all = mark_bytes() + bytes;
    assert(all.subrange(3, all.len() as int) =~= bytes);
    assert(unmarked(all) == bytes);
    if bytes.len() >= 3 && unmarked(bytes) != bytes {
        assert(bytes.take(3) =~= mark_bytes());
    }
}

/// A file that holds a text in UTF-8 is read as that text, without a warning.
pub proof fn law_utf8_is_read_back(s: Seq<char>)
    requires
        !s.contains('\r'),
        s.len() > 0 ==> s[0] != '\u{FEFF}',
        exists|i: int| 0 <= i < s.len() && !blank(#[trigger] s[i]),
    ensures
        text_file(encode_utf8(s)) matches Ok(parsed) && parsed.markdown == s && parsed.warnings.len()
            == 0,
{
    let bytes = encode_utf8(s);
    encode_utf8_valid_utf8(s);
    encode_utf8_decode_utf8(s);
    if unmarked(bytes) != bytes {
        // The first character of the text would be a mark.
        encode_utf8_first_scalar(s);
        assert(bytes[0] == 0xef && bytes[1] == 0xbb && bytes[2] == 0xbf);
        lemma_first_is_no_mark(s);
    }
    law_plain_texts_stay(s);
    law_blank_texts_are_refused(s, Seq::empty());
}

proof fn lemma_first_is_no_mark(s: Seq<char>)
    requires
        s.len() > 0,
        encode_utf8(s).len() >= 3,
        encode_utf8(s)[0] == 0xef,
        encode_utf8(s)[1] == 0xbb,
        encode_utf8(s)[2] == 0xbf,
    ensures
        s[0] == '\u{FEFF}',
{
    encode_utf8_first_scalar(s);
    let bytes = encode_utf8(s);
    assert(decode_first_scalar(bytes) == codepoint_width_3(0xefu8, 0xbbu8, 0xbfu8));
    assert((((0xefu8 & 0x0f) as u32) << 12) | (((0xbbu8 & 0x3f) as u32) << 6) | ((0xbfu8 & 0x3f)
        as u32) == 0xfeffu32) by (bit_vector);
    char_u32_cast(s[0], s[0] as u32);
    assert(s[0] as u32 == 0xfeff);
}

} // verus!
