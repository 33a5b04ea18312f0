//! Parsing a board from its textual form: one color glyph per cell, one
//! line per row, lines trimmed of surrounding whitespace, empty lines
//! ignored. A malformed text — a wrong glyph, or a wrong row or column
//! count — is a configuration error and is excluded by the parser's
//! precondition rather than silently defaulted.

use crate::board::{grid_wf, Board};
use crate::constants::BOARD_SIZE;
use crate::gem::Gem;
use crate::gem_color::{color_of_glyph, is_color_glyph, GemColor};
use vstd::prelude::*;
use vstd::string::StrSliceExecFns;

verus! {

broadcast use vstd::seq_lib::group_seq_properties;

/// Whitespace that is trimmed from the ends of a line.
pub open spec fn is_space(c: char) -> bool {
    c == ' ' || c == '\t' || c == '\r'
}

/// The lines of a text: the segments between newline characters. A text
/// without a newline is one line; every newline ends one line and
/// starts the next.
pub open spec fn split_lines(s: Seq<char>) -> Seq<Seq<char>>
    decreases s.len(),
{
    if s.len() == 0 {
        seq![Seq::<char>::empty()]
    } else if s.last() == '\n' {
        split_lines(s.drop_last()).push(Seq::<char>::empty())
    } else {
        let rest = split_lines(s.drop_last());
        rest.update(rest.len() - 1, rest.last().push(s.last()))
    }
}

proof fn lemma_split_lines_nonempty(s: Seq<char>)
    ensures
        split_lines(s).len() >= 1,
    decreases s.len(),
{
    if s.len() > 0 {
        lemma_split_lines_nonempty(s.drop_last());
    }
}

/// The line without its trailing whitespace.
pub open spec fn trim_trailing(l: Seq<char>) -> Seq<char>
    decreases l.len(),
{
    if l.len() > 0 && is_space(l.last()) {
        trim_trailing(l.drop_last())
    } else {
        l
    }
}

/// The line without its leading whitespace.
pub open spec fn trim_leading(l: Seq<char>) -> Seq<char>
    decreases l.len(),
{
    if l.len() > 0 && is_space(l[0]) {
        trim_leading(l.drop_first())
    } else {
        l
    }
}

/// The line without leading or trailing whitespace.
pub open spec fn trim_spaces(l: Seq<char>) -> Seq<char> {
    trim_leading(trim_trailing(l))
}

/// Every line trimmed.
pub open spec fn trimmed_of(lines: Seq<Seq<char>>) -> Seq<Seq<char>> {
    lines.map_values(|l: Seq<char>| trim_spaces(l))
}

/// The rows a list of lines describes: the lines trimmed, with the
/// empty ones dropped.
pub open spec fn cleaned_rows_of(lines: Seq<Seq<char>>) -> Seq<Seq<char>> {
    trimmed_of(lines).filter(|l: Seq<char>| l.len() > 0)
}

/// The rows a board text describes.
pub open spec fn clean_rows(s: Seq<char>) -> Seq<Seq<char>> {
    cleaned_rows_of(split_lines(s))
}

/// A well-formed board text: exactly [`BOARD_SIZE`] rows of
/// [`BOARD_SIZE`] color glyphs each.
pub open spec fn parses_as_board(s: Seq<char>) -> bool {
    &&& clean_rows(s).len() == BOARD_SIZE
    &&& (forall|i: int|
        0 <= i < clean_rows(s).len() ==> (#[trigger] clean_rows(s)[i]).len() == BOARD_SIZE)
    &&& (forall|i: int, j: int|
        #![trigger clean_rows(s)[i][j]]
        0 <= i < clean_rows(s).len() && 0 <= j < clean_rows(s)[i].len() ==> is_color_glyph(
            clean_rows(s)[i][j],
        ))
}

proof fn lemma_cleaned_push(lines: Seq<Seq<char>>, k: int)
    requires
        0 <= k < lines.len(),
    ensures
        cleaned_rows_of(lines.take(k + 1)) == (if trim_spaces(lines[k]).len() > 0 {
            cleaned_rows_of(lines.take(k)).push(trim_spaces(lines[k]))
        } else {
            cleaned_rows_of(lines.take(k))
        }),
{
    broadcast use vstd::prelude::Seq::<_>::group_seq_extra;

    assert(lines.take(k + 1) =~= lines.take(k).push(lines[k]));
    assert(trimmed_of(lines.take(k + 1)) =~= trimmed_of(lines.take(k)).push(
        trim_spaces(lines[k]),
    ));
}

proof fn lemma_cleaned_prefix(lines: Seq<Seq<char>>, k: int)
    requires
        0 <= k <= lines.len(),
    ensures
        cleaned_rows_of(lines.take(k)).len() <= cleaned_rows_of(lines).len(),
        cleaned_rows_of(lines.take(k)) == cleaned_rows_of(lines).take(
            cleaned_rows_of(lines.take(k)).len() as int,
        ),
{
    broadcast use vstd::seq_lib::group_seq_lib_default;

    let a = lines.take(k);
    let b = lines.skip(k);
    assert(lines =~= a + b);
    assert(trimmed_of(lines) =~= trimmed_of(a) + trimmed_of(b));
    assert(cleaned_rows_of(lines) == cleaned_rows_of(a) + cleaned_rows_of(b));
    assert(cleaned_rows_of(a) =~= (cleaned_rows_of(a) + cleaned_rows_of(b)).take(
        cleaned_rows_of(a).len() as int,
    ));
}

fn is_space_char(c: char) -> (result: bool)
    ensures
        result == is_space(c),
{
    c == ' ' || c == '\t' || c == '\r'
}

/// The line with surrounding whitespace removed.
fn trim_line(line: &Vec<char>) -> (result: Vec<char>)
    ensures
        result@ == trim_spaces(line@),
{
    let mut end: usize = line.len();
    let mut scanning: bool = true;
    proof {
        assert(line@.take(line@.len() as int) =~= line@);
    }
    while scanning && end > 0
        invariant
            end <= line@.len(),
            trim_trailing(line@) == trim_trailing(line@.take(end as int)),
            !scanning ==> trim_trailing(line@) == line@.take(end as int),
        decreases (if scanning {
            1int
        } else {
            0int
        }), end,
    {
        if is_space_char(line[end - 1]) {
            proof {
                assert(line@.take(end as int).drop_last() =~= line@.take(end - 1));
                assert(line@.take(end as int).last() == line@[end - 1]);
            }
            end = end - 1;
        } else {
            proof {
                assert(line@.take(end as int).last() == line@[end - 1]);
            }
            scanning = false;
        }
    }
    let ghost t = line@.take(end as int);
    proof {
        if end == 0 {
            assert(t =~= Seq::<char>::empty());
        }
        assert(trim_trailing(line@) == t);
    }
    let mut start: usize = 0;
    let mut scanning_front: bool = true;
    while scanning_front && start < end
        invariant
            start <= end,
            end <= line@.len(),
            t == line@.take(end as int),
            trim_leading(t) == trim_leading(t.skip(start as int)),
            !scanning_front ==> trim_leading(t) == t.skip(start as int),
        decreases (if scanning_front {
            1int
        } else {
            0int
        }), end - start,
    {
        if is_space_char(line[start]) {
            proof {
                assert(t.skip(start as int)[0] == line@[start as int]);
                assert(t.skip(start as int).drop_first() =~= t.skip(start + 1));
            }
            start = start + 1;
        } else {
            proof {
                assert(t.skip(start as int)[0] == line@[start as int]);
            }
            scanning_front = false;
        }
    }
    proof {
        if start == end {
            assert(t.skip(start as int) =~= Seq::<char>::empty());
        }
        assert(trim_leading(t) == t.skip(start as int));
    }
    let mut result: Vec<char> = Vec::new();
    let mut j: usize = start;
    while j < end
        invariant
            start <= j <= end,
            end <= line@.len(),
            result@ == line@.subrange(start as int, j as int),
        decreases end - j,
    {
        result.push(line[j]);
        proof {
            assert(result@ =~= line@.subrange(start as int, j + 1));
        }
        j = j + 1;
    }
    proof {
        assert(result@ =~= t.skip(start as int));
    }
    result
}

/// One cleaned row of glyphs turned into a row of gems.
fn parse_row(line: &Vec<char>) -> (result: Vec<Gem>)
    requires
        forall|j: int| 0 <= j < line@.len() ==> is_color_glyph(#[trigger] line@[j]),
    ensures
        result@.len() == line@.len(),
        forall|j: int|
            0 <= j < line@.len() ==> (#[trigger] result@[j]).color == color_of_glyph(line@[j]),
{
    let mut result: Vec<Gem> = Vec::new();
    let mut j: usize = 0;
    while j < line.len()
        invariant
            j <= line@.len(),
            result@.len() == j,
            forall|m: int| 0 <= m < line@.len() ==> is_color_glyph(#[trigger] line@[m]),
            forall|m: int|
                0 <= m < j ==> (#[trigger] result@[m]).color == color_of_glyph(line@[m]),
        decreases line@.len() - j,
    {
        result.push(Gem::new(GemColor::from_char(line[j])));
        j = j + 1;
    }
    result
}

/// Builds the board a text describes: one glyph per cell, one line per
/// row, whitespace trimmed, empty lines ignored. The text must describe
/// exactly [`BOARD_SIZE`] rows of [`BOARD_SIZE`] glyphs.
pub fn board_from_string(board_as_string: &str) -> (result: Board)
    requires
        parses_as_board(board_as_string@),
    ensures
        result@.len() == BOARD_SIZE,
        grid_wf(result@),
        forall|i: int, j: int|
            #![trigger result@[i][j]]
            0 <= i < BOARD_SIZE && 0 <= j < BOARD_SIZE ==> result@[i][j].color == color_of_glyph(
                clean_rows(board_as_string@)[i][j],
            ),
{
    let ghost s = board_as_string@;
    let total = board_as_string.unicode_len();
    let mut lines: Vec<Vec<char>> = Vec::new();
    let mut current: Vec<char> = Vec::new();
    let mut idx: usize = 0;
    proof {
        assert(s.take(0) =~= Seq::<char>::empty());
        assert(lines@.map_values(|l: Vec<char>| l@).push(current@) =~= split_lines(s.take(0)));
    }
    while idx < total
        invariant
            total == s.len(),
            s == board_as_string@,
            idx <= total,
            split_lines(s.take(idx as int)) == lines@.map_values(|l: Vec<char>| l@).push(
                current@,
            ),
        decreases total - idx,
    {
        let c = board_as_string.get_char(idx);
        let ghost prefix = s.take(idx as int);
        let ghost old_lines = lines@.map_values(|l: Vec<char>| l@);
        let ghost old_current = current@;
        idx = idx + 1;
        proof {
            assert(s.take(idx as int).drop_last() =~= prefix);
            assert(s.take(idx as int).last() == c);
            lemma_split_lines_nonempty(prefix);
        }
        if c == '\n' {
            lines.push(current);
            current = Vec::new();
            proof {
                assert(lines@.map_values(|l: Vec<char>| l@) =~= old_lines.push(old_current));
                assert(split_lines(s.take(idx as int)) =~= lines@.map_values(
                    |l: Vec<char>| l@,
                ).push(current@));
            }
        } else {
            current.push(c);
            proof {
                assert(old_lines.push(old_current).update(
                    old_lines.push(old_current).len() - 1,
                    old_current.push(c),
                ) =~= old_lines.push(current@));
                assert(split_lines(s.take(idx as int)) =~= lines@.map_values(
                    |l: Vec<char>| l@,
                ).push(current@));
            }
        }
    }
    lines.push(current);
    proof {
        assert(s.take(total as int) =~= s);
        assert(lines@.map_values(|l: Vec<char>| l@) =~= split_lines(s));
    }
    let ghost raw = split_lines(s);
    let mut rows: Vec<Vec<Gem>> = Vec::new();
    let mut k: usize = 0;
    proof {
        assert(raw.take(0) =~= Seq::<Seq<char>>::empty());
        assert(trimmed_of(Seq::<Seq<char>>::empty()) =~= Seq::<Seq<char>>::empty());
        assert(cleaned_rows_of(raw.take(0)).len() == 0) by {
            broadcast use vstd::seq_lib::group_filter_ensures;

        }
    }
    while k < lines.len()
        invariant
            s == board_as_string@,
            parses_as_board(s),
            raw == split_lines(s),
            raw == lines@.map_values(|l: Vec<char>| l@),
            k <= lines@.len(),
            rows@.len() == cleaned_rows_of(raw.take(k as int)).len(),
            rows@.len() <= BOARD_SIZE,
            forall|i: int| 0 <= i < rows@.len() ==> (#[trigger] rows@[i])@.len() == BOARD_SIZE,
            forall|i: int, j: int|
                #![trigger rows@[i]@[j]]
                0 <= i < rows@.len() && 0 <= j < BOARD_SIZE ==> rows@[i]@[j].color
                    == color_of_glyph(clean_rows(s)[i][j]),
        decreases lines@.len() - k,
    {
        let trimmed = trim_line(&lines[k]);
        let ghost count = rows@.len() as int;
        proof {
            assert(raw[k as int] == lines@[k as int]@);
            lemma_cleaned_push(raw, k as int);
            lemma_cleaned_prefix(raw, k + 1);
            assert(raw.take(raw.len() as int) =~= raw);
        }
        if trimmed.len() > 0 {
            proof {
                assert(cleaned_rows_of(raw.take(k + 1)) == cleaned_rows_of(raw.take(
                    k as int,
                )).push(trimmed@));
                assert(cleaned_rows_of(raw.take(k + 1))[count] == trimmed@);
                assert(clean_rows(s)[count] == trimmed@);
                assert(trimmed@.len() == BOARD_SIZE);
                assert forall|j: int| 0 <= j < trimmed@.len() implies is_color_glyph(
                    #[trigger] trimmed@[j],
                ) by {
                    assert(clean_rows(s)[count][j] == trimmed@[j]);
                }
            }
            let row = parse_row(&trimmed);
            rows.push(row);
        }
        k = k + 1;
    }
    proof {
        assert(raw.take(raw.len() as int) =~= raw);
        assert(rows@.len() == BOARD_SIZE);
    }
    let result = Board::from(rows);
    proof {
        assert forall|i: int|
            0 <= i < result@.len() implies (#[trigger] result@[i]).len() == result@.len() by {
            assert(result@[i] == rows@[i]@);
        }
    }
    result
}

} // verus!
