//! The record of downloaded segments that lies beside an unfinished file: one line for
//! each segment, with its index.
use crate::text::{
    all_digits, chars_of, decimal, first_newline, is_digit, law_decimal_notation,
    law_decimal_round_trip, lemma_decimal_is_digits, lines_of, number_of, parse_number, strip_cr,
    to_decimal, value_of, NumberError,
};
use vstd::prelude::*;
use vstd::string::StringExecFns;

verus! {

/// The line that records the segment `index`.
pub open spec fn parts_line(index: nat) -> Seq<char> {
    decimal(index).push('\n')
}

/// Whether `content` records the segment `index`: one of its lines is that number. Lines
/// that are no number record nothing.
pub open spec fn recorded(content: Seq<char>, index: nat) -> bool {
    exists|k: int|
        0 <= k < lines_of(content).len() && #[trigger] number_of(
            lines_of(content)[k],
            usize::MAX as nat,
        ) == Ok::<nat, NumberError>(index)
}

/// Whether `content` is a run of whole lines.
pub open spec fn whole_lines(content: Seq<char>) -> bool {
    content.len() == 0 || content.last() == '\n'
}

/// The record of a destination: its path with `.parts` behind it.
pub fn parts_path(destination: &str) -> (res: String)
    ensures
        res@ == destination@ + ".parts"@,
{
    let mut res = destination.to_string();
    res.append(".parts");
    res
}

/// The line that records a segment.
pub fn format_parts_line(index: usize) -> (res: String)
    ensures
        res@ == parts_line(index as nat),
{
    proof {
        reveal_strlit("\n");
    }
    let mut res = to_decimal(index as u64);
    res.append("\n");
    proof {
        assert(res@ =~= parts_line(index as nat));
    }
    res
}

proof fn lemma_first_newline(text: Seq<char>)
    ensures
        first_newline(text) <= text.len(),
        first_newline(text) < text.len() ==> text[first_newline(text) as int] == '\n',
        forall|i: int| 0 <= i < first_newline(text) ==> text[i] != '\n',
    decreases text.len(),
{
    if text.len() > 0 && text[0] != '\n' {
        lemma_first_newline(text.skip(1));
        let n = first_newline(text.skip(1));
        assert forall|i: int| 0 <= i < first_newline(text) implies text[i] != '\n' by {
            if i > 0 {
                assert(text.skip(1)[i - 1] == text[i]);
            }
        }
        if n < text.skip(1).len() {
            assert(text.skip(1)[n as int] == text[n as int + 1]);
        }
    }
}

proof fn lemma_first_newline_is(text: Seq<char>, n: nat)
    requires
        n <= text.len(),
        n < text.len() ==> text[n as int] == '\n',
        forall|i: int| 0 <= i < n ==> text[i] != '\n',
    ensures
        first_newline(text) == n,
{
    lemma_first_newline(text);
    let f = first_newline(text);
    if f < n {
        assert(text[f as int] != '\n');
    }
}

/// The first line of a text, and what comes behind it.
proof fn lemma_recorded_step(text: Seq<char>, index: nat)
    requires
        text.len() > 0,
    ensures
        ({
            let end = first_newline(text);
            &&& end <= text.len()
            &&& end == text.len() ==> (recorded(text, index) <==> number_of(
                text,
                usize::MAX as nat,
            ) == Ok::<nat, NumberError>(index))
            &&& end < text.len() ==> (recorded(text, index) <==> number_of(
                strip_cr(text.take(end as int)),
                usize::MAX as nat,
            ) == Ok::<nat, NumberError>(index) || recorded(text.skip(end as int + 1), index))
        }),
{
    lemma_first_newline(text);
    let end = first_newline(text);
    let max = usize::MAX as nat;
    let want = Ok::<nat, NumberError>(index);
    let lines = lines_of(text);
    if end >= text.len() {
        assert(lines == seq![text]);
        if number_of(text, max) == want {
            assert(number_of(lines[0], max) == want);
        }
        if recorded(text, index) {
            let k = choose|k: int| 0 <= k < lines.len() && #[trigger] number_of(lines[k], max)
                == want;
            assert(lines[k] == text);
        }
    } else {
        let head = strip_cr(text.take(end as int));
        let rest = lines_of(text.skip(end as int + 1));
        assert(lines == seq![head] + rest);
        if number_of(head, max) == want {
            assert(number_of(lines[0], max) == want);
        }
        if recorded(text.skip(end as int + 1), index) {
            let k = choose|k: int| 0 <= k < rest.len() && #[trigger] number_of(rest[k], max)
                == want;
            assert(lines[k + 1] == rest[k]);
            assert(number_of(lines[k + 1], max) == want);
        }
        if recorded(text, index) && number_of(head, max) != want {
            let k = choose|k: int| 0 <= k < lines.len() && #[trigger] number_of(lines[k], max)
                == want;
            assert(k > 0);
            assert(rest[k - 1] == lines[k]);
            assert(number_of(rest[k - 1], max) == want);
        }
    }
}

/// Marks for `count` segments of which none is there.
pub(crate) fn none_downloaded(count: usize) -> (res: Vec<bool>)
    ensures
        res@ == Seq::new(count as nat, |i: int| false),
{
    let mut res: Vec<bool> = Vec::new();
    while res.len() < count
        invariant
            res@.len() <= count,
            forall|i: int| 0 <= i < res@.len() ==> res@[i] == false,
        decreases count - res@.len(),
    {
        res.push(false);
    }
    proof {
        assert(res@ =~= Seq::new(count as nat, |i: int| false));
    }
    res
}

/// Whether `marks` tell which segments the part of `content` before `start` records.
spec fn read_up_to(content: Seq<char>, start: int, marks: Seq<bool>) -> bool {
    forall|i: nat|
        i < marks.len() ==> (#[trigger] recorded(content, i) <==> marks[i as int] || recorded(
            content.skip(start),
            i,
        ))
}

/// Which of the first `count` segments `content` records.
pub fn read_parts(content: &str, count: usize) -> (res: Vec<bool>)
    ensures
        res@.len() == count,
        forall|i: int| 0 <= i < count ==> #[trigger] res@[i] == recorded(content@, i as nat),
{
    let chars = chars_of(content);
    let mut res: Vec<bool> = none_downloaded(count);
    let mut start: usize = 0;
    proof {
        assert(content@.skip(0) =~= content@);
    }
    while start < chars.len()
        invariant
            start <= chars@.len(),
            chars@ == content@,
            res@.len() == count,
            read_up_to(content@, start as int, res@),
        decreases chars@.len() - start,
    {
        let ghost text = content@.skip(start as int);
        let mut end: usize = start;
        while end < chars.len() && chars[end] != '\n'
            invariant
                start <= end <= chars@.len(),
                forall|i: int| start <= i < end ==> chars@[i] != '\n',
            decreases chars@.len() - end,
        {
            end = end + 1;
        }
        let mut stop: usize = end;
        if end < chars.len() && end > start && chars[end - 1] == '\r' {
            stop = end - 1;
        }
        let ghost before = res@;
        let ghost line = chars@.subrange(start as int, stop as int);
        proof {
            assert forall|i: int| 0 <= i < end - start implies text[i] != '\n' by {
                assert(text[i] == chars@[start + i]);
            }
            lemma_first_newline_is(text, (end - start) as nat);
            if end < chars@.len() {
                let head = text.take(end - start);
                assert(line =~= strip_cr(head));
                assert(text.skip(end - start + 1) =~= content@.skip(end + 1));
            } else {
                assert(line =~= text);
            }
        }
        match parse_number(&chars, start, stop, usize::MAX as u64) {
            Ok(number) => {
                if number < count as u64 {
                    res.set(number as usize, true);
                }
            },
            Err(_) => {},
        }
        start = if end < chars.len() {
            end + 1
        } else {
            end
        };
        proof {
            let marks = res@;
            let rest = content@.skip(start as int);
            assert forall|i: nat| i < marks.len() implies (#[trigger] recorded(content@, i)
                <==> marks[i as int] || recorded(rest, i)) by {
                lemma_recorded_step(text, i);
                assert(recorded(content@, i) <==> before[i as int] || recorded(text, i));
                let hit = number_of(line, usize::MAX as nat) == Ok::<nat, NumberError>(i);
                assert(marks[i as int] == (before[i as int] || hit));
                if end == chars@.len() {
                    assert(rest.len() == 0);
                    assert(lines_of(rest).len() == 0);
                }
            }
            assert(read_up_to(content@, start as int, marks));
        }
    }
    proof {
        assert(lines_of(content@.skip(start as int)).len() == 0);
        assert forall|i: int| 0 <= i < count implies #[trigger] res@[i] == recorded(
            content@,
            i as nat,
        ) by {
            assert(recorded(content@, i as nat) <==> res@[i] || recorded(
                content@.skip(start as int),
                i as nat,
            ));
        }
    }
    res
}

/// The lines of two texts, if the first one ends a line.
proof fn lemma_lines_concat(a: Seq<char>, b: Seq<char>)
    requires
        whole_lines(a),
    ensures
        lines_of(a + b) == lines_of(a) + lines_of(b),
    decreases a.len(),
{
    if a.len() == 0 {
        assert(a + b =~= b);
        assert(lines_of(a) + lines_of(b) =~= lines_of(b));
    } else {
        lemma_first_newline(a);
        let n = first_newline(a);
        if n == a.len() {
            assert(a[a.len() - 1] != '\n');
        }
        let ab = a + b;
        assert forall|i: int| 0 <= i < n implies ab[i] != '\n' by {
            assert(ab[i] == a[i]);
        }
        lemma_first_newline_is(ab, n);
        assert(ab.take(n as int) =~= a.take(n as int));
        assert(ab.skip(n as int + 1) =~= a.skip(n as int + 1) + b);
        let rest = a.skip(n as int + 1);
        if rest.len() > 0 {
            assert(rest.last() == a.last());
        }
        lemma_lines_concat(rest, b);
        let head = seq![strip_cr(a.take(n as int))];
        assert(lines_of(ab) == head + (lines_of(rest) + lines_of(b)));
        assert(lines_of(ab) =~= lines_of(a) + lines_of(b));
    }
}

proof fn lemma_line_of_number(index: nat)
    ensures
        lines_of(parts_line(index)) == seq![decimal(index)],
{
    let text = parts_line(index);
    let digits = decimal(index);
    lemma_decimal_is_digits(index);
    assert forall|i: int| 0 <= i < digits.len() implies text[i] != '\n' by {
        assert(is_digit(digits[i]));
    }
    lemma_first_newline_is(text, digits.len());
    assert(text.take(digits.len() as int) =~= digits);
    assert(is_digit(digits[digits.len() - 1]));
    assert(strip_cr(digits) == digits);
    assert(text.skip(digits.len() as int + 1) =~= Seq::<char>::empty());
    assert(lines_of(text.skip(digits.len() as int + 1)) =~= Seq::<Seq<char>>::empty());
    assert(lines_of(text) =~= seq![digits]);
}

/// A line appended to the record records its segment, and changes nothing for the others:
/// what is read back is what was recorded before and the new segment.
pub proof fn law_append_records(content: Seq<char>, added: nat, index: nat)
    requires
        whole_lines(content),
        added <= usize::MAX,
    ensures
        whole_lines(content + parts_line(added)),
        recorded(content + parts_line(added), index) <==> recorded(content, index) || index
            == added,
{
    let max = usize::MAX as nat;
    let want = Ok::<nat, NumberError>(index);
    let all = content + parts_line(added);
    let old_lines = lines_of(content);
    let lines = lines_of(all);
    lemma_lines_concat(content, parts_line(added));
    lemma_line_of_number(added);
    law_decimal_round_trip(added, max);
    assert(lines == old_lines + seq![decimal(added)]);
    assert(lines[old_lines.len() as int] == decimal(added));
    if index == added {
        assert(number_of(lines[old_lines.len() as int], max) == want);
    }
    if recorded(content, index) {
        let k = choose|k: int| 0 <= k < old_lines.len() && #[trigger] number_of(old_lines[k], max)
            == want;
        assert(lines[k] == old_lines[k]);
        assert(number_of(lines[k], max) == want);
    }
    if recorded(all, index) && index != added {
        let k = choose|k: int| 0 <= k < lines.len() && #[trigger] number_of(lines[k], max) == want;
        assert(k < old_lines.len());
        assert(old_lines[k] == lines[k]);
        assert(number_of(old_lines[k], max) == want);
    }
}

/// The record that is written when the segments `indices` are downloaded in this order.
pub open spec fn parts_content(indices: Seq<nat>) -> Seq<char>
    decreases indices.len(),
{
    if indices.len() == 0 {
        Seq::empty()
    } else {
        parts_content(indices.drop_last()) + parts_line(indices.last())
    }
}

/// Reading the record back gives exactly the segments that were written into it, in
/// whatever order they came.
pub proof fn law_record_round_trip(indices: Seq<nat>, index: nat)
    requires
        forall|i: int| 0 <= i < indices.len() ==> indices[i] <= usize::MAX,
    ensures
        whole_lines(parts_content(indices)),
        recorded(parts_content(indices), index) <==> indices.contains(index),
    decreases indices.len(),
{
    if indices.len() == 0 {
        assert(lines_of(parts_content(indices)).len() == 0);
    } else {
        let earlier = indices.drop_last();
        assert forall|i: int| 0 <= i < earlier.len() implies earlier[i] <= usize::MAX by {
            assert(earlier[i] == indices[i]);
        }
        law_record_round_trip(earlier, index);
        law_append_records(parts_content(earlier), indices.last(), index);
        assert(indices =~= earlier.push(indices.last()));
        if earlier.contains(index) {
            let k = choose|k: int| 0 <= k < earlier.len() && earlier[k] == index;
            assert(indices[k] == index);
        }
        if indices.last() == index {
            assert(indices[indices.len() - 1] == index);
        }
        if indices.contains(index) && indices.last() != index {
            let k = choose|k: int| 0 <= k < indices.len() && indices[k] == index;
            assert(earlier[k] == index);
        }
    }
}

/// Whether a line of `content` begins at `from` and ends at `to`: there is no line feed
/// inside, one or the beginning before it, and one or the end behind it.
pub open spec fn is_line(content: Seq<char>, from: int, to: int) -> bool {
    &&& 0 <= from <= to <= content.len()
    &&& from < content.len()
    &&& from == 0 || content[from - 1] == '\n'
    &&& to == content.len() || content[to] == '\n'
    &&& forall|i: int| from <= i < to ==> content[i] != '\n'
}

/// The text of the line from `from` to `to`: a carriage return before its line feed does not
/// belong to it.
pub open spec fn line_text(content: Seq<char>, from: int, to: int) -> Seq<char> {
    if from < to < content.len() && content[to - 1] == '\r' {
        content.subrange(from, to - 1)
    } else {
        content.subrange(from, to)
    }
}

/// Whether some line of `content` is the number `index`.
pub open spec fn has_line(content: Seq<char>, index: nat) -> bool {
    exists|from: int, to: int| #[trigger]
        is_line(content, from, to) && number_of(
            line_text(content, from, to),
            usize::MAX as nat,
        ) == Ok::<nat, NumberError>(index)
}

/// A segment is recorded if and only if one of the lines of the record is its number, and
/// whatever the other lines hold.
pub proof fn law_recorded_by_a_line(content: Seq<char>, index: nat)
    ensures
        recorded(content, index) <==> has_line(content, index),
    decreases content.len(),
{
    let max = usize::MAX as nat;
    let want = Ok::<nat, NumberError>(index);
    if content.len() == 0 {
        assert(lines_of(content).len() == 0);
    } else {
        lemma_first_newline(content);
        lemma_recorded_step(content, index);
        let end = first_newline(content) as int;
        assert(is_line(content, 0, end));
        if end == content.len() {
            assert(content.subrange(0, end) =~= content);
            if has_line(content, index) {
                let (a, b) = choose|a: int, b: int| #[trigger]
                    is_line(content, a, b) && number_of(line_text(content, a, b), max) == want;
                if a > 0 {
                    assert(content[a - 1] != '\n');
                }
                assert(b == end);
            }
        } else {
            let rest = content.skip(end + 1);
            law_recorded_by_a_line(rest, index);
            let head = content.take(end);
            assert(line_text(content, 0, end) =~= strip_cr(head));
            if has_line(rest, index) {
                let (a, b) = choose|a: int, b: int| #[trigger]
                    is_line(rest, a, b) && number_of(line_text(rest, a, b), max) == want;
                assert forall|i: int| a + end + 1 <= i < b + end + 1 implies content[i]
                    != '\n' by {
                    assert(rest[i - end - 1] == content[i]);
                }
                assert(is_line(content, a + end + 1, b + end + 1));
                assert(line_text(content, a + end + 1, b + end + 1) =~= line_text(rest, a, b));
            }
            if has_line(content, index) {
                let (a, b) = choose|a: int, b: int| #[trigger]
                    is_line(content, a, b) && number_of(line_text(content, a, b), max) == want;
                if a == 0 {
                    if b < end {
                        assert(content[b] != '\n');
                    }
                    if b > end {
                        assert(content[end] == '\n');
                    }
                    assert(b == end);
                } else {
                    if a <= end {
                        assert(content[a - 1] != '\n');
                    }
                    assert forall|i: int| a - end - 1 <= i < b - end - 1 implies rest[i]
                        != '\n' by {
                        assert(rest[i] == content[i + end + 1]);
                    }
                    assert(is_line(rest, a - end - 1, b - end - 1));
                    assert(line_text(rest, a - end - 1, b - end - 1) =~= line_text(content, a, b));
                }
            }
        }
    }
}

/// The line of a segment is its number in digits, without a zero in front, and a line feed.
pub proof fn law_parts_line(index: nat)
    ensures
        parts_line(index).len() > 1,
        parts_line(index).last() == '\n',
        all_digits(parts_line(index).drop_last()),
        value_of(parts_line(index).drop_last()) == index,
        index > 0 ==> parts_line(index)[0] != '0',
        index == 0 ==> parts_line(index).len() == 2,
{
    law_decimal_notation(index);
    assert(parts_line(index).drop_last() =~= decimal(index));
}

} // verus!
