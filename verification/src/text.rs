//! Decimal numbers, lines and path segments of plain text.
use vstd::prelude::*;
use vstd::string::StringExecFns;

verus! {

/// The character that stands for the digit `d`, for `d` below ten.
pub open spec fn digit_char(d: nat) -> char {
    (48 + d) as char
}

/// The decimal notation of `n`, without leading zeros.
pub open spec fn decimal(n: nat) -> Seq<char>
    decreases n,
{
    if n < 10 {
        seq![digit_char(n)]
    } else {
        decimal(n / 10).push(digit_char(n % 10))
    }
}

/// Whether `c` is one of the ten decimal digits.
pub open spec fn is_digit(c: char) -> bool {
    '0' <= c <= '9'
}

/// The number that the digit `c` stands for.
pub open spec fn digit_value(c: char) -> nat {
    (c as int - 48) as nat
}

/// Why a text is not an unsigned number of the wanted width.
#[derive(Debug, Clone, Copy, PartialEq, Eq, Structural)]
pub enum NumberError {
    /// The text is empty.
    Empty,
    /// The text holds a character that is not a digit.
    InvalidDigit,
    /// The number is larger than the type can hold.
    Overflow,
}

/// Reads `digits` from the left, with `acc` for what has been read so far. The first
/// character that is no digit, or that carries the value above `max`, decides the error.
pub open spec fn read_digits(digits: Seq<char>, acc: nat, max: nat) -> Result<nat, NumberError>
    decreases digits.len(),
{
    if digits.len() == 0 {
        Ok(acc)
    } else if !is_digit(digits[0]) {
        Err(NumberError::InvalidDigit)
    } else if acc * 10 + digit_value(digits[0]) > max {
        Err(NumberError::Overflow)
    } else {
        read_digits(digits.skip(1), acc * 10 + digit_value(digits[0]), max)
    }
}

/// The unsigned number up to `max` that `text` denotes: decimal digits, with at most one
/// plus sign in front.
pub open spec fn number_of(text: Seq<char>, max: nat) -> Result<nat, NumberError> {
    if text.len() == 0 {
        Err(NumberError::Empty)
    } else if text[0] == '+' {
        if text.len() == 1 {
            Err(NumberError::InvalidDigit)
        } else {
            read_digits(text.skip(1), 0, max)
        }
    } else {
        read_digits(text, 0, max)
    }
}

/// What a `NumberError` says to a reader.
pub open spec fn number_error_text(e: NumberError) -> Seq<char> {
    match e {
        NumberError::Empty => "cannot parse integer from empty string"@,
        NumberError::InvalidDigit => "invalid digit found in string"@,
        NumberError::Overflow => "number too large to fit in target type"@,
    }
}

/// The position of the first line feed of `text`, or its length if there is none.
pub open spec fn first_newline(text: Seq<char>) -> nat
    decreases text.len(),
{
    if text.len() == 0 || text[0] == '\n' {
        0
    } else {
        1 + first_newline(text.skip(1))
    }
}

/// `line` without a carriage return at its end.
pub open spec fn strip_cr(line: Seq<char>) -> Seq<char> {
    if line.len() > 0 && line.last() == '\r' {
        line.drop_last()
    } else {
        line
    }
}

/// The lines of `text`: a line ends in a line feed, or in a carriage return and a line
/// feed, neither of which belongs to it; the last line may go without.
pub open spec fn lines_of(text: Seq<char>) -> Seq<Seq<char>>
    decreases text.len(),
{
    let end = first_newline(text);
    if text.len() == 0 {
        Seq::empty()
    } else if end >= text.len() {
        seq![text]
    } else {
        seq![strip_cr(text.take(end as int))] + lines_of(text.skip(end as int + 1))
    }
}

/// The part of `text` behind its last `sep`, or all of it if it holds none.
pub open spec fn after_last(text: Seq<char>, sep: char) -> Seq<char>
    decreases text.len(),
{
    if text.len() == 0 || text.last() == sep {
        Seq::empty()
    } else {
        after_last(text.drop_last(), sep).push(text.last())
    }
}

/// A file name without its extension: what stands before the last dot, or all of it if there
/// is no dot, or none but the one in front.
pub open spec fn stem(name: Seq<char>) -> Seq<char> {
    let dot = name.len() - after_last(name, '.').len() - 1;
    if dot > 0 {
        name.take(dot)
    } else {
        name
    }
}

/// The characters of `s`, one by one.
pub fn chars_of(s: &str) -> (res: Vec<char>)
    ensures
        res@ == s@,
{
    let mut res: Vec<char> = Vec::new();
    for c in it: s.chars()
        invariant
            it.seq() == s@,
            res@ == s@.take(it.index() as int),
    {
        res.push(c);
        proof {
            assert(s@.take(it.index() as int + 1) =~= s@.take(it.index() as int).push(c));
        }
    }
    proof {
        assert(s@.take(s@.len() as int) =~= s@);
    }
    res
}

/// The one-character text of the digit `d`.
fn digit_str(d: u64) -> (res: &'static str)
    requires
        d < 10,
    ensures
        res@ == seq![digit_char(d as nat)],
{
    proof {
        reveal_strlit("0");
        reveal_strlit("1");
        reveal_strlit("2");
        reveal_strlit("3");
        reveal_strlit("4");
        reveal_strlit("5");
        reveal_strlit("6");
        reveal_strlit("7");
        reveal_strlit("8");
        reveal_strlit("9");
    }
    match d {
        0 => "0",
        1 => "1",
        2 => "2",
        3 => "3",
        4 => "4",
        5 => "5",
        6 => "6",
        7 => "7",
        8 => "8",
        _ => "9",
    }
}

/// The decimal notation of `n`.
pub fn to_decimal(n: u64) -> (res: String)
    ensures
        res@ == decimal(n as nat),
    decreases n,
{
    if n < 10 {
        digit_str(n).to_string()
    } else {
        let mut res = to_decimal(n / 10);
        res.append(digit_str(n % 10));
        res
    }
}

/// The unsigned number up to `max` that the characters from `from` to `to` denote.
pub fn parse_number(chars: &Vec<char>, from: usize, to: usize, max: u64) -> (res: Result<
    u64,
    NumberError,
>)
    requires
        from <= to <= chars@.len(),
    ensures
        match number_of(chars@.subrange(from as int, to as int), max as nat) {
            Ok(n) => res matches Ok(m) && m == n,
            Err(e) => res == Err::<u64, NumberError>(e),
        },
{
    let ghost text = chars@.subrange(from as int, to as int);
    if from == to {
        return Err(NumberError::Empty);
    }
    let mut i: usize = from;
    if chars[from] == '+' {
        if to - from == 1 {
            return Err(NumberError::InvalidDigit);
        }
        i = from + 1;
    }
    let mut acc: u64 = 0;
    proof {
        assert(text.skip(1) =~= chars@.subrange(from as int + 1, to as int));
    }
    while i < to
        invariant
            from <= i <= to <= chars@.len(),
            acc <= max,
            number_of(chars@.subrange(from as int, to as int), max as nat) == read_digits(
                chars@.subrange(i as int, to as int),
                acc as nat,
                max as nat,
            ),
        decreases to - i,
    {
        let c = chars[i];
        let ghost rest = chars@.subrange(i as int, to as int);
        proof {
            assert(rest[0] == c);
            assert(rest.skip(1) =~= chars@.subrange(i as int + 1, to as int));
        }
        if c < '0' || c > '9' {
            return Err(NumberError::InvalidDigit);
        }
        let d: u64 = (c as u32 - 48) as u64;
        if acc > max / 10 || d > max - acc * 10 {
            return Err(NumberError::Overflow);
        }
        acc = acc * 10 + d;
        i = i + 1;
    }
    Ok(acc)
}

/// The unsigned 64-bit number that `s` denotes.
pub fn parse_u64(s: &str) -> (res: Result<u64, NumberError>)
    ensures
        match number_of(s@, u64::MAX as nat) {
            Ok(n) => res matches Ok(m) && m == n,
            Err(e) => res == Err::<u64, NumberError>(e),
        },
{
    let chars = chars_of(s);
    proof {
        assert(chars@.subrange(0, chars@.len() as int) =~= s@);
    }
    parse_number(&chars, 0, chars.len(), u64::MAX)
}

impl NumberError {
    /// What the error says to a reader.
    pub fn message(self) -> (res: String)
        ensures
            res@ == number_error_text(self),
    {
        match self {
            NumberError::Empty => "cannot parse integer from empty string".to_string(),
            NumberError::InvalidDigit => "invalid digit found in string".to_string(),
            NumberError::Overflow => "number too large to fit in target type".to_string(),
        }
    }
}

/// The part of `s` behind its last slash.
pub fn last_segment(s: &str) -> (res: String)
    ensures
        res@ == after_last(s@, '/'),
{
    let chars = chars_of(s);
    let mut k: usize = chars.len();
    proof {
        assert(s@.take(k as int) =~= s@);
        assert(after_last(s@, '/') =~= after_last(s@.take(k as int), '/') + s@.skip(k as int));
    }
    while k > 0 && chars[k - 1] != '/'
        invariant
            k <= chars@.len(),
            chars@ == s@,
            after_last(s@, '/') == after_last(s@.take(k as int), '/') + s@.skip(k as int),
        decreases k,
    {
        proof {
            let before = s@.take(k as int);
            assert(before.drop_last() =~= s@.take(k as int - 1));
            assert(after_last(before, '/') + s@.skip(k as int) =~= after_last(
                s@.take(k as int - 1),
                '/',
            ) + s@.skip(k as int - 1));
        }
        k = k - 1;
    }
    proof {
        assert(after_last(s@.take(k as int), '/') =~= Seq::<char>::empty());
        assert(after_last(s@, '/') =~= s@.skip(k as int));
        assert(s@.subrange(k as int, s@.len() as int) =~= s@.skip(k as int));
    }
    s.substring_char(k, chars.len()).to_string()
}

/// A file name without its extension.
pub fn file_stem(name: &str) -> (res: String)
    ensures
        res@ == stem(name@),
{
    let chars = chars_of(name);
    let mut k: usize = chars.len();
    while k > 0 && chars[k - 1] != '.'
        invariant
            k <= chars@.len(),
            forall|i: int| k <= i < chars@.len() ==> chars@[i] != '.',
        decreases k,
    {
        k = k - 1;
    }
    proof {
        law_after_last(name@, '.');
        let behind = after_last(name@, '.');
        let start = name@.len() - behind.len();
        if start < k {
            assert(behind[k - 1 - start] == name@[k - 1]);
            assert(behind.contains('.'));
        }
        assert(start == k);
    }
    if k > 1 {
        proof {
            assert(name@.subrange(0, k - 1) =~= name@.take(k - 1));
        }
        name.substring_char(0, k - 1).to_string()
    } else {
        name.to_string()
    }
}

/// Whether two texts are the same.
pub fn same_text(a: &str, b: &str) -> (res: bool)
    ensures
        res == (a@ == b@),
{
    let left = chars_of(a);
    let right = chars_of(b);
    if left.len() != right.len() {
        return false;
    }
    let mut i: usize = 0;
    while i < left.len()
        invariant
            left@ == a@,
            right@ == b@,
            left@.len() == right@.len(),
            i <= left@.len(),
            forall|j: int| 0 <= j < i ==> left@[j] == right@[j],
        decreases left@.len() - i,
    {
        if left[i] != right[i] {
            return false;
        }
        i = i + 1;
    }
    proof {
        assert(a@ =~= b@);
    }
    true
}

/// Digits read one part after the other.
proof fn lemma_read_digits_concat(a: Seq<char>, b: Seq<char>, acc: nat, max: nat)
    ensures
        read_digits(a + b, acc, max) == match read_digits(a, acc, max) {
            Ok(v) => read_digits(b, v, max),
            Err(e) => Err(e),
        },
    decreases a.len(),
{
    if a.len() == 0 {
        assert(a + b =~= b);
    } else {
        assert((a + b).skip(1) =~= a.skip(1) + b);
        if is_digit(a[0]) && acc * 10 + digit_value(a[0]) <= max {
            lemma_read_digits_concat(a.skip(1), b, acc * 10 + digit_value(a[0]), max);
        }
    }
}

/// The decimal notation is a non-empty run of digits.
pub proof fn lemma_decimal_is_digits(n: nat)
    ensures
        decimal(n).len() > 0,
        forall|i: int| 0 <= i < decimal(n).len() ==> is_digit(#[trigger] decimal(n)[i]),
    decreases n,
{
    if n >= 10 {
        lemma_decimal_is_digits(n / 10);
    }
}

proof fn lemma_read_decimal(n: nat, max: nat)
    requires
        n <= max,
    ensures
        read_digits(decimal(n), 0, max) == Ok::<nat, NumberError>(n),
    decreases n,
{
    if n < 10 {
        let d = seq![digit_char(n)];
        assert(d.skip(1) =~= Seq::<char>::empty());
        assert(read_digits(d.skip(1), n, max) == Ok::<nat, NumberError>(n));
    } else {
        let last = seq![digit_char(n % 10)];
        lemma_read_decimal(n / 10, max);
        assert(decimal(n) =~= decimal(n / 10) + last);
        lemma_read_digits_concat(decimal(n / 10), last, 0, max);
        assert(last.skip(1) =~= Seq::<char>::empty());
        assert(read_digits(last.skip(1), n, max) == Ok::<nat, NumberError>(n));
    }
}

/// Reading the decimal notation of a number gives the number back.
pub proof fn law_decimal_round_trip(n: nat, max: nat)
    requires
        n <= max,
    ensures
        number_of(decimal(n), max) == Ok::<nat, NumberError>(n),
{
    lemma_decimal_is_digits(n);
    assert(is_digit(decimal(n)[0]));
    lemma_read_decimal(n, max);
}

/// The part behind the last separator holds no separator and ends the text.
pub proof fn law_after_last(text: Seq<char>, sep: char)
    ensures
        !after_last(text, sep).contains(sep),
        after_last(text, sep).len() <= text.len(),
        after_last(text, sep) == text.skip(text.len() - after_last(text, sep).len()),
        after_last(text, sep).len() < text.len() ==> text[text.len() - after_last(text, sep).len()
            - 1] == sep,
    decreases text.len(),
{
    if text.len() > 0 && text.last() != sep {
        law_after_last(text.drop_last(), sep);
        let before = after_last(text.drop_last(), sep);
        let all = after_last(text, sep);
        assert(all == before.push(text.last()));
        assert(all =~= text.skip(text.len() - all.len()));
        assert forall|i: int| 0 <= i < all.len() implies all[i] != sep by {
            if i < before.len() {
                assert(before.contains(before[i]));
            }
        }
    }
}

/// The number that a run of digits denotes: the last digit counts ones, and everything before
/// it tens.
pub open spec fn value_of(digits: Seq<char>) -> nat
    decreases digits.len(),
{
    if digits.len() == 0 {
        0
    } else {
        value_of(digits.drop_last()) * 10 + (digits.last() as int - '0' as int) as nat
    }
}

/// Whether `text` holds nothing but decimal digits.
pub open spec fn all_digits(text: Seq<char>) -> bool {
    forall|i: int| 0 <= i < text.len() ==> '0' <= #[trigger] text[i] <= '9'
}

/// The decimal notation of a number is a run of digits that denotes it, and the shortest one:
/// it has no zero in front, except that zero is written as one digit.
pub proof fn law_decimal_notation(n: nat)
    ensures
        decimal(n).len() > 0,
        all_digits(decimal(n)),
        value_of(decimal(n)) == n,
        n > 0 ==> decimal(n)[0] != '0',
        n == 0 ==> decimal(n).len() == 1,
    decreases n,
{
    let all = decimal(n);
    reveal_with_fuel(value_of, 2);
    if n < 10 {
        assert(all.drop_last() =~= Seq::<char>::empty());
    } else {
        law_decimal_notation(n / 10);
        assert(all.drop_last() =~= decimal(n / 10));
        assert(all[0] == decimal(n / 10)[0]);
        assert forall|i: int| 0 <= i < all.len() implies '0' <= #[trigger] all[i] <= '9' by {
            if i < all.len() - 1 {
                assert(all[i] == decimal(n / 10)[i]);
            }
        }
    }
}

/// `text` without one plus sign in front.
pub open spec fn unsigned_part(text: Seq<char>) -> Seq<char> {
    if text.len() > 0 && text[0] == '+' {
        text.skip(1)
    } else {
        text
    }
}

/// Whether some run of digits at the beginning of `text` denotes a number above `max`.
pub open spec fn grows_above(text: Seq<char>, max: nat) -> bool {
    exists|k: int|
        0 <= k <= text.len() && all_digits(#[trigger] text.take(k)) && value_of(text.take(k)) > max
}

proof fn lemma_read_digits_value(s: Seq<char>, max: nat)
    ensures
        match read_digits(s, 0, max) {
            Ok(v) => all_digits(s) && value_of(s) == v && v <= max,
            Err(e) => !(all_digits(s) && value_of(s) <= max) && !(e is Empty),
        },
        read_digits(s, 0, max) == Err::<nat, NumberError>(NumberError::Overflow) <==> grows_above(
            s,
            max,
        ),
    decreases s.len(),
{
    if s.len() == 0 {
        assert forall|k: int| 0 <= k <= s.len() implies value_of(#[trigger] s.take(k)) == 0 by {
            assert(s.take(k) =~= s);
        }
    } else {
        let t = s.drop_last();
        let c = s.last();
        let one = seq![c];
        lemma_read_digits_value(t, max);
        lemma_read_digits_concat(t, one, 0, max);
        assert(t + one =~= s);
        assert(one.skip(1) =~= Seq::<char>::empty());
        reveal_with_fuel(read_digits, 2);
        assert(all_digits(s) <==> all_digits(t) && '0' <= c <= '9') by {
            if all_digits(s) {
                assert(s[s.len() - 1] == c);
                assert forall|i: int| 0 <= i < t.len() implies '0' <= #[trigger] t[i] <= '9' by {
                    assert(t[i] == s[i]);
                }
            }
            if all_digits(t) && '0' <= c <= '9' {
                assert forall|i: int| 0 <= i < s.len() implies '0' <= #[trigger] s[i] <= '9' by {
                    if i < t.len() {
                        assert(t[i] == s[i]);
                    }
                }
            }
        }
        if grows_above(t, max) {
            let k = choose|k: int|
                0 <= k <= t.len() && all_digits(#[trigger] t.take(k)) && value_of(t.take(k)) > max;
            assert(s.take(k) =~= t.take(k));
        }
        if grows_above(s, max) {
            let k = choose|k: int|
                0 <= k <= s.len() && all_digits(#[trigger] s.take(k)) && value_of(s.take(k)) > max;
            if k < s.len() {
                assert(t.take(k) =~= s.take(k));
            } else {
                assert(s.take(k) =~= s);
                assert(t.take(t.len() as int) =~= t);
            }
        }
        assert(s.take(s.len() as int) =~= s);
    }
}

/// What a text is read as. It is read as a number exactly if it is one or more digits, with
/// at most one plus sign in front, and they denote that number and no more than `max`. It is
/// said to be empty only if it is, and too large only if its first digits are.
pub proof fn law_number_reading(text: Seq<char>, max: nat, n: nat)
    ensures
        number_of(text, max) == Ok::<nat, NumberError>(n) <==> unsigned_part(text).len() > 0
            && all_digits(unsigned_part(text)) && value_of(unsigned_part(text)) == n && n <= max,
        number_of(text, max) == Err::<nat, NumberError>(NumberError::Empty) <==> text.len() == 0,
        number_of(text, max) == Err::<nat, NumberError>(NumberError::Overflow) <==> grows_above(
            unsigned_part(text),
            max,
        ),
{
    let part = unsigned_part(text);
    lemma_read_digits_value(part, max);
    if part.len() == 0 {
        lemma_read_digits_value(Seq::<char>::empty(), max);
        assert(part =~= Seq::<char>::empty());
        assert forall|k: int| 0 <= k <= part.len() implies value_of(#[trigger] part.take(k))
            == 0 by {
            assert(part.take(k) =~= part);
        }
    }
}

/// A file name is its stem, a dot and an extension without a dot, wherever it has a dot
/// behind its first character; otherwise it is its own stem.
pub proof fn law_stem(name: Seq<char>)
    ensures
        (exists|i: int| 0 < i < name.len() && #[trigger] name[i] == '.') ==> name == stem(name)
            + seq!['.'] + after_last(name, '.') && stem(name).len() > 0,
        (forall|i: int| 0 < i < name.len() ==> #[trigger] name[i] != '.') ==> stem(name) == name,
        !after_last(name, '.').contains('.'),
{
    law_after_last(name, '.');
    let behind = after_last(name, '.');
    let start = name.len() - behind.len();
    if exists|i: int| 0 < i < name.len() && #[trigger] name[i] == '.' {
        let i = choose|i: int| 0 < i < name.len() && #[trigger] name[i] == '.';
        if i >= start {
            assert(behind[i - start] == name[i]);
        }
        assert(name =~= stem(name) + seq!['.'] + behind);
    } else if behind.len() < name.len() {
        assert(name[start - 1] == '.');
    }
}

} // verus!
