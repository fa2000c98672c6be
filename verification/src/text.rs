//! Text as sequences of characters: the splitting, trimming and number reading
//! that the `/proc` formats need.

use vstd::prelude::*;

verus! {

broadcast use vstd::string::group_string_axioms;

// ---------------------------------------------------------------------------
// What the operations mean
// ---------------------------------------------------------------------------

/// The characters that Unicode calls `White_Space`.
pub open spec fn white_space(c: char) -> bool {
    let n = c as int;
    ||| 0x9 <= n <= 0xd
    ||| n == 0x20
    ||| n == 0x85
    ||| n == 0xa0
    ||| n == 0x1680
    ||| 0x2000 <= n <= 0x200a
    ||| 0x2028 <= n <= 0x2029
    ||| n == 0x202f
    ||| n == 0x205f
    ||| n == 0x3000
}

/// The text before and after the first `sep`, if there is one.
pub open spec fn split_once(s: Seq<char>, sep: char) -> Option<(Seq<char>, Seq<char>)> {
    match s.index_of_first(sep) {
        Some(i) => Some((s.take(i), s.skip(i + 1))),
        None => None,
    }
}

/// The pieces between the `sep`s: one more than there are `sep`s.
pub open spec fn split(s: Seq<char>, sep: char) -> Seq<Seq<char>>
    decreases s.len(),
{
    match split_once(s, sep) {
        Some((head, tail)) => {
            proof {
                s.index_of_first_ensures(sep);
            }
            seq![head] + split(tail, sep)
        },
        None => seq![s],
    }
}

/// A line without the carriage return that ended it.
pub open spec fn without_cr(line: Seq<char>) -> Seq<char> {
    if line.len() > 0 && line.last() == '\r' {
        line.drop_last()
    } else {
        line
    }
}

/// The lines of a text. A line ends with `\n` or `\r\n`; the last one may end
/// with the text itself.
pub open spec fn lines(s: Seq<char>) -> Seq<Seq<char>>
    decreases s.len(),
{
    match split_once(s, '\n') {
        Some((head, tail)) => {
            proof {
                s.index_of_first_ensures('\n');
            }
            seq![without_cr(head)] + lines(tail)
        },
        None => if s.len() == 0 {
            Seq::empty()
        } else {
            seq![s]
        },
    }
}

/// The text without its leading white space.
pub open spec fn trim_start(s: Seq<char>) -> Seq<char>
    decreases s.len(),
{
    if s.len() > 0 && white_space(s[0]) {
        trim_start(s.skip(1))
    } else {
        s
    }
}

/// The text without its trailing white space.
pub open spec fn trim_end(s: Seq<char>) -> Seq<char>
    decreases s.len(),
{
    if s.len() > 0 && white_space(s.last()) {
        trim_end(s.drop_last())
    } else {
        s
    }
}

/// The text without the white space around it.
pub open spec fn trim(s: Seq<char>) -> Seq<char> {
    trim_end(trim_start(s))
}

/// The characters before the first white space.
pub open spec fn leading_word(s: Seq<char>) -> Seq<char>
    decreases s.len(),
{
    if s.len() == 0 || white_space(s[0]) {
        Seq::empty()
    } else {
        seq![s[0]] + leading_word(s.skip(1))
    }
}

/// The first of the words that white space sets apart, if there is one.
pub open spec fn first_word(s: Seq<char>) -> Option<Seq<char>> {
    let rest = trim_start(s);
    if rest.len() == 0 {
        None
    } else {
        Some(leading_word(rest))
    }
}

/// What follows `prefix`, where the text starts with it.
pub open spec fn strip_prefix(s: Seq<char>, prefix: Seq<char>) -> Option<Seq<char>> {
    if prefix.is_prefix_of(s) {
        Some(s.skip(prefix.len() as int))
    } else {
        None
    }
}

pub open spec fn is_digit(c: char) -> bool {
    '0' <= c <= '9'
}

/// The number that a row of decimal digits stands for.
pub open spec fn digits_value(s: Seq<char>) -> nat
    decreases s.len(),
{
    if s.len() == 0 {
        0
    } else {
        digits_value(s.drop_last()) * 10 + (s.last() as nat - '0' as nat) as nat
    }
}

/// The text without a leading `+`.
pub open spec fn without_plus(s: Seq<char>) -> Seq<char> {
    if s.len() > 0 && s[0] == '+' {
        s.skip(1)
    } else {
        s
    }
}

pub open spec fn all_digits(s: Seq<char>) -> bool {
    forall|i: int| 0 <= i < s.len() ==> is_digit(#[trigger] s[i])
}

/// A decimal number up to `max`: digits, at least one, after an optional `+`.
pub open spec fn decimal(s: Seq<char>, max: nat) -> Option<nat> {
    let digits = without_plus(s);
    if digits.len() > 0 && all_digits(digits) && digits_value(digits) <= max {
        Some(digits_value(digits))
    } else {
        None
    }
}

pub open spec fn decimal_u64(s: Seq<char>) -> Option<u64> {
    match decimal(s, u64::MAX as nat) {
        Some(n) => Some(n as u64),
        None => None,
    }
}

pub open spec fn decimal_u32(s: Seq<char>) -> Option<u32> {
    match decimal(s, u32::MAX as nat) {
        Some(n) => Some(n as u32),
        None => None,
    }
}

/// The decimal digits of a number, without leading zeros.
pub open spec fn digits_of(n: nat) -> Seq<char>
    decreases n,
{
    let digit = ('0' as nat + n % 10) as char;
    if n < 10 {
        seq![digit]
    } else {
        digits_of(n / 10).push(digit)
    }
}

/// The pieces with `sep` between each two.
pub open spec fn join(pieces: Seq<Seq<char>>, sep: Seq<char>) -> Seq<char>
    decreases pieces.len(),
{
    if pieces.len() == 0 {
        Seq::empty()
    } else if pieces.len() == 1 {
        pieces[0]
    } else {
        join(pieces.drop_last(), sep) + sep + pieces.last()
    }
}

/// What stands before the first colon of a line, trimmed.
pub open spec fn line_key(line: Seq<char>) -> Option<Seq<char>> {
    match split_once(line, ':') {
        Some((key, _)) => Some(trim(key)),
        None => None,
    }
}

/// What `read` finds in the first line where it finds anything.
pub open spec fn first_reading<T>(
    lines: Seq<Seq<char>>,
    read: spec_fn(Seq<char>) -> Option<T>,
) -> Option<T>
    decreases lines.len(),
{
    if lines.len() == 0 {
        None
    } else if read(lines[0]) is Some {
        read(lines[0])
    } else {
        first_reading(lines.skip(1), read)
    }
}

/// What `read` finds in the last line where it finds anything.
pub open spec fn last_reading<T>(
    lines: Seq<Seq<char>>,
    read: spec_fn(Seq<char>) -> Option<T>,
) -> Option<T>
    decreases lines.len(),
{
    if lines.len() == 0 {
        None
    } else if read(lines.last()) is Some {
        read(lines.last())
    } else {
        last_reading(lines.drop_last(), read)
    }
}

// ---------------------------------------------------------------------------
// Facts about them
// ---------------------------------------------------------------------------

proof fn lemma_split_once_at(s: Seq<char>, sep: char, i: int)
    requires
        0 <= i < s.len(),
        s[i] == sep,
        forall|j: int| 0 <= j < i ==> s[j] != sep,
    ensures
        split_once(s, sep) == Some((s.take(i), s.skip(i + 1))),
{
    s.index_of_first_ensures(sep);
}

proof fn lemma_split_once_absent(s: Seq<char>, sep: char)
    requires
        forall|j: int| 0 <= j < s.len() ==> s[j] != sep,
    ensures
        split_once(s, sep) is None,
{
    s.index_of_first_ensures(sep);
}

/// A text is parted where it was put together, if the first part has no `sep`.
pub proof fn lemma_split_once_joined(a: Seq<char>, sep: char, b: Seq<char>)
    requires
        !a.contains(sep),
    ensures
        split_once(a.push(sep) + b, sep) == Some((a, b)),
{
    let s = a.push(sep) + b;
    assert forall|j: int| 0 <= j < a.len() implies s[j] != sep by {
        assert(a.contains(a[j]));
    }
    lemma_split_once_at(s, sep, a.len() as int);
    assert(s.take(a.len() as int) =~= a);
    assert(s.skip(a.len() as int + 1) =~= b);
}

/// A text is parted at its first `sep`.
pub proof fn lemma_split_once_parts(s: Seq<char>, sep: char)
    ensures
        match split_once(s, sep) {
            Some((a, b)) => s.contains(sep) && !a.contains(sep) && s == a.push(sep) + b,
            None => !s.contains(sep),
        },
{
    s.index_of_first_ensures(sep);
    if let Some((a, b)) = split_once(s, sep) {
        assert(s =~= a.push(sep) + b);
    }
}

/// More digits never make the number smaller.
proof fn lemma_digits_value_grows(s: Seq<char>, k: int)
    requires
        0 <= k <= s.len(),
        all_digits(s),
    ensures
        digits_value(s.take(k)) <= digits_value(s),
    decreases s.len() - k,
{
    if k < s.len() {
        assert(s.take(k + 1).drop_last() =~= s.take(k));
        lemma_digits_value_grows(s, k + 1);
    } else {
        assert(s.take(k) =~= s);
    }
}

proof fn lemma_digits_of(n: nat)
    ensures
        digits_of(n).len() > 0,
        all_digits(digits_of(n)),
        digits_value(digits_of(n)) == n,
    decreases n,
{
    let digit = ('0' as nat + n % 10) as char;
    assert(is_digit(digit));
    assert(digits_of(n).last() == digit);
    if n < 10 {
        assert(digits_of(n).drop_last() =~= Seq::empty());
        assert(digits_value(Seq::<char>::empty()) == 0);
    } else {
        lemma_digits_of(n / 10);
        assert(digits_of(n).drop_last() =~= digits_of(n / 10));
    }
}

/// A number that is written in decimal is read back.
pub proof fn law_number_is_read_back(n: u32)
    ensures
        decimal_u32(digits_of(n as nat)) == Some(n),
{
    lemma_digits_of(n as nat);
    assert(is_digit(digits_of(n as nat)[0]));
}

/// Whether the text ends where a line ends.
pub open spec fn whole_lines(s: Seq<char>) -> bool {
    s.len() == 0 || s.last() == '\n'
}

/// The lines of two texts put together are the lines of the one and then those of
/// the other, where the first ends with a line.
pub proof fn law_lines_of_parts(a: Seq<char>, b: Seq<char>)
    requires
        whole_lines(a),
    ensures
        lines(a + b) == lines(a) + lines(b),
    decreases a.len(),
{
    if a.len() == 0 {
        assert(a + b =~= b);
        lemma_split_once_absent(a, '\n');
        assert(lines(a) + lines(b) =~= lines(b));
    } else {
        a.index_of_first_ensures('\n');
        assert(a.contains('\n')) by {
            assert(a[a.len() - 1] == '\n');
        }
        let i = a.index_of_first('\n')->0;
        lemma_split_once_at(a, '\n', i);
        assert forall|j: int| 0 <= j < i implies (a + b)[j] != '\n' by {
            assert((a + b)[j] == a[j]);
        }
        lemma_split_once_at(a + b, '\n', i);
        assert((a + b).take(i) =~= a.take(i));
        assert((a + b).skip(i + 1) =~= a.skip(i + 1) + b);
        law_lines_of_parts(a.skip(i + 1), b);
        let first = seq![without_cr(a.take(i))];
        assert(first + (lines(a.skip(i + 1)) + lines(b)) =~= (first + lines(a.skip(i + 1))) + lines(
            b,
        ));
    }
}

/// The one line of a text that ends with its first line end.
pub proof fn lemma_one_line(line: Seq<char>)
    requires
        !line.contains('\n'),
    ensures
        lines(line.push('\n')) == seq![without_cr(line)],
{
    let s = line.push('\n');
    assert forall|j: int| 0 <= j < line.len() implies s[j] != '\n' by {
        assert(line.contains(line[j]));
    }
    lemma_split_once_at(s, '\n', line.len() as int);
    assert(s.take(line.len() as int) =~= line);
    assert(s.skip(line.len() as int + 1) =~= Seq::empty());
    lemma_split_once_absent(Seq::empty(), '\n');
    assert(seq![without_cr(line)] + lines(Seq::empty()) =~= seq![without_cr(line)]);
}

proof fn lemma_last_reading_of_parts<T>(
    a: Seq<Seq<char>>,
    b: Seq<Seq<char>>,
    read: spec_fn(Seq<char>) -> Option<T>,
)
    ensures
        last_reading(a + b, read) == if last_reading(b, read) is Some {
            last_reading(b, read)
        } else {
            last_reading(a, read)
        },
    decreases b.len(),
{
    if b.len() == 0 {
        assert(a + b =~= a);
    } else {
        assert((a + b).drop_last() =~= a + b.drop_last());
        lemma_last_reading_of_parts(a, b.drop_last(), read);
    }
}

/// Nothing is found where no line has anything.
pub proof fn lemma_no_reading<T>(ls: Seq<Seq<char>>, read: spec_fn(Seq<char>) -> Option<T>)
    requires
        forall|i: int| 0 <= i < ls.len() ==> read(#[trigger] ls[i]) is None,
    ensures
        first_reading(ls, read) is None,
        last_reading(ls, read) is None,
    decreases ls.len(),
{
    if ls.len() > 0 {
        let init = ls.drop_last();
        assert forall|i: int| 0 <= i < init.len() implies read(#[trigger] init[i]) is None by {
            assert(init[i] == ls[i]);
        }
        let rest = ls.skip(1);
        assert forall|i: int| 0 <= i < rest.len() implies read(#[trigger] rest[i]) is None by {
            assert(rest[i] == ls[i + 1]);
        }
        lemma_no_reading(init, read);
        lemma_no_reading(rest, read);
        assert(read(ls[0]) is None && read(ls[ls.len() - 1]) is None);
    }
}

/// What follows the first line where anything is found does not matter.
pub proof fn lemma_first_reading_of_parts<T>(
    a: Seq<Seq<char>>,
    line: Seq<char>,
    b: Seq<Seq<char>>,
    read: spec_fn(Seq<char>) -> Option<T>,
)
    requires
        forall|i: int| 0 <= i < a.len() ==> read(#[trigger] a[i]) is None,
        read(line) is Some,
    ensures
        first_reading(a + seq![line] + b, read) == read(line),
    decreases a.len(),
{
    let all = a + seq![line] + b;
    if a.len() == 0 {
        assert(all[0] == line);
    } else {
        assert(all[0] == a[0]);
        let rest = a.skip(1);
        assert forall|i: int| 0 <= i < rest.len() implies read(#[trigger] rest[i]) is None by {
            assert(rest[i] == a[i + 1]);
        }
        lemma_first_reading_of_parts(rest, line, b, read);
        assert(all.skip(1) =~= rest + seq![line] + b);
    }
}

/// A line in which nothing is found can be put anywhere between the lines of a
/// text without changing what is found in its last line that has anything.
pub proof fn law_unread_line_changes_nothing<T>(
    before: Seq<char>,
    line: Seq<char>,
    after: Seq<char>,
    read: spec_fn(Seq<char>) -> Option<T>,
)
    requires
        whole_lines(before),
        !line.contains('\n'),
        read(without_cr(line)) is None,
    ensures
        last_reading(lines(before + line.push('\n') + after), read) == last_reading(
            lines(before + after),
            read,
        ),
{
    let ended = line.push('\n');
    let one = seq![without_cr(line)];
    assert(before + ended + after =~= before + (ended + after));
    law_lines_of_parts(before, ended + after);
    law_lines_of_parts(ended, after);
    law_lines_of_parts(before, after);
    lemma_one_line(line);
    lemma_last_reading_of_parts(lines(before), one + lines(after), read);
    lemma_last_reading_of_parts(one, lines(after), read);
    lemma_last_reading_of_parts(lines(before), lines(after), read);
    lemma_no_reading(one, read);
}

/// A number of 64 bits that is written in decimal is read back.
pub proof fn law_long_number_is_read_back(n: u64)
    ensures
        decimal_u64(digits_of(n as nat)) == Some(n),
{
    lemma_digits_of(n as nat);
    assert(is_digit(digits_of(n as nat)[0]));
}

/// What is read as a number is digits, with a plus sign in front at most.
pub proof fn law_numbers_are_digits(s: Seq<char>, i: int)
    requires
        decimal_u32(s) is Some || decimal_u64(s) is Some,
        0 <= i < s.len(),
    ensures
        '0' <= s[i] <= '9' || (i == 0 && s[i] == '+' && s.len() > 1),
{
    let digits = without_plus(s);
    assert(digits.len() > 0 && all_digits(digits));
    if s[0] == '+' {
        if i > 0 {
            assert(digits[i - 1] == s[i]);
            assert(is_digit(digits[i - 1]));
        }
    } else {
        assert(is_digit(digits[i]));
    }
}

/// Whether a text is white space and nothing else.
pub open spec fn is_blank(s: Seq<char>) -> bool {
    forall|i: int| 0 <= i < s.len() ==> white_space(#[trigger] s[i])
}

/// Whether a text has no white space.
pub open spec fn is_solid(s: Seq<char>) -> bool {
    forall|i: int| 0 <= i < s.len() ==> !white_space(#[trigger] s[i])
}

/// The digits of a number are at least one, and no white space.
pub proof fn lemma_digits_are_solid(n: nat)
    ensures
        digits_of(n).len() > 0,
        is_solid(digits_of(n)),
        !digits_of(n).contains('\n'),
        !digits_of(n).contains(':'),
        digits_of(n).last() != '\r',
{
    lemma_digits_of(n);
    let d = digits_of(n);
    assert forall|i: int| 0 <= i < d.len() implies !white_space(#[trigger] d[i]) && d[i] != '\n'
        && d[i] != ':' && d[i] != '\r' by {
        assert(is_digit(d[i]));
    }
    assert(d.last() == d[d.len() - 1]);
}

proof fn lemma_trim_start_blank(white: Seq<char>, rest: Seq<char>)
    requires
        is_blank(white),
        rest.len() == 0 || !white_space(rest[0]),
    ensures
        trim_start(white + rest) == rest,
    decreases white.len(),
{
    if white.len() == 0 {
        assert(white + rest =~= rest);
    } else {
        assert(white_space(white[0]));
        assert((white + rest)[0] == white[0]);
        assert((white + rest).skip(1) =~= white.skip(1) + rest);
        assert forall|i: int| 0 <= i < white.skip(1).len() implies white_space(
            #[trigger] white.skip(1)[i],
        ) by {
            assert(white.skip(1)[i] == white[i + 1]);
        }
        lemma_trim_start_blank(white.skip(1), rest);
    }
}

proof fn lemma_trim_end_blank(rest: Seq<char>, white: Seq<char>)
    requires
        is_blank(white),
        rest.len() == 0 || !white_space(rest.last()),
    ensures
        trim_end(rest + white) == rest,
    decreases white.len(),
{
    if white.len() == 0 {
        assert(rest + white =~= rest);
    } else {
        assert(white_space(white[white.len() - 1]));
        assert((rest + white).last() == white[white.len() - 1]);
        assert((rest + white).drop_last() =~= rest + white.drop_last());
        assert forall|i: int| 0 <= i < white.drop_last().len() implies white_space(
            #[trigger] white.drop_last()[i],
        ) by {
            assert(white.drop_last()[i] == white[i]);
        }
        lemma_trim_end_blank(rest, white.drop_last());
    }
}

/// Trimming takes the white space from both ends, and nothing from between.
pub proof fn law_trim_keeps_the_inside(white: Seq<char>, inside: Seq<char>, more: Seq<char>)
    requires
        is_blank(white),
        is_blank(more),
        inside.len() > 0,
        !white_space(inside[0]),
        !white_space(inside.last()),
    ensures
        trim(white + inside + more) == inside,
{
    assert(white + inside + more =~= white + (inside + more));
    lemma_trim_start_blank(white, inside + more);
    lemma_trim_end_blank(inside, more);
}

/// Nothing is left of white space.
pub proof fn law_blank_trims_to_nothing(white: Seq<char>)
    requires
        is_blank(white),
    ensures
        trim(white) == Seq::<char>::empty(),
        first_word(white) is None,
{
    assert(white + Seq::<char>::empty() =~= white);
    lemma_trim_start_blank(white, Seq::empty());
}

proof fn lemma_trim_end_keeps_first(s: Seq<char>)
    requires
        s.len() > 0,
        !white_space(s[0]),
    ensures
        trim_end(s).len() > 0,
        trim_end(s)[0] == s[0],
    decreases s.len(),
{
    if white_space(s.last()) {
        assert(s.last() == s[s.len() - 1]);
        lemma_trim_end_keeps_first(s.drop_last());
    }
}

/// The first character that is left by trimming is the first that is no white
/// space.
pub proof fn law_trim_starts_with_the_first_visible(white: Seq<char>, rest: Seq<char>)
    requires
        is_blank(white),
        rest.len() > 0,
        !white_space(rest[0]),
    ensures
        trim(white + rest).len() > 0,
        trim(white + rest)[0] == rest[0],
{
    lemma_trim_start_blank(white, rest);
    lemma_trim_end_keeps_first(rest);
}

proof fn lemma_leading_word(word: Seq<char>, rest: Seq<char>)
    requires
        is_solid(word),
        rest.len() == 0 || white_space(rest[0]),
    ensures
        leading_word(word + rest) == word,
    decreases word.len(),
{
    if word.len() == 0 {
        assert(word + rest =~= rest);
        assert(word =~= Seq::empty());
    } else {
        assert(!white_space(word[0]));
        assert((word + rest)[0] == word[0]);
        assert((word + rest).skip(1) =~= word.skip(1) + rest);
        assert forall|i: int| 0 <= i < word.skip(1).len() implies !white_space(
            #[trigger] word.skip(1)[i],
        ) by {
            assert(word.skip(1)[i] == word[i + 1]);
        }
        lemma_leading_word(word.skip(1), rest);
        assert(seq![word[0]] + word.skip(1) =~= word);
    }
}

/// The first word is what stands between the first white space and the next.
pub proof fn law_first_word_is_found(white: Seq<char>, word: Seq<char>, rest: Seq<char>)
    requires
        is_blank(white),
        word.len() > 0,
        is_solid(word),
        rest.len() == 0 || white_space(rest[0]),
    ensures
        first_word(white + word + rest) == Some(word),
{
    assert(white + word + rest =~= white + (word + rest));
    assert(!white_space(word[0]));
    assert((word + rest)[0] == word[0]);
    lemma_trim_start_blank(white, word + rest);
    lemma_leading_word(word, rest);
}

/// A line ends with `\n` or `\r\n`; the last one needs no end.
pub proof fn law_lines_end(line: Seq<char>)
    requires
        !line.contains('\n'),
        line.len() > 0 ==> line.last() != '\r',
    ensures
        lines(line.push('\n')) == seq![line],
        lines(line.push('\r').push('\n')) == seq![line],
        line.len() > 0 ==> lines(line) == seq![line],
{
    lemma_one_line(line);
    let returned = line.push('\r');
    assert(!returned.contains('\n')) by {
        if returned.contains('\n') {
            let i = choose|i: int| 0 <= i < returned.len() && returned[i] == '\n';
            assert(line.contains(line[i]));
        }
    }
    lemma_one_line(returned);
    assert(returned.drop_last() =~= line);
    lemma_split_once_parts(line, '\n');
}

/// What is found in a line stands for the whole text, whatever comes before the
/// line, where nothing is found after it.
pub proof fn law_last_line_counts<T>(
    before: Seq<char>,
    line: Seq<char>,
    after: Seq<char>,
    read: spec_fn(Seq<char>) -> Option<T>,
)
    requires
        whole_lines(before),
        !line.contains('\n'),
        line.len() > 0 ==> line.last() != '\r',
        read(line) is Some,
        forall|i: int| 0 <= i < lines(after).len() ==> read(#[trigger] lines(after)[i]) is None,
    ensures
        last_reading(lines(before + line.push('\n') + after), read) == read(line),
{
    let ended = line.push('\n');
    let one = seq![line];
    assert(before + ended + after =~= before + (ended + after));
    law_lines_of_parts(before, ended + after);
    law_lines_of_parts(ended, after);
    law_lines_end(line);
    lemma_no_reading(lines(after), read);
    lemma_last_reading_of_parts(lines(before), one + lines(after), read);
    lemma_last_reading_of_parts(one, lines(after), read);
    assert(one.last() == line);
}

/// Pieces with `sep` between each two.
pub open spec fn put_together(pieces: Seq<Seq<char>>, sep: char) -> Seq<char>
    decreases pieces.len(),
{
    if pieces.len() == 0 {
        Seq::empty()
    } else if pieces.len() == 1 {
        pieces[0]
    } else {
        pieces[0].push(sep) + put_together(pieces.skip(1), sep)
    }
}

/// Pieces that are put together with something that none of them holds are found
/// again.
pub proof fn law_pieces_are_found_again(pieces: Seq<Seq<char>>, sep: char)
    requires
        pieces.len() > 0,
        forall|i: int| 0 <= i < pieces.len() ==> !(#[trigger] pieces[i]).contains(sep),
    ensures
        split(put_together(pieces, sep), sep) == pieces,
    decreases pieces.len(),
{
    assert(!pieces[0].contains(sep));
    if pieces.len() == 1 {
        lemma_split_once_parts(pieces[0], sep);
        assert(seq![pieces[0]] =~= pieces);
    } else {
        let rest = pieces.skip(1);
        assert forall|i: int| 0 <= i < rest.len() implies !(#[trigger] rest[i]).contains(sep) by {
            assert(rest[i] == pieces[i + 1]);
        }
        law_pieces_are_found_again(rest, sep);
        lemma_split_once_joined(pieces[0], sep, put_together(rest, sep));
        assert(seq![pieces[0]] + rest =~= pieces);
    }
}

// ---------------------------------------------------------------------------
// The operations
// ---------------------------------------------------------------------------

/// `String::push`: appends the character to the end of the string.
pub assume_specification[ String::push ](s: &mut String, c: char)
    ensures
        final(s)@ == old(s)@.push(c),
;

/// The characters of a string.
pub fn chars_of(s: &str) -> (r: Vec<char>)
    ensures
        r@ == s@,
{
    let mut r: Vec<char> = Vec::new();
    for c in it: s.chars()
        invariant
            r@ == s@.take(it.index()),
            it.seq() == s@,
    {
        r.push(c);
        assert(s@.take(it.index() + 1) =~= s@.take(it.index()).push(c));
    }
    assert(s@.take(s@.len() as int) =~= s@);
    r
}

/// Appends characters to a string.
pub fn push_chars(out: &mut String, cs: &[char])
    ensures
        final(out)@ == old(out)@ + cs@,
{
    let mut i: usize = 0;
    while i < cs.len()
        invariant
            i <= cs.len(),
            out@ =~= old(out)@ + cs@.take(i as int),
        decreases cs.len() - i,
    {
        out.push(cs[i]);
        assert(cs@.take(i + 1) =~= cs@.take(i as int).push(cs@[i as int]));
        i += 1;
    }
    assert(cs@.take(i as int) =~= cs@);
}

/// The string of some characters.
pub fn string_of(cs: &[char]) -> (r: String)
    ensures
        r@ == cs@,
{
    let mut r = String::new();
    push_chars(&mut r, cs);
    assert(r@ =~= cs@);
    r
}

pub fn is_white_space(c: char) -> (r: bool)
    ensures
        r == white_space(c),
{
    let n: u32 = c as u32;
    (0x9 <= n && n <= 0xd) || n == 0x20 || n == 0x85 || n == 0xa0 || n == 0x1680 || (0x2000 <= n
        && n <= 0x200a) || (0x2028 <= n && n <= 0x2029) || n == 0x202f || n == 0x205f || n
        == 0x3000
}

/// Whether the characters are those of `text`.
pub fn is_text(cs: &[char], text: &str) -> (r: bool)
    ensures
        r == (cs@ == text@),
{
    let other = chars_of(text);
    if cs.len() != other.len() {
        return false;
    }
    let mut i: usize = 0;
    while i < cs.len()
        invariant
            i <= cs.len() == other.len(),
            other@ == text@,
            forall|j: int| 0 <= j < i ==> cs@[j] == other@[j],
        decreases cs.len() - i,
    {
        if cs[i] != other[i] {
            return false;
        }
        i += 1;
    }
    assert(cs@ =~= other@);
    true
}

/// The position of the first `sep`, or the length where there is none.
fn position(cs: &[char], sep: char) -> (r: usize)
    ensures
        r <= cs@.len(),
        r < cs@.len() ==> cs@[r as int] == sep,
        forall|j: int| 0 <= j < r ==> cs@[j] != sep,
{
    let mut i: usize = 0;
    while i < cs.len() && cs[i] != sep
        invariant
            i <= cs.len(),
            forall|j: int| 0 <= j < i ==> cs@[j] != sep,
        decreases cs.len() - i,
    {
        i += 1;
    }
    i
}

/// The first `n` characters.
fn head(cs: &[char], n: usize) -> (r: &[char])
    requires
        n <= cs@.len(),
    ensures
        r@ == cs@.take(n as int),
{
    let r = vstd::slice::slice_subrange(cs, 0, n);
    assert(r@ =~= cs@.take(n as int));
    r
}

/// All but the first `n` characters.
fn tail(cs: &[char], n: usize) -> (r: &[char])
    requires
        n <= cs@.len(),
    ensures
        r@ == cs@.skip(n as int),
{
    let r = vstd::slice::slice_subrange(cs, n, cs.len());
    assert(r@ =~= cs@.skip(n as int));
    r
}

/// Parts the characters at the first `sep`.
pub fn split_chars_once(cs: &[char], sep: char) -> (r: Option<(&[char], &[char])>)
    ensures
        match r {
            Some((a, b)) => split_once(cs@, sep) == Some((a@, b@)),
            None => split_once(cs@, sep) is None,
        },
{
    let i = position(cs, sep);
    if i < cs.len() {
        proof {
            lemma_split_once_at(cs@, sep, i as int);
        }
        Some((head(cs, i), tail(cs, i + 1)))
    } else {
        proof {
            lemma_split_once_absent(cs@, sep);
        }
        None
    }
}

/// The views of a row of pieces.
pub open spec fn views(pieces: Seq<&[char]>) -> Seq<Seq<char>> {
    Seq::new(pieces.len(), |i: int| pieces[i]@)
}

/// Parts the characters at every `sep`.
pub fn split_chars(cs: &[char], sep: char) -> (r: Vec<&[char]>)
    ensures
        views(r@) == split(cs@, sep),
{
    let mut r: Vec<&[char]> = Vec::new();
    let mut rest = cs;
    loop
        invariant
            views(r@) + split(rest@, sep) == split(cs@, sep),
        decreases rest@.len(),
    {
        match split_chars_once(rest, sep) {
            Some((a, b)) => {
                proof {
                    rest@.index_of_first_ensures(sep);
                    assert(views(r@.push(a)) + split(b@, sep) =~= views(r@) + (seq![a@] + split(
                        b@,
                        sep,
                    )));
                }
                r.push(a);
                rest = b;
            },
            None => {
                assert(views(r@.push(rest)) =~= views(r@) + seq![rest@]);
                r.push(rest);
                return r;
            },
        }
    }
}

/// The lines of a text.
pub fn lines_of(cs: &[char]) -> (r: Vec<&[char]>)
    ensures
        views(r@) == lines(cs@),
{
    let mut r: Vec<&[char]> = Vec::new();
    let mut rest = cs;
    loop
        invariant
            views(r@) + lines(rest@) == lines(cs@),
        decreases rest@.len(),
    {
        match split_chars_once(rest, '\n') {
            Some((a, b)) => {
                let line = if a.len() > 0 && a[a.len() - 1] == '\r' {
                    let l = head(a, a.len() - 1);
                    assert(l@ =~= a@.drop_last());
                    l
                } else {
                    a
                };
                proof {
                    rest@.index_of_first_ensures('\n');
                    assert(views(r@.push(line)) + lines(b@) =~= views(r@) + (seq![line@] + lines(
                        b@,
                    )));
                }
                r.push(line);
                rest = b;
            },
            None => {
                if rest.len() > 0 {
                    assert(views(r@.push(rest)) =~= views(r@) + seq![rest@]);
                    r.push(rest);
                } else {
                    assert(views(r@) + Seq::<Seq<char>>::empty() =~= views(r@));
                }
                return r;
            },
        }
    }
}

/// The characters without their leading white space.
pub fn trim_chars_start(cs: &[char]) -> (r: &[char])
    ensures
        r@ == trim_start(cs@),
{
    let mut i: usize = 0;
    assert(cs@.skip(0) =~= cs@);
    while i < cs.len() && is_white_space(cs[i])
        invariant
            i <= cs.len(),
            trim_start(cs@.skip(i as int)) == trim_start(cs@),
        decreases cs.len() - i,
    {
        assert(cs@.skip(i as int).skip(1) =~= cs@.skip(i + 1));
        i += 1;
    }
    tail(cs, i)
}

/// The characters without the white space around them.
pub fn trim_chars(cs: &[char]) -> (r: &[char])
    ensures
        r@ == trim(cs@),
{
    let cs = trim_chars_start(cs);
    let mut n: usize = cs.len();
    assert(cs@.take(n as int) =~= cs@);
    while n > 0 && is_white_space(cs[n - 1])
        invariant
            n <= cs.len(),
            trim_end(cs@.take(n as int)) == trim_end(cs@),
        decreases n,
    {
        assert(cs@.take(n as int).drop_last() =~= cs@.take(n - 1));
        n -= 1;
    }
    head(cs, n)
}

/// The first of the words that white space sets apart.
pub fn first_word_of(cs: &[char]) -> (r: Option<&[char]>)
    ensures
        match r {
            Some(word) => first_word(cs@) == Some(word@),
            None => first_word(cs@) is None,
        },
{
    let rest = trim_chars_start(cs);
    if rest.len() == 0 {
        return None;
    }
    let mut i: usize = 0;
    assert(rest@.take(0) + leading_word(rest@.skip(0)) =~= leading_word(rest@)) by {
        assert(rest@.skip(0) =~= rest@);
    }
    while i < rest.len() && !is_white_space(rest[i])
        invariant
            i <= rest.len(),
            rest@.take(i as int) + leading_word(rest@.skip(i as int)) == leading_word(rest@),
        decreases rest.len() - i,
    {
        assert(rest@.skip(i as int).skip(1) =~= rest@.skip(i + 1));
        assert(rest@.take(i + 1) + leading_word(rest@.skip(i + 1)) =~= rest@.take(i as int) + (seq![
            rest@[i as int],
        ] + leading_word(rest@.skip(i + 1))));
        i += 1;
    }
    assert(rest@.take(i as int) + Seq::<char>::empty() =~= rest@.take(i as int));
    Some(head(rest, i))
}

/// What follows `prefix`, where the characters start with it.
pub fn strip_chars_prefix<'a>(cs: &'a [char], prefix: &str) -> (r: Option<&'a [char]>)
    ensures
        match r {
            Some(rest) => strip_prefix(cs@, prefix@) == Some(rest@),
            None => strip_prefix(cs@, prefix@) is None,
        },
{
    let p = chars_of(prefix);
    if p.len() > cs.len() {
        return None;
    }
    let mut i: usize = 0;
    while i < p.len()
        invariant
            i <= p.len() <= cs.len(),
            p@ == prefix@,
            forall|j: int| 0 <= j < i ==> cs@[j] == p@[j],
        decreases p.len() - i,
    {
        if cs[i] != p[i] {
            assert(!p@.is_prefix_of(cs@)) by {
                if p@.is_prefix_of(cs@) {
                    assert(cs@.subrange(0, p@.len() as int)[i as int] == p@[i as int]);
                }
            }
            return None;
        }
        i += 1;
    }
    assert(cs@.subrange(0, p@.len() as int) =~= p@);
    Some(tail(cs, p.len()))
}

/// Reads a decimal number up to `max`.
fn parse_decimal(cs: &[char], max: u64) -> (r: Option<u64>)
    ensures
        match r {
            Some(n) => decimal(cs@, max as nat) == Some(n as nat),
            None => decimal(cs@, max as nat) is None,
        },
{
    let digits = if cs.len() > 0 && cs[0] == '+' {
        tail(cs, 1)
    } else {
        cs
    };
    if digits.len() == 0 {
        return None;
    }
    let mut n: u64 = 0;
    let mut i: usize = 0;
    while i < digits.len()
        invariant
            i <= digits.len(),
            n <= max,
            n == digits_value(digits@.take(i as int)),
            forall|j: int| 0 <= j < i ==> is_digit(#[trigger] digits@[j]),
            digits@.len() > 0,
            digits@ == without_plus(cs@),
        decreases digits.len() - i,
    {
        let c = digits[i];
        if c < '0' || '9' < c {
            assert(!is_digit(digits@[i as int]));
            assert(!all_digits(digits@));
            return None;
        }
        let d: u64 = c as u64 - '0' as u64;
        proof {
            assert(digits@.take(i + 1).drop_last() =~= digits@.take(i as int));
        }
        assert(digits_value(digits@.take(i + 1)) == n * 10 + d);
        if n > u64::MAX / 10 || n * 10 > u64::MAX - d || n * 10 + d > max {
            proof {
                if all_digits(digits@) {
                    lemma_digits_value_grows(digits@, i + 1);
                }
            }
            return None;
        }
        n = n * 10 + d;
        i += 1;
    }
    assert(digits@.take(i as int) =~= digits@);
    Some(n)
}

/// Reads a decimal number of 64 bits.
pub fn parse_u64(cs: &[char]) -> (r: Option<u64>)
    ensures
        r == decimal_u64(cs@),
{
    parse_decimal(cs, u64::MAX)
}

/// Reads a decimal number of 32 bits.
pub fn parse_u32(cs: &[char]) -> (r: Option<u32>)
    ensures
        r == decimal_u32(cs@),
{
    match parse_decimal(cs, u32::MAX as u64) {
        Some(n) => Some(n as u32),
        None => None,
    }
}

/// Writes a number in decimal.
pub fn decimal_of(n: u32) -> (r: String)
    ensures
        r@ == digits_of(n as nat),
    decreases n,
{
    let mut r = if n < 10 {
        String::new()
    } else {
        decimal_of(n / 10)
    };
    let digit = (48 + (n % 10) as u8) as char;
    r.push(digit);
    assert(r@ =~= digits_of(n as nat));
    r
}

} // verus!
