//! Names of the files of a segment: the decimal offset label and the paths
//! built from it.

use vstd::prelude::*;
use vstd::string::StrSliceExecFns;
use vstd::string::StringExecFns;

verus! {

/// The suffix of a log file's name.
pub open spec fn log_suffix() -> Seq<char> {
    seq!['.', 'l', 'o', 'g']
}

/// The suffix of an index file's name.
pub open spec fn index_suffix() -> Seq<char> {
    seq!['.', 'i', 'n', 'd', 'e', 'x']
}

/// The decimal digit `d` as a character.
pub open spec fn digit_char(d: int) -> char
    recommends
        0 <= d <= 9,
{
    if d == 0 {
        '0'
    } else if d == 1 {
        '1'
    } else if d == 2 {
        '2'
    } else if d == 3 {
        '3'
    } else if d == 4 {
        '4'
    } else if d == 5 {
        '5'
    } else if d == 6 {
        '6'
    } else if d == 7 {
        '7'
    } else if d == 8 {
        '8'
    } else {
        '9'
    }
}

/// Whether `c` is one of the ten decimal digits.
pub open spec fn is_digit(c: char) -> bool {
    48 <= c as u32 <= 57
}

/// The number that a digit character stands for.
pub open spec fn digit_value(c: char) -> int
    recommends
        is_digit(c),
{
    c as u32 as int - 48
}

/// The label of the segment that starts at `offset`: five decimal digits,
/// padded with zeros on the left.
pub open spec fn label_of(offset: u16) -> Seq<char> {
    seq![
        digit_char(offset as int / 10000),
        digit_char(offset as int / 1000 % 10),
        digit_char(offset as int / 100 % 10),
        digit_char(offset as int / 10 % 10),
        digit_char(offset as int % 10),
    ]
}

/// The path of the file that holds the part named by `suffix` of the segment
/// that starts at `offset`, within `directory`.
pub open spec fn segment_file_name(directory: Seq<char>, offset: u16, suffix: Seq<char>) -> Seq<
    char,
> {
    directory + seq!['/'] + label_of(offset) + suffix
}

/// Whether every character of `s` is a decimal digit.
pub open spec fn all_digits(s: Seq<char>) -> bool {
    forall|i: int| 0 <= i < s.len() ==> is_digit(#[trigger] s[i])
}

/// The number that a sequence of digits states in base ten.
pub open spec fn digits_value(s: Seq<char>) -> int
    decreases s.len(),
{
    if s.len() == 0 {
        0
    } else {
        10 * digits_value(s.drop_last()) + digit_value(s.last())
    }
}

/// The digits of a label: the label without a leading plus sign.
pub open spec fn label_digits(label: Seq<char>) -> Seq<char> {
    if label.len() > 0 && label[0] == '+' {
        label.skip(1)
    } else {
        label
    }
}

/// The offset that a label states: an optional plus sign, then one or more
/// decimal digits whose value fits in 16 bits. Any other text states none.
pub open spec fn parse_label(label: Seq<char>) -> Option<u16> {
    let digits = label_digits(label);
    if digits.len() > 0 && all_digits(digits) && digits_value(digits) <= u16::MAX {
        Some(digits_value(digits) as u16)
    } else {
        None
    }
}

/// A longer run of digits states no smaller a number than its prefix.
pub proof fn lemma_digits_value_grows(s: Seq<char>, k: int)
    requires
        all_digits(s),
        0 <= k <= s.len(),
    ensures
        0 <= digits_value(s.take(k)) <= digits_value(s),
    decreases s.len() - k,
{
    if k == s.len() {
        assert(s.take(k) =~= s);
        lemma_digits_value_nonnegative(s);
    } else {
        lemma_digits_value_grows(s, k + 1);
        assert(s.take(k + 1).drop_last() =~= s.take(k));
        lemma_digits_value_nonnegative(s.take(k));
    }
}

/// A run of digits states a number that is not negative.
pub proof fn lemma_digits_value_nonnegative(s: Seq<char>)
    requires
        all_digits(s),
    ensures
        0 <= digits_value(s),
    decreases s.len(),
{
    if s.len() > 0 {
        lemma_digits_value_nonnegative(s.drop_last());
    }
}

/// The label of an offset states that offset.
pub proof fn lemma_label_round_trip(offset: u16)
    ensures
        parse_label(label_of(offset)) == Some(offset),
{
    let l = label_of(offset);
    let x = offset as int;
    assert(label_digits(l) == l);
    assert(all_digits(l));
    assert(l.drop_last() =~= seq![l[0], l[1], l[2], l[3]]);
    assert(l.drop_last().drop_last() =~= seq![l[0], l[1], l[2]]);
    assert(l.drop_last().drop_last().drop_last() =~= seq![l[0], l[1]]);
    assert(l.drop_last().drop_last().drop_last().drop_last() =~= seq![l[0]]);
    assert(seq![l[0]].drop_last() =~= Seq::<char>::empty());
    reveal_with_fuel(digits_value, 6);
    assert(digits_value(seq![l[0]]) == x / 10000);
    assert(digits_value(seq![l[0], l[1]]) == x / 1000);
    assert(digits_value(seq![l[0], l[1], l[2]]) == x / 100);
    assert(digits_value(seq![l[0], l[1], l[2], l[3]]) == x / 10);
    assert(digits_value(l) == x);
}

/// The text of one decimal digit.
pub fn digit_text(d: u16) -> (text: &'static str)
    requires
        d <= 9,
    ensures
        text@ == seq![digit_char(d as int)],
{
    proof {
        reveal_strlit("0");
        reveal_strlit("1");
        reveal_strlit("2");
        reveal_strlit("3");
        reveal_strlit("4");
        reveal_strlit("5");
        reveal_strlit("6");
        reveal_strlit("7");
        reveal_strlit("8");
        reveal_strlit("9");
    }
    let text = if d == 0 {
        "0"
    } else if d == 1 {
        "1"
    } else if d == 2 {
        "2"
    } else if d == 3 {
        "3"
    } else if d == 4 {
        "4"
    } else if d == 5 {
        "5"
    } else if d == 6 {
        "6"
    } else if d == 7 {
        "7"
    } else if d == 8 {
        "8"
    } else {
        "9"
    };
    assert(text@ =~= seq![digit_char(d as int)]);
    text
}

/// The label of the segment that starts at `offset`.
pub fn segment_label(offset: u16) -> (label: String)
    ensures
        label@ == label_of(offset),
{
    let mut label = String::from_str(digit_text(offset / 10000));
    label.append(digit_text(offset / 1000 % 10));
    label.append(digit_text(offset / 100 % 10));
    label.append(digit_text(offset / 10 % 10));
    label.append(digit_text(offset % 10));
    assert(label@ =~= label_of(offset));
    label
}

/// The path of the log file of the segment that starts at `offset`.
pub fn log_file_name(directory: &str, offset: u16) -> (name: String)
    ensures
        name@ == segment_file_name(directory@, offset, log_suffix()),
{
    proof {
        reveal_strlit("/");
        reveal_strlit(".log");
    }
    let mut name = String::from_str(directory);
    name.append("/");
    name.append(segment_label(offset).as_str());
    name.append(".log");
    assert("/"@ =~= seq!['/']);
    assert(".log"@ =~= log_suffix());
    name
}

/// The path of the index file of the segment that starts at `offset`.
pub fn index_file_name(directory: &str, offset: u16) -> (name: String)
    ensures
        name@ == segment_file_name(directory@, offset, index_suffix()),
{
    proof {
        reveal_strlit("/");
        reveal_strlit(".index");
    }
    let mut name = String::from_str(directory);
    name.append("/");
    name.append(segment_label(offset).as_str());
    name.append(".index");
    assert("/"@ =~= seq!['/']);
    assert(".index"@ =~= index_suffix());
    name
}

/// Reads the offset that a label states.
pub fn parse_offset_label(label: &str) -> (offset: Option<u16>)
    ensures
        offset == parse_label(label@),
{
    let count: usize = label.unicode_len();
    if count == 0 {
        return None;
    }
    let first: usize = if label.get_char(0) == '+' {
        1
    } else {
        0
    };
    if first == count {
        return None;
    }
    let ghost digits = label_digits(label@);
    assert(digits =~= label@.skip(first as int));
    let mut value: u32 = 0;
    let mut at: usize = first;
    while at < count
        invariant
            first <= at <= count,
            count == label@.len(),
            digits == label@.skip(first as int),
            digits == label_digits(label@),
            all_digits(digits.take(at - first)),
            value == digits_value(digits.take(at - first)),
            value <= u16::MAX,
        decreases count - at,
    {
        let code: u32 = label.get_char(at) as u32;
        let ghost k = at - first;
        assert(digits[k] == label@[at as int]);
        if code < 48 || code > 57 {
            assert(!is_digit(digits[k]));
            return None;
        }
        let next: u32 = 10 * value + (code - 48);
        proof {
            assert(digits.take(k + 1).drop_last() =~= digits.take(k));
            assert(digits.take(k + 1).last() == digits[k]);
            assert(all_digits(digits.take(k + 1))) by {
                assert forall|i: int| 0 <= i < k + 1 implies is_digit(
                    #[trigger] digits.take(k + 1)[i],
                ) by {
                    if i < k {
                        assert(digits.take(k)[i] == digits[i]);
                    }
                }
            }
        }
        if next > 65535 {
            proof {
                if all_digits(digits) {
                    lemma_digits_value_grows(digits, k + 1);
                }
            }
            return None;
        }
        value = next;
        at = at + 1;
    }
    assert(digits.take(at - first) =~= digits);
    Some(value as u16)
}

/// Whether `name` ends with `suffix`.
pub open spec fn ends_with(name: Seq<char>, suffix: Seq<char>) -> bool {
    name.len() >= suffix.len() && name.skip(name.len() - suffix.len()) == suffix
}

/// The label of the segment whose log file is named `file_name`: the name
/// without the suffix of log files. A file of another name is no log file.
pub open spec fn log_label(file_name: Seq<char>) -> Option<Seq<char>> {
    if ends_with(file_name, log_suffix()) {
        Some(file_name.take(file_name.len() - log_suffix().len()))
    } else {
        None
    }
}

/// Reads the label of a segment from the name of its log file, without the
/// directory; `None` for a file that is no log file.
pub fn log_file_label(file_name: &str) -> (label: Option<String>)
    ensures
        match label {
            Some(text) => log_label(file_name@) == Some(text@),
            None => log_label(file_name@) is None,
        },
{
    let count: usize = file_name.unicode_len();
    if count < 4 {
        return None;
    }
    let stem: usize = count - 4;
    let ghost tail = file_name@.skip(stem as int);
    if file_name.get_char(stem) != '.' || file_name.get_char(stem + 1) != 'l'
        || file_name.get_char(stem + 2) != 'o' || file_name.get_char(stem + 3) != 'g' {
        assert(tail[0] == file_name@[stem as int]);
        assert(tail[1] == file_name@[stem + 1]);
        assert(tail[2] == file_name@[stem + 2]);
        assert(tail[3] == file_name@[stem + 3]);
        return None;
    }
    assert(tail =~= log_suffix());
    let label = file_name.substring_char(0, stem);
    assert(label@ =~= file_name@.take(stem as int));
    Some(String::from_str(label))
}

} // verus!
