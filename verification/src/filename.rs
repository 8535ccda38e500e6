//! The names of region files.

use vstd::prelude::*;
use vstd::string::{StringExecFns, StrSliceExecFns};
use crate::region::RegionIndex;

verus! {

/// The character for a digit.
pub open spec fn digit_char(d: int) -> char {
    "0123456789"@[d]
}

/// The decimal digits of a number that is not negative, the one that weighs most first.
pub open spec fn digits(n: nat) -> Seq<char>
    decreases n,
{
    if n < 10 {
        seq![digit_char(n as int)]
    } else {
        digits(n / 10).push(digit_char((n % 10) as int))
    }
}

/// A number written in decimal digits, with a minus sign in front where it is negative.
pub open spec fn decimal(i: int) -> Seq<char> {
    if i < 0 {
        "-"@ + digits((-i) as nat)
    } else {
        digits(i as nat)
    }
}

/// The name of the file of a region: `r.`, the two coordinates of the region's index with a
/// dot between them, and `.sr`.
pub open spec fn filename_of(index: RegionIndex) -> Seq<char> {
    "r."@ + decimal(index.0.x as int) + "."@ + decimal(index.0.y as int) + ".sr"@
}

/// The digits that are still to be written when `rest` is what is left of a number: none
/// where nothing is left.
spec fn digits_left(rest: nat) -> Seq<char> {
    if rest == 0 {
        Seq::empty()
    } else {
        digits(rest)
    }
}

/// The characters of digits that were collected from the last to the first, in the order in
/// which they are written.
spec fn written(collected: Seq<u8>) -> Seq<char> {
    Seq::new(collected.len(), |i: int| digit_char(collected[collected.len() - 1 - i] as int))
}

/// Writes a number in decimal digits behind a text.
pub fn push_decimal(text: &mut String, value: i32)
    ensures
        final(text)@ == old(text)@ + decimal(value as int),
{
    if value < 0 {
        text.append("-");
    }
    let magnitude: i64 = if value < 0 {
        -(value as i64)
    } else {
        value as i64
    };
    let ghost start = text@;
    let mut collected: Vec<u8> = Vec::new();
    let mut rest: i64 = magnitude;
    collected.push((rest % 10) as u8);
    rest = rest / 10;
    assert(digits(magnitude as nat) =~= digits_left(rest as nat) + written(collected@));
    while rest > 0
        invariant
            0 <= rest <= magnitude,
            collected@.len() > 0,
            forall|i: int| 0 <= i < collected@.len() ==> collected@[i] < 10,
            digits(magnitude as nat) == digits_left(rest as nat) + written(collected@),
        decreases rest,
    {
        let ghost before = collected@;
        let ghost left: int = rest as int;
        collected.push((rest % 10) as u8);
        rest = rest / 10;
        proof {
            assert(written(collected@) =~= seq![digit_char(left % 10)] + written(before));
            assert(digits_left(left as nat) =~= digits_left(rest as nat) + seq![
                digit_char(left % 10),
            ]);
            assert(digits(magnitude as nat) =~= digits_left(rest as nat) + written(collected@));
        }
    }
    assert(digits(magnitude as nat) =~= written(collected@));
    let mut k: usize = collected.len();
    assert(text@ =~= start + written(collected@).subrange(0, 0));
    while k > 0
        invariant
            k <= collected@.len(),
            forall|i: int| 0 <= i < collected@.len() ==> collected@[i] < 10,
            text@ == start + written(collected@).subrange(0, collected@.len() - k),
        decreases k,
    {
        k -= 1;
        let d: usize = collected[k] as usize;
        proof {
            reveal_strlit("0123456789");
        }
        let digit: &str = "0123456789".substring_ascii(d, d + 1);
        let ghost before = text@;
        text.append(digit);
        proof {
            assert(digit@ =~= seq![digit_char(d as int)]);
            assert(text@ =~= start + written(collected@).subrange(0, collected@.len() - k));
        }
    }
    proof {
        assert(written(collected@).subrange(0, collected@.len() as int) =~= written(collected@));
        if value < 0 {
            assert(text@ =~= old(text)@ + ("-"@ + digits(magnitude as nat)));
        }
    }
}

/// The name of the file of a region.
pub fn get_filename(index: &RegionIndex) -> (name: String)
    ensures
        name@ == filename_of(*index),
{
    let mut name: String = String::from_str("r.");
    push_decimal(&mut name, index.0.x);
    name.append(".");
    push_decimal(&mut name, index.0.y);
    name.append(".sr");
    name
}

/// The character is one of the ten digits.
pub open spec fn is_digit(c: char) -> bool {
    48 <= c as u32 <= 57
}

/// The number that a row of digits stands for.
pub open spec fn value_of(row: Seq<char>) -> nat
    decreases row.len(),
{
    if row.len() == 0 {
        0
    } else {
        (value_of(row.drop_last()) * 10 + (row.last() as u32 - 48)) as nat
    }
}

/// The number of characters that a number takes when it is written.
pub open spec fn width(number: int) -> int {
    decimal(number).len() as int
}

/// The characters from `start` on are a number written in decimal digits, and behind the
/// number the characters end or go on with something that is no digit.
pub open spec fn number_at(chars: Seq<char>, start: int, number: int) -> bool {
    &&& 0 <= start
    &&& start + width(number) <= chars.len()
    &&& chars.subrange(start, start + width(number)) == decimal(number)
    &&& start + width(number) == chars.len() || !is_digit(chars[start + width(number)])
}

/// The digits of a number are digits, at least one, and stand for the number.
pub proof fn lemma_digits(n: nat)
    ensures
        digits(n).len() >= 1,
        forall|k: int| 0 <= k < digits(n).len() ==> is_digit(#[trigger] digits(n)[k]),
        value_of(digits(n)) == n,
    decreases n,
{
    reveal_strlit("0123456789");
    if n < 10 {
        assert(digits(n).drop_last() =~= Seq::<char>::empty());
        assert(value_of(digits(n).drop_last()) == 0);
    } else {
        lemma_digits(n / 10);
        assert(digits(n).drop_last() =~= digits(n / 10));
    }
}

/// What a file name is made of: `r.`, a number, a dot, a number, and something that
/// starts with a dot.
pub proof fn lemma_filename_shape(index: RegionIndex)
    ensures
        filename_of(index).len() == 6 + width(index.0.x as int) + width(index.0.y as int),
        number_at(filename_of(index), 2, index.0.x as int),
        filename_of(index)[2 + width(index.0.x as int)] == '.',
        number_at(filename_of(index), 3 + width(index.0.x as int), index.0.y as int),
{
    reveal_strlit("r.");
    reveal_strlit(".");
    reveal_strlit(".sr");
    let name = filename_of(index);
    let first = decimal(index.0.x as int);
    let second = decimal(index.0.y as int);
    let a = width(index.0.x as int);
    let b = width(index.0.y as int);
    assert(name.subrange(2, 2 + a) =~= first);
    assert(name.subrange(3 + a, 3 + a + b) =~= second);
    assert(name[2 + a] == '.');
    assert(name[3 + a + b] == '.');
}

/// Reads the digits from `start` on, as far as digits go, and says where they end and what
/// number they stand for, unless the number is greater than 2147483648.
fn scan_number(chars: &Vec<char>, start: usize) -> (found: (usize, Option<u64>))
    requires
        start <= chars@.len(),
    ensures
        start <= found.0 <= chars@.len(),
        forall|k: int| start <= k < found.0 ==> is_digit(#[trigger] chars@[k]),
        found.0 == chars@.len() || !is_digit(chars@[found.0 as int]),
        match found.1 {
            Some(value) => value == value_of(chars@.subrange(start as int, found.0 as int))
                && value <= 2147483648,
            None => value_of(chars@.subrange(start as int, found.0 as int)) > 2147483648,
        },
{
    let mut pos: usize = start;
    let mut value: u64 = 0;
    let mut over: bool = false;
    assert(chars@.subrange(start as int, start as int) =~= Seq::<char>::empty());
    while pos < chars.len() && 48 <= chars[pos] as u32 && chars[pos] as u32 <= 57
        invariant
            start <= pos <= chars@.len(),
            forall|k: int| start <= k < pos ==> is_digit(#[trigger] chars@[k]),
            over ==> value_of(chars@.subrange(start as int, pos as int)) > 2147483648,
            !over ==> value == value_of(chars@.subrange(start as int, pos as int)) && value
                <= 2147483648,
        decreases chars@.len() - pos,
    {
        let digit: u64 = (chars[pos] as u32 - 48) as u64;
        proof {
            let grown = chars@.subrange(start as int, pos + 1);
            assert(grown.drop_last() =~= chars@.subrange(start as int, pos as int));
            assert(grown.last() == chars@[pos as int]);
        }
        if !over {
            value = value * 10 + digit;
            if value > 2147483648 {
                over = true;
            }
        }
        pos += 1;
    }
    if over {
        (pos, None)
    } else {
        (pos, Some(value))
    }
}

/// Reads the number that is written from `start` on, and says where it ends.
fn read_number(chars: &Vec<char>, start: usize) -> (found: Option<(i32, usize)>)
    requires
        start < chars@.len(),
    ensures
        forall|number: i32| #[trigger]
            number_at(chars@, start as int, number as int) ==> found == Some(
                (number, (start + width(number as int)) as usize),
            ),
{
    let len: usize = chars.len();
    let negative: bool = chars[start] == '-';
    let first: usize = if negative {
        start + 1
    } else {
        start
    };
    let (end, value) = scan_number(chars, first);
    let found: Option<(i32, usize)> = if end == first {
        None
    } else {
        match value {
            None => None,
            Some(n) => if negative {
                Some(((-(n as i64)) as i32, end))
            } else if n > 2147483647 {
                None
            } else {
                Some((n as i32, end))
            },
        }
    };
    proof {
        assert forall|number: i32| #[trigger]
            number_at(chars@, start as int, number as int) implies found == Some(
            (number, (start + width(number as int)) as usize),
        ) by {
            reveal_strlit("-");
            let size: nat = if number < 0 {
                (-number) as nat
            } else {
                number as nat
            };
            lemma_digits(size);
            let written = decimal(number as int);
            let row = digits(size);
            assert(chars@[start as int] == written[0]);
            if number < 0 {
                assert(written[0] == '-');
                assert(written.subrange(1, written.len() as int) =~= row);
            } else {
                assert(is_digit(row[0]));
            }
            assert(chars@.subrange(first as int, first + row.len()) =~= row);
            assert forall|k: int| first <= k < first + row.len() implies is_digit(chars@[k]) by {
                assert(chars@[k] == row[k - first]);
            }
            if end < first + row.len() {
                assert(is_digit(chars@[end as int]));
            }
            if end > first + row.len() {
                assert(is_digit(chars@[first + row.len()]));
            }
            assert(end == first + row.len());
        }
    }
    found
}

/// The index that a file name may stand for: the index of a region wherever the name is
/// that of a region's file.
fn candidate(chars: &Vec<char>) -> (found: Option<RegionIndex>)
    ensures
        forall|index: RegionIndex| chars@ == #[trigger] filename_of(index) ==> found == Some(index),
{
    let found: Option<RegionIndex> = if chars.len() < 3 {
        None
    } else {
        match read_number(chars, 2) {
            None => None,
            Some((x, end)) => if end >= chars.len() || end + 1 >= chars.len() {
                None
            } else {
                match read_number(chars, end + 1) {
                    None => None,
                    Some((y, _)) => Some(RegionIndex::new(x, y)),
                }
            },
        }
    };
    proof {
        assert forall|index: RegionIndex| chars@ == #[trigger] filename_of(index) implies found
            == Some(index) by {
            lemma_filename_shape(index);
            lemma_digits(0);
            assert(number_at(chars@, 2, index.0.x as int));
            let dot = 2 + width(index.0.x as int);
            assert(number_at(chars@, dot + 1, index.0.y as int));
        }
    }
    found
}

/// The characters of a text.
fn characters(text: &str) -> (chars: Vec<char>)
    ensures
        chars@ == text@,
{
    let len: usize = text.unicode_len();
    let mut chars: Vec<char> = Vec::new();
    let mut i: usize = 0;
    while i < len
        invariant
            i <= len,
            len == text@.len(),
            chars@ == text@.subrange(0, i as int),
        decreases len - i,
    {
        chars.push(text.get_char(i));
        assert(chars@ =~= text@.subrange(0, i + 1));
        i += 1;
    }
    assert(text@.subrange(0, len as int) =~= text@);
    chars
}

/// The index of the region whose file has the given name; none where the name is that of
/// no region's file.
pub fn parse_filename(name: &str) -> (index: Option<RegionIndex>)
    ensures
        index matches Some(i) ==> name@ == filename_of(i),
        index is None ==> forall|i: RegionIndex| name@ != #[trigger] filename_of(i),
{
    let chars: Vec<char> = characters(name);
    match candidate(&chars) {
        Some(found) => {
            let made: String = get_filename(&found);
            let given: String = String::from_str(name);
            if made == given {
                Some(found)
            } else {
                None
            }
        },
        None => None,
    }
}

} // verus!
