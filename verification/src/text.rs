//! Text: its characters, the numbers and coordinates that it writes, and
//! numbers written back as text.

use vstd::prelude::*;
use vstd::string::StringExecFns;
use crate::types::Coordinate;

verus! {

/// The characters of `s`, in order.
pub fn chars_of(s: &str) -> (v: Vec<char>)
    ensures
        v@ == s@,
{
    let mut v: Vec<char> = Vec::new();
    for c in it: s.chars()
        invariant
            it.seq() == s@,
            v@ == it.seq().take(it.index() as int),
    {
        v.push(c);
    }
    v
}

/// Whether `c` is one of the ten ASCII digits.
pub open spec fn is_digit(c: char) -> bool {
    '0' <= c && c <= '9'
}

/// The value of the digit `c`.
pub open spec fn digit_value(c: char) -> nat
    recommends
        is_digit(c),
{
    (c as u32 - '0' as u32) as nat
}

/// Whether `s` is made of ASCII digits only.
pub open spec fn all_digits(s: Seq<char>) -> bool {
    forall|i: int| 0 <= i < s.len() ==> is_digit(#[trigger] s[i])
}

/// The number that the digits `s` write in base ten; 0 for no digits.
pub open spec fn digits_value(s: Seq<char>) -> nat
    decreases s.len(),
{
    if s.len() == 0 {
        0
    } else {
        digits_value(s.drop_last()) * 10 + digit_value(s.last())
    }
}

/// The digits of `s` once an optional leading `+` is taken off.
pub open spec fn unsigned_part(s: Seq<char>) -> Seq<char> {
    if s.len() > 0 && s[0] == '+' {
        s.skip(1)
    } else {
        s
    }
}

/// The number that `s` writes: an optional `+`, then one or more ASCII
/// digits whose value fits 32 bits. Anything else writes no number.
pub open spec fn number_of(s: Seq<char>) -> Option<u32> {
    let d = unsigned_part(s);
    if d.len() > 0 && all_digits(d) && digits_value(d) <= u32::MAX {
        Some(digits_value(d) as u32)
    } else {
        None
    }
}

/// Adding digits never makes the value smaller.
pub proof fn lemma_digits_value_grows(s: Seq<char>, k: int)
    requires
        0 <= k <= s.len(),
    ensures
        digits_value(s.take(k)) <= digits_value(s),
    decreases s.len() - k,
{
    if k == s.len() {
        assert(s.take(k) =~= s);
    } else {
        lemma_digits_value_grows(s, k + 1);
        assert(s.take(k + 1).drop_last() =~= s.take(k));
    }
}

/// Reads the number that the characters `chars[from..to]` write.
pub fn parse_number(chars: &Vec<char>, from: usize, to: usize) -> (r: Option<u32>)
    requires
        from <= to <= chars.len(),
    ensures
        r == number_of(chars@.subrange(from as int, to as int)),
{
    let ghost s = chars@.subrange(from as int, to as int);
    let mut start: usize = from;
    if from < to && chars[from] == '+' {
        start = from + 1;
    }
    let ghost d = unsigned_part(s);
    assert(d =~= chars@.subrange(start as int, to as int));
    if start == to {
        return None;
    }
    let mut value: u64 = 0;
    let mut i: usize = start;
    assert(d.take(0) =~= Seq::<char>::empty());
    while i < to
        invariant
            start <= i <= to <= chars.len(),
            d == chars@.subrange(start as int, to as int),
            d == unsigned_part(chars@.subrange(from as int, to as int)),
            d.len() > 0,
            all_digits(d.take(i - start)),
            value == digits_value(d.take(i - start)),
            value <= u32::MAX,
        decreases to - i,
    {
        let c: char = chars[i];
        assert(d[i - start] == c);
        if c < '0' || c > '9' {
            assert(!all_digits(d));
            return None;
        }
        let digit: u64 = (c as u32 - '0' as u32) as u64;
        let next: u64 = value * 10 + digit;
        proof {
            let t = d.take(i - start + 1);
            assert(t.drop_last() =~= d.take(i - start));
            assert(t.last() == c);
            assert(next == digits_value(t));
            assert forall|j: int| 0 <= j < t.len() implies is_digit(#[trigger] t[j]) by {
                if j < i - start {
                    assert(d.take(i - start)[j] == t[j]);
                }
            }
        }
        if next > 0xffff_ffff {
            proof {
                lemma_digits_value_grows(d, i - start + 1);
            }
            return None;
        }
        value = next;
        i += 1;
    }
    assert(d.take(i - start) =~= d);
    Some(value as u32)
}

/// Reads the number that `s` writes.
pub fn parse_u32(s: &str) -> (r: Option<u32>)
    ensures
        r == number_of(s@),
{
    let chars = chars_of(s);
    assert(chars@.subrange(0, chars@.len() as int) =~= chars@);
    parse_number(&chars, 0, chars.len())
}

/// The digits that write `n` in base ten, without leading zeros; `0` is
/// written as one digit.
pub open spec fn decimal(n: nat) -> Seq<char>
    decreases n,
{
    if n < 10 {
        seq![digit_char(n)]
    } else {
        decimal(n / 10).push(digit_char(n % 10))
    }
}

/// The digit that writes `d`, for `d` below ten.
pub open spec fn digit_char(d: nat) -> char {
    if d == 0 {
        '0'
    } else if d == 1 {
        '1'
    } else if d == 2 {
        '2'
    } else if d == 3 {
        '3'
    } else if d == 4 {
        '4'
    } else if d == 5 {
        '5'
    } else if d == 6 {
        '6'
    } else if d == 7 {
        '7'
    } else if d == 8 {
        '8'
    } else {
        '9'
    }
}

/// The one-character text of the digit `d`.
fn digit_text(d: usize) -> (r: &'static str)
    requires
        d < 10,
    ensures
        r@ == seq![digit_char(d as nat)],
{
    proof {
        reveal_strlit("0");
        reveal_strlit("1");
        reveal_strlit("2");
        reveal_strlit("3");
        reveal_strlit("4");
        reveal_strlit("5");
        reveal_strlit("6");
        reveal_strlit("7");
        reveal_strlit("8");
        reveal_strlit("9");
    }
    let r = if d == 0 {
        "0"
    } else if d == 1 {
        "1"
    } else if d == 2 {
        "2"
    } else if d == 3 {
        "3"
    } else if d == 4 {
        "4"
    } else if d == 5 {
        "5"
    } else if d == 6 {
        "6"
    } else if d == 7 {
        "7"
    } else if d == 8 {
        "8"
    } else {
        "9"
    };
    assert(r@ =~= seq![digit_char(d as nat)]);
    r
}

/// Writes `n` in base ten.
pub fn decimal_text(n: usize) -> (r: String)
    ensures
        r@ == decimal(n as nat),
    decreases n,
{
    if n < 10 {
        String::from_str(digit_text(n))
    } else {
        let mut r = decimal_text(n / 10);
        r.append(digit_text(n % 10));
        assert(r@ =~= decimal(n as nat));
        r
    }
}

/// Whether two texts are the same.
pub fn same_text(a: &str, b: &str) -> (r: bool)
    ensures
        r == (a@ == b@),
{
    String::from_str(a) == String::from_str(b)
}

/// Whether `c` is written around a coordinate without being part of it: a
/// bracket or a blank.
pub open spec fn is_padding(c: char) -> bool {
    c == '(' || c == ')' || c == ' '
}

/// The test by which [`without_padding`] keeps a character.
pub open spec fn not_padding() -> spec_fn(char) -> bool {
    |c: char| !is_padding(c)
}

/// `s` with every bracket and blank taken out.
pub open spec fn without_padding(s: Seq<char>) -> Seq<char> {
    s.filter(not_padding())
}

/// The length of the first field of `s`: the number of characters before
/// its first comma, or all of them where it has none.
pub open spec fn field_end(s: Seq<char>) -> int
    decreases s.len(),
{
    if s.len() == 0 || s[0] == ',' {
        0
    } else {
        1 + field_end(s.drop_first())
    }
}

/// The coordinate that `s` writes: once brackets and blanks are taken out,
/// two fields at least, set apart by commas, of which the first two each
/// write a number. Fields behind the second are not looked at.
pub open spec fn coordinate_of(s: Seq<char>) -> Option<Coordinate> {
    let t = without_padding(s);
    let a = field_end(t);
    if a >= t.len() {
        None
    } else {
        let rest = t.skip(a + 1);
        match (number_of(t.take(a)), number_of(rest.take(field_end(rest)))) {
            (Some(x), Some(y)) => Some(Coordinate { x, y }),
            _ => None,
        }
    }
}

/// Takes every bracket and blank out of a list of characters.
fn strip_padding(chars: &Vec<char>) -> (kept: Vec<char>)
    ensures
        kept@ == without_padding(chars@),
{
    let mut kept: Vec<char> = Vec::new();
    let mut i: usize = 0;
    assert(chars@.take(0) =~= Seq::<char>::empty());
    while i < chars.len()
        invariant
            i <= chars.len(),
            kept@ == without_padding(chars@.take(i as int)),
        decreases chars.len() - i,
    {
        let c: char = chars[i];
        proof {
            assert(chars@.take(i + 1) =~= chars@.take(i as int).push(c));
            chars@.take(i as int).lemma_filter_push(c, not_padding());
        }
        if !(c == '(' || c == ')' || c == ' ') {
            kept.push(c);
        }
        i += 1;
    }
    assert(chars@.take(i as int) =~= chars@);
    kept
}

/// Finds the end of the field that starts at `from`.
fn find_field_end(chars: &Vec<char>, from: usize) -> (end: usize)
    requires
        from <= chars.len(),
    ensures
        from <= end <= chars.len(),
        end - from == field_end(chars@.skip(from as int)),
{
    let mut end: usize = from;
    while end < chars.len() && chars[end] != ','
        invariant
            from <= end <= chars.len(),
            field_end(chars@.skip(from as int)) == end - from + field_end(chars@.skip(end as int)),
        decreases chars.len() - end,
    {
        assert(chars@.skip(end as int)[0] == chars@[end as int]);
        assert(chars@.skip(end as int).drop_first() =~= chars@.skip(end + 1));
        end += 1;
    }
    proof {
        if end < chars.len() {
            assert(chars@.skip(end as int)[0] == chars@[end as int]);
        }
    }
    end
}

/// Reads the coordinate that `text` writes.
pub fn parse_string_to_coordinate(text: &str) -> (r: Option<Coordinate>)
    ensures
        r == coordinate_of(text@),
{
    let chars = chars_of(text);
    let kept = strip_padding(&chars);
    assert(kept@.skip(0) =~= kept@);
    let a = find_field_end(&kept, 0);
    if a >= kept.len() {
        return None;
    }
    let b = find_field_end(&kept, a + 1);
    proof {
        let rest = kept@.skip(a + 1);
        assert(kept@.take(a as int) =~= kept@.subrange(0, a as int));
        assert(rest.take(field_end(rest)) =~= kept@.subrange(a + 1, b as int));
    }
    let x = parse_number(&kept, 0, a);
    let y = parse_number(&kept, a + 1, b);
    match (x, y) {
        (Some(x), Some(y)) => Some(Coordinate { x, y }),
        _ => None,
    }
}

} // verus!
