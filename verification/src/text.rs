//! Text as sequences of characters: the spelling of a neighbour descriptor and of a label.
use vstd::prelude::*;

verus! {

/// The characters of a string, in order.
pub fn chars_of(s: &str) -> (chars: Vec<char>)
    ensures
        chars@ == s@,
{
    let n: usize = s.unicode_len();
    let mut chars: Vec<char> = Vec::new();
    let mut i: usize = 0;
    while i < n
        invariant
            n == s@.len(),
            i <= n,
            chars@ == s@.subrange(0, i as int),
        decreases n - i,
    {
        chars.push(s.get_char(i));
        i = i + 1;
        assert(chars@ =~= s@.subrange(0, i as int));
    }
    assert(chars@ =~= s@);
    chars
}

/// Whether the stretch `[from, to)` of `text` spells `word`.
pub fn spells(text: &Vec<char>, from: usize, to: usize, word: &Vec<char>) -> (same: bool)
    requires
        from <= to <= text.len(),
    ensures
        same == (text@.subrange(from as int, to as int) == word@),
{
    if to - from != word.len() {
        return false;
    }
    let n: usize = word.len();
    let mut k: usize = 0;
    while k < n
        invariant
            from <= to <= text.len(),
            n == word.len(),
            n == to - from,
            k <= n,
            forall|j: int| 0 <= j < k ==> text[from + j] == word[j],
        decreases n - k,
    {
        if text[from + k] != word[k] {
            assert(text@.subrange(from as int, to as int)[k as int] != word@[k as int]);
            return false;
        }
        k = k + 1;
    }
    assert(text@.subrange(from as int, to as int) =~= word@);
    true
}

/// The position of the first space of `s` at or after `from`, or the length of `s` if there
/// is none.
pub open spec fn spec_find_space(s: Seq<char>, from: int) -> int
    decreases s.len() - from,
{
    if from >= s.len() {
        s.len() as int
    } else if s[from] == ' ' {
        from
    } else {
        spec_find_space(s, from + 1)
    }
}

pub fn find_space(s: &Vec<char>, from: usize) -> (at: usize)
    requires
        from <= s.len(),
    ensures
        at == spec_find_space(s@, from as int),
        from <= at <= s.len(),
        at < s.len() ==> s[at as int] == ' ',
        forall|k: int| from <= k < at ==> s[k] != ' ',
{
    let mut at: usize = from;
    while at < s.len() && s[at] != ' '
        invariant
            from <= at <= s.len(),
            spec_find_space(s@, from as int) == spec_find_space(s@, at as int),
            forall|k: int| from <= k < at ==> s[k] != ' ',
        decreases s.len() - at,
    {
        at = at + 1;
    }
    at
}

/// The value of a decimal digit, and -1 for any other character.
pub open spec fn spec_digit(c: char) -> int {
    if '0' <= c <= '9' {
        c as int - '0' as int
    } else {
        -1
    }
}

pub fn digit(c: char) -> (value: Option<usize>)
    ensures
        value matches Some(v) ==> v == spec_digit(c) && v < 10,
        value is None ==> spec_digit(c) == -1,
{
    let code: u32 = c as u32;
    if 48 <= code && code <= 57 {
        Some((code - 48) as usize)
    } else {
        None
    }
}

/// Whether every character of `t` is a decimal digit.
pub open spec fn all_digits(t: Seq<char>) -> bool {
    forall|k: int| 0 <= k < t.len() ==> spec_digit(#[trigger] t[k]) >= 0
}

/// The number that the digits `t` spell in base ten.
pub open spec fn spec_decimal(t: Seq<char>) -> int
    decreases t.len(),
{
    if t.len() == 0 {
        0
    } else {
        spec_decimal(t.drop_last()) * 10 + spec_digit(t.last())
    }
}

/// The digits of a number: the text without one leading plus sign.
pub open spec fn unsigned_part(t: Seq<char>) -> Seq<char> {
    if t.len() > 0 && t[0] == '+' {
        t.drop_first()
    } else {
        t
    }
}

/// The index that `t` spells: one or more decimal digits, after an optional plus sign, whose
/// value fits the machine word. Any other text spells none.
pub open spec fn spec_parse_index(t: Seq<char>) -> Option<usize> {
    let digits = unsigned_part(t);
    if digits.len() > 0 && all_digits(digits) && spec_decimal(digits) <= usize::MAX {
        Some(spec_decimal(digits) as usize)
    } else {
        None
    }
}

/// A number is at least the number that a prefix of its digits spells.
pub proof fn lemma_decimal_grows(t: Seq<char>, n: int)
    requires
        all_digits(t),
        0 <= n <= t.len(),
    ensures
        0 <= spec_decimal(t.subrange(0, n)) <= spec_decimal(t),
    decreases t.len() - n,
{
    if n == t.len() {
        assert(t.subrange(0, n) =~= t);
        lemma_decimal_nonnegative(t);
    } else {
        let longer = t.subrange(0, n + 1);
        assert(longer.drop_last() =~= t.subrange(0, n));
        assert(longer.last() == t[n]);
        lemma_decimal_nonnegative(t.subrange(0, n));
        lemma_decimal_grows(t, n + 1);
    }
}

/// The number that digits spell is not negative.
pub proof fn lemma_decimal_nonnegative(t: Seq<char>)
    requires
        all_digits(t),
    ensures
        0 <= spec_decimal(t),
    decreases t.len(),
{
    if t.len() > 0 {
        assert(t.last() == t[t.len() - 1]);
        lemma_decimal_nonnegative(t.drop_last());
    }
}

/// Reads the index that the stretch `[from, to)` of `text` spells.
pub fn parse_index(text: &Vec<char>, from: usize, to: usize) -> (index: Option<usize>)
    requires
        from <= to <= text.len(),
    ensures
        index == spec_parse_index(text@.subrange(from as int, to as int)),
{
    let ghost whole = text@.subrange(from as int, to as int);
    let start: usize = if from < to && text[from] == '+' {
        from + 1
    } else {
        from
    };
    let ghost digits = unsigned_part(whole);
    assert(digits =~= text@.subrange(start as int, to as int));
    if start == to {
        return None;
    }
    let mut value: usize = 0;
    let mut k: usize = start;
    while k < to
        invariant
            from <= start <= k <= to <= text.len(),
            start < to,
            digits == text@.subrange(start as int, to as int),
            digits == unsigned_part(text@.subrange(from as int, to as int)),
            all_digits(digits.subrange(0, k - start)),
            value == spec_decimal(digits.subrange(0, k - start)),
        decreases to - k,
    {
        let ghost before = digits.subrange(0, k - start);
        let ghost after = digits.subrange(0, k - start + 1);
        assert(after.drop_last() =~= before);
        assert(after.last() == text[k as int]);
        match digit(text[k]) {
            None => {
                assert(spec_digit(digits[k - start]) < 0);
                return None;
            },
            Some(d) => {
                assert(all_digits(after)) by {
                    assert forall|j: int| 0 <= j < after.len() implies spec_digit(
                        #[trigger] after[j],
                    ) >= 0 by {
                        if j < before.len() {
                            assert(after[j] == before[j]);
                        }
                    }
                }
                if value > (usize::MAX - d) / 10 {
                    proof {
                        assert(spec_decimal(after) == value * 10 + d);
                        if all_digits(digits) {
                            lemma_decimal_grows(digits, k - start + 1);
                        }
                    }
                    return None;
                }
                value = value * 10 + d;
            },
        }
        k = k + 1;
    }
    assert(digits.subrange(0, to - start) =~= digits);
    Some(value)
}

/// The decimal digit of a number below ten.
pub open spec fn spec_digit_char(d: int) -> char {
    (('0' as int) + d) as char
}

/// The decimal spelling of a number, without leading zeros.
pub open spec fn spec_decimal_text(n: int) -> Seq<char>
    decreases n,
{
    if n < 10 {
        seq![spec_digit_char(n)]
    } else {
        spec_decimal_text(n / 10).push(spec_digit_char(n % 10))
    }
}

/// The text of one decimal digit.
fn digit_text(d: usize) -> (text: &'static str)
    requires
        d < 10,
    ensures
        text@ == seq![spec_digit_char(d as int)],
{
    let text: &'static str = if d == 0 {
        "0"
    } else if d == 1 {
        "1"
    } else if d == 2 {
        "2"
    } else if d == 3 {
        "3"
    } else if d == 4 {
        "4"
    } else if d == 5 {
        "5"
    } else if d == 6 {
        "6"
    } else if d == 7 {
        "7"
    } else if d == 8 {
        "8"
    } else {
        "9"
    };
    proof {
        reveal_strlit("0");
        reveal_strlit("1");
        reveal_strlit("2");
        reveal_strlit("3");
        reveal_strlit("4");
        reveal_strlit("5");
        reveal_strlit("6");
        reveal_strlit("7");
        reveal_strlit("8");
        reveal_strlit("9");
        assert(text@ =~= seq![spec_digit_char(d as int)]);
    }
    text
}

/// Appends the decimal spelling of `n` to `text`.
pub fn append_decimal(text: &mut String, n: usize)
    ensures
        final(text)@ == old(text)@ + spec_decimal_text(n as int),
    decreases n,
{
    if n >= 10 {
        append_decimal(text, n / 10);
    }
    let ghost before = text@;
    text.append(digit_text(n % 10));
    proof {
        if n >= 10 {
            assert(text@ =~= old(text)@ + spec_decimal_text(n as int));
        } else {
            assert(text@ =~= old(text)@ + spec_decimal_text(n as int));
        }
    }
}

/// The label of orientation `i` of the tile called `stem`: the stem, a space and the digit.
pub open spec fn spec_label(stem: Seq<char>, i: int) -> Seq<char> {
    stem + seq![' ', (('0' as int) + i) as char]
}

pub fn label(stem: &str, i: usize) -> (text: String)
    requires
        i < 8,
    ensures
        text@ == spec_label(stem@, i as int),
{
    let digit: &str = if i == 0 {
        " 0"
    } else if i == 1 {
        " 1"
    } else if i == 2 {
        " 2"
    } else if i == 3 {
        " 3"
    } else if i == 4 {
        " 4"
    } else if i == 5 {
        " 5"
    } else if i == 6 {
        " 6"
    } else {
        " 7"
    };
    proof {
        reveal_strlit(" 0");
        reveal_strlit(" 1");
        reveal_strlit(" 2");
        reveal_strlit(" 3");
        reveal_strlit(" 4");
        reveal_strlit(" 5");
        reveal_strlit(" 6");
        reveal_strlit(" 7");
        assert(digit@ =~= seq![' ', (('0' as int) + i) as char]);
    }
    String::from_str(stem).concat(digit)
}

} // verus!
