//! Words and numbers as the tables of doors and rooms write them.

use vstd::prelude::*;
use vstd::string::StrSliceExecFns;

verus! {

/// Whether a character separates words: the characters that Unicode lists
/// as white space.
pub open spec fn is_whitespace(c: char) -> bool {
    let code = c as u32;
    ||| 0x09 <= code <= 0x0D
    ||| code == 0x20
    ||| code == 0x85
    ||| code == 0xA0
    ||| code == 0x1680
    ||| 0x2000 <= code <= 0x200A
    ||| code == 0x2028
    ||| code == 0x2029
    ||| code == 0x202F
    ||| code == 0x205F
    ||| code == 0x3000
}

/// The words of a text: its longest runs of characters that are not white
/// space, in order. A character that follows white space, or nothing,
/// begins a word; one that follows another character of a word extends it.
pub open spec fn words(text: Seq<char>) -> Seq<Seq<char>>
    decreases text.len(),
{
    if text.len() == 0 {
        Seq::empty()
    } else {
        let before = words(text.drop_last());
        if is_whitespace(text.last()) {
            before
        } else if text.len() > 1 && !is_whitespace(text[text.len() - 2]) && before.len() > 0 {
            before.drop_last().push(before.last().push(text.last()))
        } else {
            before.push(seq![text.last()])
        }
    }
}

/// What a digit is worth in a radix, where it is a digit of that radix:
/// `0` to `9`, then the letters from `a` on in either case.
pub open spec fn digit_value(c: char, radix: nat) -> Option<nat> {
    let code = c as u32;
    let value = if 0x30 <= code <= 0x39 {
        code - 0x30
    } else if 0x61 <= code <= 0x7A {
        code - 0x61 + 10
    } else if 0x41 <= code <= 0x5A {
        code - 0x41 + 10
    } else {
        36
    };
    if value < radix {
        Some(value as nat)
    } else {
        None
    }
}

/// What a run of digits is worth in a radix, where each is a digit of that
/// radix. No digits are worth nothing.
pub open spec fn digits_value(digits: Seq<char>, radix: nat) -> Option<nat>
    decreases digits.len(),
{
    if digits.len() == 0 {
        Some(0)
    } else {
        match (digits_value(digits.drop_last(), radix), digit_value(digits.last(), radix)) {
            (Some(high), Some(low)) => Some(high * radix + low),
            _ => None,
        }
    }
}

/// The number that a text writes in a radix: one digit or more, with or
/// without a `+` before them, and nothing else.
pub open spec fn number(text: Seq<char>, radix: nat) -> Option<nat> {
    let digits = if text.len() > 0 && text[0] == '+' {
        text.drop_first()
    } else {
        text
    };
    if digits.len() == 0 {
        None
    } else {
        digits_value(digits, radix)
    }
}

/// The number that a text writes, where it is at most `max`.
pub open spec fn number_up_to(text: Seq<char>, radix: nat, max: nat) -> Option<usize> {
    match number(text, radix) {
        Some(value) => if value <= max && value <= usize::MAX {
            Some(value as usize)
        } else {
            None
        },
        None => None,
    }
}

/// The words as the specifications see them.
pub open spec fn word_views(found: Seq<Vec<char>>) -> Seq<Seq<char>> {
    Seq::new(found.len(), |i: int| found[i]@)
}

/// The characters of a text.
pub fn chars_of(text: &str) -> (chars: Vec<char>)
    ensures
        chars@ == text@,
{
    let len = text.unicode_len();
    let mut chars: Vec<char> = Vec::new();
    let mut i: usize = 0;
    while i < len
        invariant
            i <= len,
            len == text@.len(),
            chars@ == text@.take(i as int),
        decreases len - i,
    {
        chars.push(text.get_char(i));
        i += 1;
        assert(text@.take(i as int) =~= text@.take(i - 1).push(text@[i - 1]));
    }
    assert(text@.take(len as int) =~= text@);
    chars
}

/// Whether a character separates words.
pub fn separates(c: char) -> (r: bool)
    ensures
        r == is_whitespace(c),
{
    let code = c as u32;
    (0x09 <= code && code <= 0x0D) || code == 0x20 || code == 0x85 || code == 0xA0 || code
        == 0x1680 || (0x2000 <= code && code <= 0x200A) || code == 0x2028 || code == 0x2029
        || code == 0x202F || code == 0x205F || code == 0x3000
}

/// The words of a text.
pub fn split_words(text: &[char]) -> (found: Vec<Vec<char>>)
    ensures
        word_views(found@) == words(text@),
{
    let mut found: Vec<Vec<char>> = Vec::new();
    let mut current: Vec<char> = Vec::new();
    let mut i: usize = 0;
    assert(word_views(found@) =~= Seq::<Seq<char>>::empty());
    while i < text.len()
        invariant
            i <= text@.len(),
            current@.len() > 0 <==> i > 0 && !is_whitespace(text@[i - 1]),
            current@.len() == 0 ==> words(text@.take(i as int)) == word_views(found@),
            current@.len() > 0 ==> words(text@.take(i as int)) == word_views(found@).push(
                current@,
            ),
        decreases text@.len() - i,
    {
        let c = text[i];
        let ghost shorter = text@.take(i as int);
        let ghost longer = text@.take(i + 1);
        assert(longer.drop_last() =~= shorter);
        assert(longer.last() == c);
        if i > 0 {
            assert(longer[longer.len() - 2] == text@[i - 1]);
        }
        if separates(c) {
            if current.len() > 0 {
                let ghost before = word_views(found@);
                let ghost word = current@;
                found.push(current);
                current = Vec::new();
                assert(word_views(found@) =~= before.push(word));
            }
        } else {
            let ghost before = current@;
            current.push(c);
            proof {
                if before.len() > 0 {
                    let earlier = word_views(found@).push(before);
                    assert(earlier.drop_last() =~= word_views(found@));
                    assert(earlier.last() == before);
                    assert(words(longer) == word_views(found@).push(before.push(c)));
                } else {
                    assert(current@ =~= seq![c]);
                    assert(words(longer) == word_views(found@).push(seq![c]));
                }
            }
        }
        i += 1;
    }
    assert(text@.take(text@.len() as int) =~= text@);
    if current.len() > 0 {
        let ghost before = word_views(found@);
        let ghost word = current@;
        found.push(current);
        assert(word_views(found@) =~= before.push(word));
    }
    found
}

/// What a digit is worth in a radix.
pub fn digit(c: char, radix: usize) -> (r: Option<usize>)
    ensures
        match r {
            Some(value) => digit_value(c, radix as nat) == Some(value as nat),
            None => digit_value(c, radix as nat) is None,
        },
{
    let code = c as u32;
    let value: usize = if 0x30 <= code && code <= 0x39 {
        (code - 0x30) as usize
    } else if 0x61 <= code && code <= 0x7A {
        (code - 0x61 + 10) as usize
    } else if 0x41 <= code && code <= 0x5A {
        (code - 0x41 + 10) as usize
    } else {
        36
    };
    if value < radix {
        Some(value)
    } else {
        None
    }
}

/// Reads the number that a text writes in a radix, where it writes one that
/// is at most `max`.
pub fn parse_number(text: &[char], radix: usize, max: usize) -> (r: Option<usize>)
    requires
        2 <= radix <= 36,
    ensures
        r == number_up_to(text@, radix as nat, max as nat),
{
    let start: usize = if text.len() > 0 && text[0] == '+' {
        1
    } else {
        0
    };
    let ghost digits = if start == 1 {
        text@.drop_first()
    } else {
        text@
    };
    proof {
        assert(text@.skip(0) =~= text@);
        if text@.len() > 0 {
            assert(text@.drop_first() =~= text@.skip(1));
        }
    }
    if text.len() == start {
        return None;
    }
    let mut value: usize = 0;
    let mut too_large = false;
    let ghost mut exact: nat = 0;
    let mut i: usize = start;
    while i < text.len()
        invariant
            start <= i <= text@.len(),
            2 <= radix <= 36,
            digits == text@.skip(start as int),
            digits == if text@.len() > 0 && text@[0] == '+' {
                text@.drop_first()
            } else {
                text@
            },
            digits.len() > 0,
            digits_value(digits.take(i - start), radix as nat) == Some(exact),
            !too_large ==> exact == value && value <= max,
            too_large ==> exact > max,
        decreases text@.len() - i,
    {
        let ghost shorter = digits.take(i - start);
        let ghost longer = digits.take(i - start + 1);
        assert(longer.drop_last() =~= shorter);
        assert(longer.last() == text@[i as int]);
        match digit(text[i], radix) {
            None => {
                proof {
                    assert(digits[i - start] == text@[i as int]);
                    lemma_bad_digit_spoils(digits, radix as nat, i - start);
                }
                return None;
            },
            Some(low) => {
                proof {
                    assert(exact * radix + low >= exact) by (nonlinear_arith)
                        requires
                            radix >= 1,
                    ;
                }
                if !too_large {
                    if low > max || value > (max - low) / radix {
                        too_large = true;
                        proof {
                            assert(value * radix + low > max) by (nonlinear_arith)
                                requires
                                    low > max || value > (max - low) / (radix as int),
                                    radix >= 2,
                                    low >= 0,
                                    value >= 0,
                                    max >= 0,
                            ;
                        }
                    } else {
                        proof {
                            assert(value * radix + low <= max) by (nonlinear_arith)
                                requires
                                    value <= (max - low) / (radix as int),
                                    low <= max,
                                    radix >= 2,
                                    value >= 0,
                            ;
                        }
                        value = value * radix + low;
                    }
                }
                proof {
                    exact = (exact * radix + low) as nat;
                }
            },
        }
        i += 1;
    }
    assert(digits.take(digits.len() as int) =~= digits);
    if too_large {
        None
    } else {
        Some(value)
    }
}

/// A run of digits is worth nothing once one of them is no digit.
pub proof fn lemma_bad_digit_spoils(digits: Seq<char>, radix: nat, at: int)
    requires
        0 <= at < digits.len(),
        digit_value(digits[at], radix) is None,
    ensures
        digits_value(digits, radix) is None,
    decreases digits.len(),
{
    if at < digits.len() - 1 {
        lemma_bad_digit_spoils(digits.drop_last(), radix, at);
    }
}

} // verus!
