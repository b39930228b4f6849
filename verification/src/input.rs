use vstd::prelude::*;

use vstd::string::StrSliceExecFns;

verus! {

/// What a line of values typed at the menu reads as.
#[derive(Debug)]
pub enum ValuesInput {
    /// Every word is a decimal `i32`; these are the values, in order.
    Values(Vec<i32>),
    /// The line holds no word at all.
    Empty,
    /// Some word is not a decimal `i32`.
    Invalid,
}

/// A character that separates words: one with the Unicode `White_Space`
/// property.
pub open spec fn is_separator(c: char) -> bool {
    ||| '\u{9}' <= c <= '\u{d}'
    ||| c == ' '
    ||| c == '\u{85}'
    ||| c == '\u{a0}'
    ||| c == '\u{1680}'
    ||| '\u{2000}' <= c <= '\u{200a}'
    ||| c == '\u{2028}'
    ||| c == '\u{2029}'
    ||| c == '\u{202f}'
    ||| c == '\u{205f}'
    ||| c == '\u{3000}'
}

/// The words of `s`: its longest runs of characters that are not
/// separators, in order.
pub open spec fn words(s: Seq<char>) -> Seq<Seq<char>>
    decreases s.len(),
{
    if s.len() == 0 {
        seq![]
    } else {
        let c = s.last();
        let rest = s.drop_last();
        let w = words(rest);
        if is_separator(c) {
            w
        } else if rest.len() > 0 && !is_separator(rest.last()) {
            w.update(w.len() - 1, w.last().push(c))
        } else {
            w.push(seq![c])
        }
    }
}

/// An ASCII decimal digit.
pub open spec fn is_digit(c: char) -> bool {
    '0' <= c <= '9'
}

/// The number that the digits `d` write in decimal.
pub open spec fn digits_value(d: Seq<char>) -> nat
    decreases d.len(),
{
    if d.len() == 0 {
        0
    } else {
        digits_value(d.drop_last()) * 10 + (d.last() as int - '0' as int) as nat
    }
}

/// Whether the word `w` starts with a sign.
pub open spec fn is_signed(w: Seq<char>) -> bool {
    w.len() > 0 && (w[0] == '+' || w[0] == '-')
}

/// The word `w` without its sign.
pub open spec fn unsigned_part(w: Seq<char>) -> Seq<char> {
    if is_signed(w) {
        w.skip(1)
    } else {
        w
    }
}

/// `d` is at least one decimal digit and nothing else.
pub open spec fn all_digits(d: Seq<char>) -> bool {
    d.len() > 0 && forall|i: int| 0 <= i < d.len() ==> is_digit(#[trigger] d[i])
}

/// The integer that the word `w` writes, where it is an optional sign and
/// decimal digits.
pub open spec fn signed_value(w: Seq<char>) -> int {
    if is_signed(w) && w[0] == '-' {
        -digits_value(unsigned_part(w))
    } else {
        digits_value(unsigned_part(w)) as int
    }
}

/// The `i32` that the word `w` writes: an optional `+` or `-`, then at least
/// one decimal digit and nothing else, of a value in the range of `i32`.
pub open spec fn parse_i32(w: Seq<char>) -> Option<i32> {
    if all_digits(unsigned_part(w)) && i32::MIN <= signed_value(w) <= i32::MAX {
        Some(signed_value(w) as i32)
    } else {
        None
    }
}

/// Every word of `ws` writes an `i32`.
pub open spec fn all_parse(ws: Seq<Seq<char>>) -> bool {
    forall|i: int| 0 <= i < ws.len() ==> (#[trigger] parse_i32(ws[i])) is Some
}

/// The values that the words of `ws` write.
pub open spec fn parsed(ws: Seq<Seq<char>>) -> Seq<i32> {
    ws.map_values(|w: Seq<char>| parse_i32(w).unwrap())
}

/// The characters with the Unicode `White_Space` property, by code point,
/// as the documentation of `char::is_whitespace` gives them.
pub open spec fn unicode_white_space(c: char) -> bool {
    let u = c as u32;
    ||| 0x9 <= u <= 0xd
    ||| u == 0x20
    ||| u == 0x85
    ||| u == 0xa0
    ||| u == 0x1680
    ||| 0x2000 <= u <= 0x200a
    ||| u == 0x2028
    ||| u == 0x2029
    ||| u == 0x202f
    ||| u == 0x205f
    ||| u == 0x3000
}

/// The words are split exactly at white space: no word is empty, no word
/// holds a white-space character, and every other character of the line
/// stands in some word.
pub proof fn lemma_words_split(s: Seq<char>)
    ensures
        forall|i: int| 0 <= i < words(s).len() ==> (#[trigger] words(s)[i]).len() > 0,
        forall|i: int, j: int|
            0 <= i < words(s).len() && 0 <= j < words(s)[i].len() ==> !unicode_white_space(
                #[trigger] words(s)[i][j],
            ),
        forall|k: int|
            0 <= k < s.len() && !unicode_white_space(#[trigger] s[k]) ==> exists|i: int, j: int|
                0 <= i < words(s).len() && 0 <= j < words(s)[i].len() && #[trigger] words(
                    s,
                )[i][j] == s[k],
        s.len() > 0 && !unicode_white_space(s.last()) ==> words(s).len() > 0,
    decreases s.len(),
{
    if s.len() > 0 {
        let c = s.last();
        let rest = s.drop_last();
        lemma_words_split(rest);
        lemma_separator_is_white_space(c);
        if rest.len() > 0 {
            lemma_separator_is_white_space(rest.last());
        }
        let w = words(rest);
        let ws = words(s);
        assert forall|k: int|
            0 <= k < s.len() && !unicode_white_space(#[trigger] s[k]) implies exists|i: int, j: int|
            0 <= i < ws.len() && 0 <= j < ws[i].len() && #[trigger] ws[i][j] == s[k] by {
            if k < rest.len() {
                assert(rest[k] == s[k]);
                let (i, j) = choose|i: int, j: int|
                    0 <= i < w.len() && 0 <= j < w[i].len() && #[trigger] w[i][j] == rest[k];
                assert(ws[i][j] == s[k]);
            } else {
                if is_separator(c) {
                } else if rest.len() > 0 && !is_separator(rest.last()) {
                    assert(ws[w.len() - 1][w[w.len() - 1].len() as int] == s[k]);
                } else {
                    assert(ws[w.len() as int][0] == s[k]);
                }
            }
        }
    }
}

/// The separators are exactly the white-space characters.
proof fn lemma_separator_is_white_space(c: char)
    ensures
        is_separator(c) == unicode_white_space(c),
{
}

/// A line read as values holds nothing but white space, signs and decimal
/// digits: any other character makes it `Invalid`.
pub proof fn lemma_values_characters(s: Seq<char>)
    requires
        all_parse(words(s)),
    ensures
        forall|k: int|
            0 <= k < s.len() ==> unicode_white_space(#[trigger] s[k]) || is_digit(s[k]) || s[k]
                == '+' || s[k] == '-',
{
    lemma_words_split(s);
    let ws = words(s);
    assert forall|k: int| 0 <= k < s.len() implies unicode_white_space(#[trigger] s[k])
        || is_digit(s[k]) || s[k] == '+' || s[k] == '-' by {
        if !unicode_white_space(s[k]) {
            let (i, j) = choose|i: int, j: int|
                0 <= i < ws.len() && 0 <= j < ws[i].len() && #[trigger] ws[i][j] == s[k];
            let w = ws[i];
            assert(parse_i32(w) is Some);
            let d = unsigned_part(w);
            if is_signed(w) && j > 0 {
                assert(d[j - 1] == w[j]);
                assert(is_digit(d[j - 1]));
            } else if !is_signed(w) {
                assert(is_digit(d[j]));
            }
        }
    }
}

/// A longer run of digits writes a number at least as large.
proof fn lemma_digits_value_prefix(d: Seq<char>, k: int)
    requires
        0 <= k <= d.len(),
    ensures
        digits_value(d.take(k)) <= digits_value(d),
    decreases d.len(),
{
    if k < d.len() {
        lemma_digits_value_prefix(d.drop_last(), k);
        assert(d.drop_last().take(k) =~= d.take(k));
    } else {
        assert(d.take(k) =~= d);
    }
}

/// Whether `c` separates words.
fn separator(c: char) -> (r: bool)
    ensures
        r == is_separator(c),
{
    ('\u{9}' <= c && c <= '\u{d}') || c == ' ' || c == '\u{85}' || c == '\u{a0}' || c == '\u{1680}'
        || ('\u{2000}' <= c && c <= '\u{200a}') || c == '\u{2028}' || c == '\u{2029}' || c
        == '\u{202f}' || c == '\u{205f}' || c == '\u{3000}'
}

/// The words of `line`, in order.
fn split_words(line: &str) -> (r: Vec<Vec<char>>)
    ensures
        r@.map_values(|w: Vec<char>| w@) == words(line@),
{
    let n = line.unicode_len();
    let mut done: Vec<Vec<char>> = Vec::new();
    let mut cur: Vec<char> = Vec::new();
    let mut in_word = false;
    let mut i: usize = 0;
    while i < n
        invariant
            n == line@.len(),
            i <= n,
            in_word == (i > 0 && !is_separator(line@[i - 1])),
            in_word ==> words(line@.take(i as int)) == done@.map_values(|w: Vec<char>| w@).push(
                cur@,
            ),
            !in_word ==> words(line@.take(i as int)) == done@.map_values(|w: Vec<char>| w@),
            !in_word ==> cur@.len() == 0,
        decreases n - i,
    {
        let c = line.get_char(i);
        let ghost before = line@.take(i as int);
        proof {
            assert(line@.take(i + 1).drop_last() =~= before);
            assert(line@.take(i + 1).last() == c);
        }
        if separator(c) {
            if in_word {
                let ghost old_done = done@;
                done.push(cur);
                cur = Vec::new();
                proof {
                    assert(done@.map_values(|w: Vec<char>| w@) =~= old_done.map_values(
                        |w: Vec<char>| w@,
                    ).push(done@.last()@));
                }
            }
            in_word = false;
        } else {
            cur.push(c);
            proof {
                if !in_word {
                    assert(cur@ =~= seq![c]);
                }
                assert(words(line@.take(i + 1)) =~= done@.map_values(|w: Vec<char>| w@).push(cur@));
            }
            in_word = true;
        }
        i = i + 1;
    }
    proof {
        assert(line@.take(n as int) =~= line@);
    }
    if in_word {
        let ghost old_done = done@;
        done.push(cur);
        proof {
            assert(done@.map_values(|w: Vec<char>| w@) =~= old_done.map_values(|w: Vec<char>| w@).push(
                done@.last()@,
            ));
        }
    }
    done
}

/// The `i32` that the word `w` writes, if it writes one.
fn parse_word(w: &Vec<char>) -> (r: Option<i32>)
    ensures
        r == parse_i32(w@),
{
    let n = w.len();
    if n == 0 {
        return None;
    }
    let first = w[0];
    let signed = first == '+' || first == '-';
    let start: usize = if signed {
        1
    } else {
        0
    };
    let ghost digits = unsigned_part(w@);
    proof {
        assert(digits =~= w@.subrange(start as int, n as int));
    }
    if start == n {
        proof {
            assert(digits.len() == 0);
        }
        return None;
    }
    let mut acc: i64 = 0;
    let mut k: usize = start;
    while k < n
        invariant
            n == w.len(),
            start <= k <= n,
            start < n,
            digits == unsigned_part(w@),
            digits == w@.subrange(start as int, n as int),
            acc == digits_value(digits.take(k - start)),
            acc <= 2147483648,
            forall|j: int| 0 <= j < k - start ==> is_digit(#[trigger] digits[j]),
        decreases n - k,
    {
        let c = w[k];
        if !('0' <= c && c <= '9') {
            proof {
                assert(!is_digit(digits[k - start]));
                assert(!all_digits(digits));
            }
            return None;
        }
        proof {
            assert(digits.take(k - start + 1).drop_last() =~= digits.take(k - start));
        }
        let d = (c as u32) - ('0' as u32);
        acc = acc * 10 + d as i64;
        proof {
            assert(digits.take(k - start + 1).last() == c);
            assert(acc == digits_value(digits.take(k - start + 1)));
        }
        if acc > 2147483648 {
            proof {
                lemma_digits_value_prefix(digits, k - start + 1);
                assert(signed_value(w@) < i32::MIN || signed_value(w@) > i32::MAX);
            }
            return None;
        }
        k = k + 1;
    }
    proof {
        assert(digits.take(n - start) =~= digits);
    }
    if signed && first == '-' {
        Some((-acc) as i32)
    } else if acc <= 2147483647 {
        Some(acc as i32)
    } else {
        None
    }
}

/// Reads a line of values: the words of the line, each an optional sign and
/// decimal digits, as `i32` values in order. A line without words is
/// `Empty`; a line with a word that is not an `i32` is `Invalid`.
pub fn parse_values(line: &str) -> (r: ValuesInput)
    ensures
        match r {
            ValuesInput::Values(v) => words(line@).len() > 0 && all_parse(words(line@)) && v@
                == parsed(words(line@)),
            ValuesInput::Empty => words(line@).len() == 0,
            ValuesInput::Invalid => !all_parse(words(line@)),
        },
        r is Values ==> forall|k: int|
            0 <= k < line@.len() ==> unicode_white_space(#[trigger] line@[k]) || is_digit(line@[k])
                || line@[k] == '+' || line@[k] == '-',
{
    let ws = split_words(line);
    let ghost spec_words = words(line@);
    proof {
        assert(ws@.len() == spec_words.len());
        assert forall|j: int| 0 <= j < ws@.len() implies ws@[j]@ == spec_words[j] by {
            assert(ws@.map_values(|w: Vec<char>| w@)[j] == ws@[j]@);
        }
    }
    let mut values: Vec<i32> = Vec::new();
    let mut j: usize = 0;
    while j < ws.len()
        invariant
            j <= ws@.len(),
            spec_words == words(line@),
            ws@.len() == spec_words.len(),
            forall|m: int| 0 <= m < ws@.len() ==> (#[trigger] ws@[m])@ == spec_words[m],
            values@ == parsed(spec_words.take(j as int)),
            forall|m: int| 0 <= m < j ==> (#[trigger] parse_i32(spec_words[m])) is Some,
        decreases ws@.len() - j,
    {
        match parse_word(&ws[j]) {
            Some(x) => {
                proof {
                    assert(ws@[j as int]@ == spec_words[j as int]);
                }
                values.push(x);
                proof {
                    assert(parsed(spec_words.take(j + 1)) =~= parsed(spec_words.take(j as int)).push(
                        x,
                    ));
                }
            },
            None => {
                proof {
                    assert(ws@[j as int]@ == spec_words[j as int]);
                    assert(parse_i32(spec_words[j as int]) is None);
                    assert(!all_parse(spec_words));
                }
                return ValuesInput::Invalid;
            },
        }
        j = j + 1;
    }
    proof {
        assert(spec_words.take(j as int) =~= spec_words);
    }
    proof {
        lemma_values_characters(line@);
    }
    if values.len() == 0 {
        ValuesInput::Empty
    } else {
        ValuesInput::Values(values)
    }
}

} // verus!
