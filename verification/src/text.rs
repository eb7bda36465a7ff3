//! Cutting text into pieces: trimming, splitting at a separator, and
//! splitting at white space.

use vstd::prelude::*;
use crate::trusted::push_char;

verus! {

/// White space as Unicode defines it.
pub open spec fn is_space(c: char) -> bool {
    let n = c as u32;
    (0x09 <= n <= 0x0D) || n == 0x20 || n == 0x85 || n == 0xA0 || n == 0x1680 || (0x2000 <= n
        <= 0x200A) || n == 0x2028 || n == 0x2029 || n == 0x202F || n == 0x205F || n == 0x3000
}

/// The first index at or after `i` that holds no white space, or the length.
pub open spec fn skip_spaces(s: Seq<char>, i: int) -> int
    decreases s.len() - i,
{
    if 0 <= i < s.len() && is_space(s[i]) {
        skip_spaces(s, i + 1)
    } else {
        i
    }
}

/// The end of the text before `j` once the white space in front of `j` is
/// cut off, never going below `start`.
pub open spec fn skip_spaces_back(s: Seq<char>, start: int, j: int) -> int
    decreases j,
{
    if start < j <= s.len() && 0 < j && is_space(s[j - 1]) {
        skip_spaces_back(s, start, j - 1)
    } else {
        j
    }
}

/// A text without the white space at its two ends.
pub open spec fn spec_trim(s: Seq<char>) -> Seq<char> {
    let a = skip_spaces(s, 0);
    let b = skip_spaces_back(s, a, s.len() as int);
    s.subrange(a, b)
}

/// The first index at or after `i` that holds `sep`, or the length.
pub open spec fn next_sep(s: Seq<char>, sep: char, i: int) -> int
    decreases s.len() - i,
{
    if 0 <= i < s.len() && s[i] != sep {
        next_sep(s, sep, i + 1)
    } else {
        i
    }
}

/// The pieces between separators, from index `i` on. A text with `k`
/// separators has `k + 1` pieces, some of which may be empty.
pub open spec fn split_from(s: Seq<char>, sep: char, i: int) -> Seq<Seq<char>>
    decreases s.len() - i,
    when 0 <= i <= s.len()
{
    let j = next_sep(s, sep, i);
    if j >= s.len() {
        seq![s.subrange(i, s.len() as int)]
    } else if j < i {
        seq![]
    } else {
        seq![s.subrange(i, j)] + split_from(s, sep, j + 1)
    }
}

/// The pieces of a text between separators.
pub open spec fn spec_split(s: Seq<char>, sep: char) -> Seq<Seq<char>> {
    split_from(s, sep, 0)
}

/// The first index at or after `i` that holds white space, or the length.
pub open spec fn next_space(s: Seq<char>, i: int) -> int
    decreases s.len() - i,
{
    if 0 <= i < s.len() && !is_space(s[i]) {
        next_space(s, i + 1)
    } else {
        i
    }
}

/// The words of a text from index `i` on: its longest runs without white space.
pub open spec fn words_from(s: Seq<char>, i: int) -> Seq<Seq<char>>
    decreases s.len() - i,
    when 0 <= i <= s.len()
{
    let a = skip_spaces(s, i);
    let b = next_space(s, a);
    if a < i || a >= s.len() || b <= a || b > s.len() {
        seq![]
    } else {
        seq![s.subrange(a, b)] + words_from(s, b)
    }
}

/// The words of a text.
pub open spec fn spec_words(s: Seq<char>) -> Seq<Seq<char>> {
    words_from(s, 0)
}

/// What each of a list of texts holds.
pub open spec fn texts_of(pieces: Seq<&str>) -> Seq<Seq<char>> {
    Seq::new(pieces.len(), |i: int| pieces[i]@)
}

/// The next white space lies between where the search starts and the end
/// of the text, and past the start where a word begins there.
pub proof fn lemma_next_space_range(s: Seq<char>, i: int)
    requires
        0 <= i <= s.len(),
    ensures
        i <= next_space(s, i) <= s.len(),
        i < s.len() && !is_space(s[i]) ==> i < next_space(s, i),
    decreases s.len() - i,
{
    if i < s.len() && !is_space(s[i]) {
        lemma_next_space_range(s, i + 1);
    }
}

/// Tells white space from other characters.
pub fn char_is_space(c: char) -> (space: bool)
    ensures
        space == is_space(c),
{
    let n = c as u32;
    (0x09 <= n && n <= 0x0D) || n == 0x20 || n == 0x85 || n == 0xA0 || n == 0x1680 || (0x2000 <= n
        && n <= 0x200A) || n == 0x2028 || n == 0x2029 || n == 0x202F || n == 0x205F || n == 0x3000
}

/// Cuts the white space off both ends of a text.
pub fn trim<'a>(s: &'a str) -> (r: &'a str)
    ensures
        r@ == spec_trim(s@),
{
    let n = s.unicode_len();
    let mut a: usize = 0;
    while a < n && char_is_space(s.get_char(a))
        invariant
            a <= n,
            n == s@.len(),
            skip_spaces(s@, 0) == skip_spaces(s@, a as int),
        decreases n - a,
    {
        a += 1;
    }
    let mut b: usize = n;
    while a < b && char_is_space(s.get_char(b - 1))
        invariant
            a <= b <= n,
            n == s@.len(),
            skip_spaces_back(s@, a as int, n as int) == skip_spaces_back(s@, a as int, b as int),
        decreases b,
    {
        b -= 1;
    }
    s.substring_char(a, b)
}

/// Cuts a text at every occurrence of a separator.
pub fn split<'a>(s: &'a str, sep: char) -> (pieces: Vec<&'a str>)
    ensures
        texts_of(pieces@) == spec_split(s@, sep),
{
    let n = s.unicode_len();
    let mut pieces: Vec<&'a str> = Vec::new();
    let mut start: usize = 0;
    let mut i: usize = 0;
    loop
        invariant
            start <= i <= n,
            n == s@.len(),
            next_sep(s@, sep, start as int) == next_sep(s@, sep, i as int),
            spec_split(s@, sep) == texts_of(pieces@) + split_from(s@, sep, start as int),
        decreases n - i,
    {
        if i >= n {
            let piece = s.substring_char(start, n);
            proof {
                assert(texts_of(pieces@.push(piece)) =~= texts_of(pieces@) + seq![piece@]);
            }
            pieces.push(piece);
            return pieces;
        }
        if s.get_char(i) == sep {
            let piece = s.substring_char(start, i);
            proof {
                assert(texts_of(pieces@.push(piece)) =~= texts_of(pieces@) + seq![piece@]);
                assert(texts_of(pieces@) + (seq![piece@] + split_from(s@, sep, i + 1)) =~= (
                texts_of(pieces@) + seq![piece@]) + split_from(s@, sep, i + 1));
            }
            pieces.push(piece);
            start = i + 1;
        }
        i += 1;
    }
}

/// Cuts a text into its words.
pub fn split_whitespace<'a>(s: &'a str) -> (words: Vec<&'a str>)
    ensures
        texts_of(words@) == spec_words(s@),
{
    let n = s.unicode_len();
    let mut words: Vec<&'a str> = Vec::new();
    let mut i: usize = 0;
    loop
        invariant
            i <= n,
            n == s@.len(),
            spec_words(s@) == texts_of(words@) + words_from(s@, i as int),
        decreases n - i,
    {
        let ghost from = i;
        while i < n && char_is_space(s.get_char(i))
            invariant
                from <= i <= n,
                n == s@.len(),
                skip_spaces(s@, from as int) == skip_spaces(s@, i as int),
            decreases n - i,
        {
            i += 1;
        }
        if i >= n {
            proof {
                assert(texts_of(words@) + Seq::<Seq<char>>::empty() =~= texts_of(words@));
            }
            return words;
        }
        let a = i;
        while i < n && !char_is_space(s.get_char(i))
            invariant
                a <= i <= n,
                a < n,
                !is_space(s@[a as int]),
                n == s@.len(),
                next_space(s@, a as int) == next_space(s@, i as int),
            decreases n - i,
        {
            i += 1;
        }
        let word = s.substring_char(a, i);
        proof {
            lemma_next_space_range(s@, a as int);
            assert(texts_of(words@.push(word)) =~= texts_of(words@) + seq![word@]);
            assert(texts_of(words@) + (seq![word@] + words_from(s@, i as int)) =~= (texts_of(
                words@,
            ) + seq![word@]) + words_from(s@, i as int));
        }
        words.push(word);
    }
}

/// The character of a decimal digit; what is no digit gives the nine.
pub open spec fn digit_char(d: int) -> char {
    if d <= 0 {
        '0'
    } else if d == 1 {
        '1'
    } else if d == 2 {
        '2'
    } else if d == 3 {
        '3'
    } else if d == 4 {
        '4'
    } else if d == 5 {
        '5'
    } else if d == 6 {
        '6'
    } else if d == 7 {
        '7'
    } else if d == 8 {
        '8'
    } else {
        '9'
    }
}

/// A number written in decimal digits, without leading zeros.
pub open spec fn decimal(n: nat) -> Seq<char>
    decreases n,
{
    if n < 10 {
        seq![digit_char(n as int)]
    } else {
        decimal(n / 10).push(digit_char((n % 10) as int))
    }
}

/// The character of a digit.
fn digit(d: usize) -> (c: char)
    requires
        d < 10,
    ensures
        c == digit_char(d as int),
{
    if d == 0 {
        '0'
    } else if d == 1 {
        '1'
    } else if d == 2 {
        '2'
    } else if d == 3 {
        '3'
    } else if d == 4 {
        '4'
    } else if d == 5 {
        '5'
    } else if d == 6 {
        '6'
    } else if d == 7 {
        '7'
    } else if d == 8 {
        '8'
    } else {
        '9'
    }
}

/// Appends a number in decimal digits to a text.
pub fn push_decimal(s: &mut String, n: usize)
    ensures
        final(s)@ == old(s)@ + decimal(n as nat),
    decreases n,
{
    if n >= 10 {
        push_decimal(s, n / 10);
    }
    push_char(s, digit(n % 10));
    proof {
        if n >= 10 {
            assert(s@ =~= old(s)@ + decimal(n as nat));
        } else {
            assert(s@ =~= old(s)@ + decimal(n as nat));
        }
    }
}

} // verus!
