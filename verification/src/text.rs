//! Text primitives: the Unicode properties and case mappings that std supplies,
//! and small verified helpers over them.

use vstd::prelude::*;
use vstd::utf8::is_ascii_chars;

verus! {

pub open spec fn is_ascii_char(c: char) -> bool {
    c <= '\u{7f}'
}

pub open spec fn is_ascii_lower(c: char) -> bool {
    'a' <= c <= 'z'
}

pub open spec fn is_ascii_upper(c: char) -> bool {
    'A' <= c <= 'Z'
}

/// `c` with an ASCII lowercase letter put in upper case.
pub open spec fn ascii_upper(c: char) -> char {
    if is_ascii_lower(c) {
        (c as int - 32) as char
    } else {
        c
    }
}

/// `c` with an ASCII uppercase letter put in lower case.
pub open spec fn ascii_lower(c: char) -> char {
    if is_ascii_upper(c) {
        (c as int + 32) as char
    } else {
        c
    }
}

/// Whether `char::is_lowercase` holds of the non-ASCII character `c`.
pub uninterp spec fn unicode_lowercase_property(c: char) -> bool;

/// The characters of `char::to_uppercase` of the non-ASCII character `c`.
pub uninterp spec fn unicode_uppercase(c: char) -> Seq<char>;

/// The characters of `str::to_lowercase` of a text that is not all ASCII.
pub uninterp spec fn unicode_lowercase(s: Seq<char>) -> Seq<char>;

/// Whether `c` has the Unicode `Lowercase` property. Of the ASCII characters, the
/// letters `a` to `z` have it.
pub open spec fn has_lowercase_property(c: char) -> bool {
    if is_ascii_char(c) {
        is_ascii_lower(c)
    } else {
        unicode_lowercase_property(c)
    }
}

/// Whether `c` has the Unicode `White_Space` property.
pub open spec fn has_whitespace_property(c: char) -> bool {
    ||| '\u{9}' <= c <= '\u{d}'
    ||| c == '\u{20}'
    ||| c == '\u{85}'
    ||| c == '\u{a0}'
    ||| c == '\u{1680}'
    ||| '\u{2000}' <= c <= '\u{200a}'
    ||| c == '\u{2028}'
    ||| c == '\u{2029}'
    ||| c == '\u{202f}'
    ||| c == '\u{205f}'
    ||| c == '\u{3000}'
}

/// The uppercase mapping of `c`: the letters `a` to `z` become `A` to `Z`, and
/// every other ASCII character stays as it is.
pub open spec fn char_uppercase(c: char) -> Seq<char> {
    if is_ascii_char(c) {
        seq![ascii_upper(c)]
    } else {
        unicode_uppercase(c)
    }
}

/// The lowercase form of `s`: in an ASCII text the letters `A` to `Z` become `a` to
/// `z`, and every other character stays as it is.
pub open spec fn str_lowercase(s: Seq<char>) -> Seq<char> {
    if is_ascii_chars(s) {
        s.map_values(|c: char| ascii_lower(c))
    } else {
        unicode_lowercase(s)
    }
}

/// `char::is_lowercase` tells the Unicode `Lowercase` property: of an ASCII
/// character, whether it is one of the letters `a` to `z`; of any other, a function
/// of the character alone. Which of the others have the property is not claimed.
pub assume_specification[ char::is_lowercase ](c: char) -> (b: bool)
    ensures
        is_ascii_char(c) ==> b == is_ascii_lower(c),
        !is_ascii_char(c) ==> b == unicode_lowercase_property(c),
;

/// `char::is_whitespace` tells the Unicode `White_Space` property, which the
/// Unicode Character Database gives to twenty-five characters.
pub assume_specification[ char::is_whitespace ](c: char) -> (b: bool)
    ensures
        b == has_whitespace_property(c),
;

/// `str::to_lowercase` maps an ASCII text letter by letter. Of any other text its
/// result is a function of the characters alone (the locale-independent Unicode
/// mapping, which looks at the neighbours of a sigma) and not claimed further.
pub assume_specification[ str::to_lowercase ](s: &str) -> (r: String)
    ensures
        is_ascii_chars(s@) ==> r@ == s@.map_values(|c: char| ascii_lower(c)),
        !is_ascii_chars(s@) ==> r@ == unicode_lowercase(s@),
;

/// Calls `char::to_uppercase` and gathers the characters it yields. An ASCII
/// character is mapped to one ASCII character; of any other the result is a
/// function of the character alone (the locale-independent Unicode mapping, which
/// may expand to several characters) and not claimed further.
#[verifier::external_body]
pub(crate) fn uppercase(c: char) -> (r: String)
    ensures
        is_ascii_char(c) ==> r@ == seq![ascii_upper(c)],
        !is_ascii_char(c) ==> r@ == unicode_uppercase(c),
{
    c.to_uppercase().collect::<String>()
}

/// What upper case, lower case and lowercase letters are, code point by code point:
/// in ASCII the small letters lie thirty-two above the capital ones and nothing else
/// changes; beyond ASCII each is what std's own function gives.
pub proof fn lemma_letter_cases(c: char, s: Seq<char>)
    ensures
        97 <= c as int <= 122 ==> has_lowercase_property(c) && char_uppercase(c) == seq![
            (c as int - 32) as char,
        ],
        c as int <= 127 && !(97 <= c as int <= 122) ==> !has_lowercase_property(c)
            && char_uppercase(c) == seq![c],
        c as int > 127 ==> has_lowercase_property(c) == unicode_lowercase_property(c)
            && char_uppercase(c) == unicode_uppercase(c),
        (exists|i: int| 0 <= i < s.len() && (#[trigger] s[i]) as int > 127) ==> str_lowercase(s)
            == unicode_lowercase(s),
        (forall|i: int| 0 <= i < s.len() ==> 0 <= (#[trigger] s[i]) as int <= 127) ==> {
            &&& str_lowercase(s).len() == s.len()
            &&& forall|i: int|
                0 <= i < s.len() && 65 <= s[i] as int <= 90 ==> (
                #[trigger] str_lowercase(s)[i]) as int == s[i] as int + 32
            &&& forall|i: int|
                0 <= i < s.len() && !(65 <= s[i] as int <= 90) ==> #[trigger] str_lowercase(s)[i]
                    == s[i]
        },
{
    if exists|i: int| 0 <= i < s.len() && (#[trigger] s[i]) as int > 127 {
        let i = choose|i: int| 0 <= i < s.len() && (#[trigger] s[i]) as int > 127;
        assert(!('\0' <= s[i] <= '\u{7f}'));
    }
    if forall|i: int| 0 <= i < s.len() ==> 0 <= (#[trigger] s[i]) as int <= 127 {
        assert forall|i: int| 0 <= i < s.len() implies '\0' <= #[trigger] s[i] <= '\u{7f}' by {
            assert(0 <= s[i] as int <= 127);
        }
        assert(is_ascii_chars(s));
    }
}

/// The whitespace characters by their code points, and no others.
pub proof fn lemma_whitespace_code_points(c: char)
    ensures
        0 <= c as int <= 32 ==> (has_whitespace_property(c) <==> 9 <= c as int <= 13 || c as int
            == 32),
        33 <= c as int <= 160 ==> (has_whitespace_property(c) <==> c as int == 0x85 || c as int
            == 0xa0),
        161 <= c as int <= 0x1fff ==> (has_whitespace_property(c) <==> c as int == 0x1680),
        0x2000 <= c as int <= 0x205f ==> (has_whitespace_property(c) <==> c as int <= 0x200a || c
            as int == 0x2028 || c as int == 0x2029 || c as int == 0x202f || c as int == 0x205f),
        0x2060 <= c as int ==> (has_whitespace_property(c) <==> c as int == 0x3000),
{
}

/// The characters of a string slice.
pub(crate) fn chars_of(s: &str) -> (v: Vec<char>)
    ensures
        v@ == s@,
{
    let mut v: Vec<char> = Vec::new();
    for c in it: s.chars()
        invariant
            v@ == s@.take(it.index() as int),
            it.seq() == s@,
    {
        v.push(c);
    }
    v
}

/// The decimal digit `d`.
pub open spec fn digit(d: nat) -> char {
    ('0' as nat + d) as char
}

/// Decimal notation without leading zeros.
pub open spec fn decimal(n: nat) -> Seq<char>
    decreases n,
{
    if n < 10 {
        seq![digit(n)]
    } else {
        decimal(n / 10).push(digit(n % 10))
    }
}

/// The decimal notation of a number of up to three digits, digit by digit: one
/// digit for each place, starting with the first that is not zero.
pub proof fn lemma_decimal_digits(n: nat)
    ensures
        n < 10 ==> decimal(n) == seq![(48 + n) as char],
        10 <= n < 100 ==> decimal(n) == seq![(48 + n / 10) as char, (48 + n % 10) as char],
        100 <= n < 1000 ==> decimal(n) == seq![
            (48 + n / 100) as char,
            (48 + n / 10 % 10) as char,
            (48 + n % 10) as char,
        ],
{
    reveal_with_fuel(decimal, 3);
    if n >= 100 {
        assert(n / 10 / 10 == n / 100);
    }
}

/// The number that a string of decimal digits stands for.
pub open spec fn number_read(digits: Seq<char>) -> int
    decreases digits.len(),
{
    if digits.len() == 0 {
        0
    } else {
        10 * number_read(digits.drop_last()) + (digits.last() as int - 48)
    }
}

/// Reading decimal notation gives back the number, every character of it is a digit,
/// and it starts with a zero only where the number is zero.
pub proof fn lemma_decimal_reads_back(n: nat)
    ensures
        number_read(decimal(n)) == n,
        decimal(n).len() > 0,
        forall|i: int| 0 <= i < decimal(n).len() ==> '0' <= #[trigger] decimal(n)[i] <= '9',
        n > 0 ==> decimal(n)[0] != '0',
    decreases n,
{
    reveal_with_fuel(number_read, 2);
    if n >= 10 {
        lemma_decimal_reads_back(n / 10);
        assert(decimal(n).drop_last() =~= decimal(n / 10));
    }
}

fn digit_str(d: u8) -> (s: &'static str)
    requires
        d < 10,
    ensures
        s@ == seq![digit(d as nat)],
{
    proof {
        reveal_strlit("0");
        reveal_strlit("1");
        reveal_strlit("2");
        reveal_strlit("3");
        reveal_strlit("4");
        reveal_strlit("5");
        reveal_strlit("6");
        reveal_strlit("7");
        reveal_strlit("8");
        reveal_strlit("9");
    }
    match d {
        0 => "0",
        1 => "1",
        2 => "2",
        3 => "3",
        4 => "4",
        5 => "5",
        6 => "6",
        7 => "7",
        8 => "8",
        _ => "9",
    }
}

/// Appends the decimal notation of `n` to `out`.
pub(crate) fn append_decimal(out: &mut String, n: u8)
    ensures
        final(out)@ == old(out)@ + decimal(n as nat),
    decreases n,
{
    if n >= 10 {
        append_decimal(out, n / 10);
    }
    out.append(digit_str(n % 10));
}

} // verus!
