//! Tidying raw HID++ codenames for display.

use vstd::prelude::*;
use vstd::utf8::{encode_utf8, is_ascii_chars, is_ascii_chars_encode_utf8};

use crate::text::{
    ascii_lower, ascii_upper, char_uppercase, chars_of, has_lowercase_property,
    has_whitespace_property, is_ascii_lower, str_lowercase, uppercase,
};

verus! {

/// Where the words of a text lie: the runs of positions that are not whitespace,
/// each as its first position and the position behind its last one. `space[i]`
/// says whether the character at `i` is whitespace.
pub open spec fn word_bounds(space: Seq<bool>) -> Seq<(int, int)>
    decreases space.len(),
{
    if space.len() == 0 {
        seq![]
    } else {
        let before = word_bounds(space.drop_last());
        let n = space.len() - 1;
        if space[n] {
            before
        } else if n > 0 && !space[n - 1] {
            before.drop_last().push((before.last().0, n + 1))
        } else {
            before.push((n, n + 1))
        }
    }
}

/// The words of `s`.
pub open spec fn words(s: Seq<char>, space: Seq<bool>) -> Seq<Seq<char>> {
    word_bounds(space).map_values(|b: (int, int)| s.subrange(b.0, b.1))
}

/// Whether the positions from `a` up to `b` are a maximal run without whitespace.
pub open spec fn is_word_at(space: Seq<bool>, a: int, b: int) -> bool {
    &&& 0 <= a < b <= space.len()
    &&& forall|i: int| a <= i < b ==> !#[trigger] space[i]
    &&& a > 0 ==> space[a - 1]
    &&& b < space.len() ==> space[b]
}

/// `parts`, one after the other, with a single space between neighbours.
pub open spec fn join_with_space(parts: Seq<Seq<char>>) -> Seq<char>
    decreases parts.len(),
{
    if parts.len() == 0 {
        seq![]
    } else if parts.len() == 1 {
        parts[0]
    } else {
        join_with_space(parts.drop_last()).push(' ') + parts.last()
    }
}

pub open spec fn is_digit(c: char) -> bool {
    '0' <= c <= '9'
}

/// Words that are shown as they are: short acronyms (at most three bytes of
/// UTF-8) and model numbers (words with an ASCII digit).
pub open spec fn keeps_spelling(word: Seq<char>) -> bool {
    ||| encode_utf8(word).len() <= 3
    ||| exists|i: int| 0 <= i < word.len() && is_digit(#[trigger] word[i])
}

/// First character in upper case, the others in lower case.
pub open spec fn title_case(word: Seq<char>) -> Seq<char> {
    char_uppercase(word[0]) + str_lowercase(word.drop_first())
}

/// How the words `found` are shown, where `titles` are their title-case spellings.
pub open spec fn shown_words(found: Seq<Seq<char>>, titles: Seq<Seq<char>>) -> Seq<Seq<char>> {
    Seq::new(found.len(), |k: int| if keeps_spelling(found[k]) { found[k] } else { titles[k] })
}

/// How a codename is shown, given which of its characters are lowercase and
/// which are whitespace, and the title-case spelling of each of its words.
pub open spec fn codename_display(
    raw: Seq<char>,
    lowercase: Seq<bool>,
    space: Seq<bool>,
    titles: Seq<Seq<char>>,
) -> Seq<char> {
    if lowercase.contains(true) {
        raw
    } else {
        join_with_space(shown_words(words(raw, space), titles))
    }
}

pub open spec fn lowercase_flags(s: Seq<char>) -> Seq<bool> {
    Seq::new(s.len(), |i: int| has_lowercase_property(s[i]))
}

pub open spec fn whitespace_flags(s: Seq<char>) -> Seq<bool> {
    Seq::new(s.len(), |i: int| has_whitespace_property(s[i]))
}

/// The display form of the raw codename `raw`.
pub open spec fn prettified(raw: Seq<char>) -> Seq<char> {
    let found = words(raw, whitespace_flags(raw));
    codename_display(
        raw,
        lowercase_flags(raw),
        whitespace_flags(raw),
        Seq::new(found.len(), |k: int| title_case(found[k])),
    )
}

/// How a word of ASCII characters is shown: as it is if it has at most three
/// characters or a digit, and otherwise with its first letter capital and the
/// others small.
pub open spec fn ascii_shown_word(word: Seq<char>) -> Seq<char> {
    if word.len() <= 3 || exists|i: int| 0 <= i < word.len() && is_digit(#[trigger] word[i]) {
        word
    } else {
        Seq::new(
            word.len(),
            |i: int|
                if i == 0 {
                    ascii_upper(word[i])
                } else {
                    ascii_lower(word[i])
                },
        )
    }
}

/// The display form of a raw codename of ASCII characters.
pub open spec fn ascii_prettified(raw: Seq<char>) -> Seq<char> {
    if exists|i: int| 0 <= i < raw.len() && is_ascii_lower(#[trigger] raw[i]) {
        raw
    } else {
        join_with_space(
            words(raw, whitespace_flags(raw)).map_values(|word: Seq<char>| ascii_shown_word(word)),
        )
    }
}

/// Splits `s` at its whitespace.
pub fn split_words(s: &str, space: &Vec<bool>) -> (res: Vec<String>)
    requires
        space@.len() == s@.len(),
    ensures
        res.deep_view() == words(s@, space@),
{
    let n: usize = space.len();
    let mut done: Vec<String> = Vec::new();
    let mut start: usize = 0;
    let mut i: usize = 0;
    while i < n
        invariant
            n == space@.len(),
            space@.len() == s@.len(),
            start <= i <= n,
            ({
                let bounds = word_bounds(space@.take(i as int));
                &&& forall|k: int|
                    0 <= k < done@.len() ==> #[trigger] done@[k]@ == s@.subrange(
                        bounds[k].0,
                        bounds[k].1,
                    )
                &&& if i > 0 && !space@[i - 1] {
                    &&& start < i
                    &&& bounds.len() == done@.len() + 1
                    &&& bounds.last() == (start as int, i as int)
                } else {
                    bounds.len() == done@.len()
                }
            }),
        decreases n - i,
    {
        assert(space@.take(i + 1).drop_last() =~= space@.take(i as int));
        let in_word: bool = i > 0 && !space[i - 1];
        if space[i] {
            if in_word {
                done.push(s.substring_char(start, i).to_owned());
            }
        } else if !in_word {
            start = i;
        }
        i += 1;
    }
    assert(space@.take(n as int) =~= space@);
    if n > 0 && !space[n - 1] {
        done.push(s.substring_char(start, n).to_owned());
    }
    assert(done.deep_view() =~= words(s@, space@));
    done
}

/// Joins `parts` with single spaces.
pub fn join_words(parts: &Vec<String>) -> (res: String)
    ensures
        res@ == join_with_space(parts.deep_view()),
{
    let mut res = String::new();
    let mut i: usize = 0;
    while i < parts.len()
        invariant
            i <= parts@.len(),
            res@ == join_with_space(parts.deep_view().take(i as int)),
        decreases parts@.len() - i,
    {
        let ghost next = parts.deep_view().take(i + 1);
        assert(next.drop_last() =~= parts.deep_view().take(i as int));
        if i > 0 {
            proof {
                reveal_strlit(" ");
            }
            res.append(" ");
        }
        res.append(parts[i].as_str());
        proof {
            assert(next.last() == parts@[i as int]@);
            assert(res@ =~= join_with_space(next));
        }
        i += 1;
    }
    assert(parts.deep_view().take(i as int) =~= parts.deep_view());
    res
}

/// Whether `word` is a short acronym or a model number.
pub fn is_kept_word(word: &str) -> (res: bool)
    ensures
        res == keeps_spelling(word@),
        encode_utf8(word@).len() <= 3 ==> res,
        (exists|i: int| 0 <= i < word@.len() && '0' <= #[trigger] word@[i] <= '9') ==> res,
        encode_utf8(word@).len() > 3 && (forall|i: int|
            0 <= i < word@.len() ==> !('0' <= #[trigger] word@[i] <= '9')) ==> !res,
{
    if word.as_bytes().len() <= 3 {
        return true;
    }
    let chars = chars_of(word);
    let mut i: usize = 0;
    while i < chars.len()
        invariant
            i <= chars@.len(),
            chars@ == word@,
            forall|k: int| 0 <= k < i ==> !is_digit(#[trigger] word@[k]),
        decreases chars@.len() - i,
    {
        if '0' <= chars[i] && chars[i] <= '9' {
            assert(is_digit(word@[i as int]));
            return true;
        }
        i += 1;
    }
    false
}

/// Shows a codename, given the per-character flags and the title-case spelling
/// of each word.
pub fn prettify_with(
    raw: &str,
    lowercase: &Vec<bool>,
    space: &Vec<bool>,
    titles: &Vec<String>,
) -> (res: String)
    requires
        space@.len() == raw@.len(),
        titles@.len() == words(raw@, space@).len(),
    ensures
        res@ == codename_display(raw@, lowercase@, space@, titles.deep_view()),
{
    if any_flag(lowercase) {
        return raw.to_owned();
    }
    let found = split_words(raw, space);
    let ghost expected = shown_words(words(raw@, space@), titles.deep_view());
    let mut shown: Vec<String> = Vec::new();
    let mut i: usize = 0;
    while i < found.len()
        invariant
            i <= found@.len(),
            found@.len() == titles@.len(),
            expected == shown_words(found.deep_view(), titles.deep_view()),
            shown.deep_view() =~= expected.take(i as int),
        decreases found@.len() - i,
    {
        let ghost before = shown.deep_view();
        if is_kept_word(found[i].as_str()) {
            shown.push(found[i].clone());
        } else {
            shown.push(titles[i].clone());
        }
        assert(shown.deep_view() =~= before.push(expected[i as int]));
        i += 1;
    }
    assert(shown.deep_view() =~= expected);
    join_words(&shown)
}

fn any_flag(flags: &Vec<bool>) -> (res: bool)
    ensures
        res == flags@.contains(true),
{
    let mut i: usize = 0;
    while i < flags.len()
        invariant
            i <= flags@.len(),
            forall|k: int| 0 <= k < i ==> !#[trigger] flags@[k],
        decreases flags@.len() - i,
    {
        if flags[i] {
            assert(flags@[i as int] == true);
            return true;
        }
        i += 1;
    }
    false
}

/// `word` with its first character in upper case and the others in lower case.
fn title_cased(word: &String) -> (res: String)
    requires
        word@.len() > 0,
    ensures
        res@ == title_case(word@),
{
    let n: usize = word.as_str().unicode_len();
    let rest = word.as_str().substring_char(1, n);
    assert(rest@ =~= word@.drop_first());
    let mut res = uppercase(word.as_str().get_char(0));
    res.append(rest.to_lowercase().as_str());
    res
}

/// The words of a text are exactly its maximal runs without whitespace, in the
/// order in which they stand: every word is such a run, a later word starts
/// behind an earlier one, and every position that is not whitespace lies in one.
pub proof fn lemma_words_are_maximal_runs(space: Seq<bool>)
    ensures
        forall|k: int|
            0 <= k < word_bounds(space).len() ==> is_word_at(
                space,
                (#[trigger] word_bounds(space)[k]).0,
                word_bounds(space)[k].1,
            ),
        forall|k: int, m: int|
            0 <= k < m < word_bounds(space).len() ==> (#[trigger] word_bounds(space)[k]).1
                < (#[trigger] word_bounds(space)[m]).0,
        forall|i: int|
            0 <= i < space.len() && !#[trigger] space[i] ==> exists|k: int|
                0 <= k < word_bounds(space).len() && (#[trigger] word_bounds(space)[k]).0 <= i
                    < word_bounds(space)[k].1,
    decreases space.len(),
{
    if space.len() > 0 {
        let n = space.len() - 1;
        let prefix = space.drop_last();
        let before = word_bounds(prefix);
        let after = word_bounds(space);
        lemma_words_are_maximal_runs(prefix);
        if n > 0 && !prefix[n - 1] {
            let k = choose|k: int|
                0 <= k < before.len() && (#[trigger] before[k]).0 <= n - 1 < before[k].1;
            assert(k == before.len() - 1) by {
                if k < before.len() - 1 {
                    assert(before[k].1 < before[before.len() - 1].0);
                }
            }
        }
        assert forall|i: int| 0 <= i < space.len() && !#[trigger] space[i] implies exists|k: int|
            0 <= k < after.len() && (#[trigger] after[k]).0 <= i < after[k].1 by {
            if i < n {
                assert(!prefix[i]);
                let k = choose|k: int|
                    0 <= k < before.len() && (#[trigger] before[k]).0 <= i < before[k].1;
                assert(after[k].0 <= i < after[k].1);
            } else {
                assert(after.last().0 <= i < after.last().1);
            }
        }
        assert forall|k: int| 0 <= k < after.len() implies is_word_at(
            space,
            (#[trigger] after[k]).0,
            after[k].1,
        ) by {
            if k < before.len() {
                assert(is_word_at(prefix, before[k].0, before[k].1));
                if k < before.len() - 1 {
                    assert(before[k].1 < before[before.len() - 1].0);
                }
            }
            assert forall|i: int| after[k].0 <= i < after[k].1 implies !#[trigger] space[i] by {
                if i < n {
                    assert(space[i] == prefix[i]);
                }
            }
        }
    }
}

/// Each word holds the characters of its run, one for one, and the runs are those
/// that no whitespace interrupts and none could be longer: `bounds` says where each
/// word starts and where it ends.
pub proof fn lemma_words_spell_the_runs(s: Seq<char>, space: Seq<bool>) -> (bounds: Seq<(int, int)>)
    requires
        space.len() == s.len(),
    ensures
        bounds.len() == words(s, space).len(),
        forall|k: int|
            0 <= k < bounds.len() ==> {
                let (a, b) = #[trigger] bounds[k];
                &&& 0 <= a < b <= s.len()
                &&& a > 0 ==> space[a - 1]
                &&& b < s.len() ==> space[b]
                &&& forall|i: int| a <= i < b ==> !#[trigger] space[i]
                &&& words(s, space)[k].len() == b - a
                &&& forall|i: int|
                    0 <= i < b - a ==> #[trigger] words(s, space)[k][i] == s[a + i]
            },
        forall|k: int, m: int|
            0 <= k < m < bounds.len() ==> (#[trigger] bounds[k]).1 < (#[trigger] bounds[m]).0,
        forall|i: int|
            0 <= i < space.len() && !#[trigger] space[i] ==> exists|k: int|
                0 <= k < bounds.len() && (#[trigger] bounds[k]).0 <= i < bounds[k].1,
{
    let bounds = word_bounds(space);
    lemma_words_are_maximal_runs(space);
    assert forall|k: int| 0 <= k < bounds.len() implies {
        let (a, b) = #[trigger] bounds[k];
        &&& 0 <= a < b <= s.len()
        &&& a > 0 ==> space[a - 1]
        &&& b < s.len() ==> space[b]
        &&& forall|i: int| a <= i < b ==> !#[trigger] space[i]
        &&& words(s, space)[k].len() == b - a
        &&& forall|i: int| 0 <= i < b - a ==> #[trigger] words(s, space)[k][i] == s[a + i]
    } by {
        assert(is_word_at(space, bounds[k].0, bounds[k].1));
        assert(words(s, space)[k] == s.subrange(bounds[k].0, bounds[k].1));
    }
    bounds
}

/// Joining puts one space between neighbours and none anywhere else: what is joined
/// in two parts stands with one space between the parts.
pub proof fn lemma_join_of_parts(one: Seq<Seq<char>>, other: Seq<Seq<char>>, word: Seq<char>)
    ensures
        join_with_space(seq![]) == Seq::<char>::empty(),
        join_with_space(seq![word]) == word,
        one.len() == 0 ==> join_with_space(one + other) == join_with_space(other),
        other.len() == 0 ==> join_with_space(one + other) == join_with_space(one),
        one.len() > 0 && other.len() > 0 ==> join_with_space(one + other) == join_with_space(
            one,
        ).push(' ') + join_with_space(other),
    decreases other.len(),
{
    if one.len() == 0 {
        assert(one + other =~= other);
    }
    if other.len() == 0 {
        assert(one + other =~= one);
    } else if one.len() > 0 {
        let all = one + other;
        assert(all.drop_last() =~= one + other.drop_last());
        assert(all.last() == other.last());
        lemma_join_of_parts(one, other.drop_last(), word);
        if other.len() == 1 {
            assert(all.drop_last() =~= one);
        }
        assert(join_with_space(all) =~= join_with_space(one).push(' ') + join_with_space(other));
    }
}

spec fn shifted(bounds: Seq<(int, int)>, by_how_much: int) -> Seq<(int, int)> {
    bounds.map_values(|b: (int, int)| (b.0 + by_how_much, b.1 + by_how_much))
}

proof fn lemma_bounds_of_parts(f: Seq<bool>, g: Seq<bool>)
    ensures
        word_bounds(f + seq![true] + g) == word_bounds(f) + shifted(
            word_bounds(g),
            f.len() as int + 1,
        ),
    decreases g.len(),
{
    let h = f + seq![true] + g;
    let d = f.len() as int + 1;
    if g.len() == 0 {
        assert(h.drop_last() =~= f);
        assert(word_bounds(h) =~= word_bounds(f) + shifted(word_bounds(g), d));
    } else {
        let n = g.len() - 1;
        let before = word_bounds(g.drop_last());
        lemma_bounds_of_parts(f, g.drop_last());
        assert(h.drop_last() =~= f + seq![true] + g.drop_last());
        assert(h[d + n] == g[n]);
        if n > 0 {
            assert(h[d + n - 1] == g[n - 1]);
            if !g[n - 1] {
                lemma_words_are_maximal_runs(g.drop_last());
                assert(!g.drop_last()[n - 1]);
                assert(before.len() > 0);
            }
        } else {
            assert(h[d + n - 1]);
        }
        assert(word_bounds(h) =~= word_bounds(f) + shifted(word_bounds(g), d));
    }
}

/// Whitespace parts a text: the words of two texts with a whitespace character
/// between them are the words of the one and then those of the other.
pub proof fn lemma_words_of_parts(
    a: Seq<char>,
    f: Seq<bool>,
    c: char,
    b: Seq<char>,
    g: Seq<bool>,
)
    requires
        f.len() == a.len(),
        g.len() == b.len(),
    ensures
        words(a + seq![c] + b, f + seq![true] + g) == words(a, f) + words(b, g),
{
    let s = a + seq![c] + b;
    let h = f + seq![true] + g;
    let d = f.len() as int + 1;
    lemma_bounds_of_parts(f, g);
    lemma_words_are_maximal_runs(f);
    lemma_words_are_maximal_runs(g);
    assert forall|k: int| 0 <= k < words(s, h).len() implies #[trigger] words(s, h)[k] == (words(
        a,
        f,
    ) + words(b, g))[k] by {
        let m = word_bounds(f).len() as int;
        if k < m {
            let w = word_bounds(f)[k];
            assert(is_word_at(f, w.0, w.1));
            assert(word_bounds(h)[k] == w);
            assert(s.subrange(w.0, w.1) =~= a.subrange(w.0, w.1));
        } else {
            let w = word_bounds(g)[k - m];
            assert(is_word_at(g, w.0, w.1));
            assert(word_bounds(h)[k] == (w.0 + d, w.1 + d));
            assert(s.subrange(w.0 + d, w.1 + d) =~= b.subrange(w.0, w.1));
        }
    }
    assert(words(s, h) =~= words(a, f) + words(b, g));
}

/// A text has words unless it is all whitespace.
proof fn lemma_blank_text_has_no_words(s: Seq<char>)
    ensures
        words(s, whitespace_flags(s)).len() == 0 <==> forall|i: int|
            0 <= i < s.len() ==> has_whitespace_property(#[trigger] s[i]),
{
    let space = whitespace_flags(s);
    lemma_words_are_maximal_runs(space);
    if words(s, space).len() > 0 {
        let w = word_bounds(space)[0];
        assert(is_word_at(space, w.0, w.1));
        assert(!space[w.0]);
        assert(!has_whitespace_property(s[w.0]));
    } else {
        assert forall|i: int| 0 <= i < s.len() implies has_whitespace_property(
            #[trigger] s[i],
        ) by {
            if !has_whitespace_property(s[i]) {
                assert(!space[i]);
            }
        }
    }
}

/// A codename that has a lowercase letter is shown unchanged.
pub proof fn lemma_mixed_case_codename_is_unchanged(raw: Seq<char>, i: int)
    requires
        0 <= i < raw.len(),
        has_lowercase_property(raw[i]),
    ensures
        prettified(raw) == raw,
{
    assert(lowercase_flags(raw)[i] == true);
}

/// A codename without a lowercase letter is shown word by word, with single
/// spaces between the words: model numbers and short acronyms as they are, every
/// other word in title case.
pub proof fn lemma_shouting_codename_word_by_word(raw: Seq<char>) -> (shown: Seq<Seq<char>>)
    requires
        forall|i: int| 0 <= i < raw.len() ==> !has_lowercase_property(#[trigger] raw[i]),
    ensures
        prettified(raw) == join_with_space(shown),
        shown.len() == words(raw, whitespace_flags(raw)).len(),
        forall|k: int|
            0 <= k < shown.len() ==> #[trigger] shown[k] == {
                let word = words(raw, whitespace_flags(raw))[k];
                if keeps_spelling(word) {
                    word
                } else {
                    title_case(word)
                }
            },
{
    let found = words(raw, whitespace_flags(raw));
    assert forall|i: int| 0 <= i < raw.len() implies !#[trigger] lowercase_flags(raw)[i] by {
        assert(!has_lowercase_property(raw[i]));
    }
    shown_words(found, Seq::new(found.len(), |k: int| title_case(found[k])))
}

/// A codename of one word without a lowercase letter: up to three bytes of UTF-8,
/// or a digit anywhere in it, and it is shown as it is; otherwise its first
/// character is shown in upper case and all others in lower case.
pub proof fn lemma_one_word_codename(raw: Seq<char>)
    requires
        raw.len() > 0,
        forall|i: int| 0 <= i < raw.len() ==> !has_whitespace_property(#[trigger] raw[i]),
        forall|i: int| 0 <= i < raw.len() ==> !has_lowercase_property(#[trigger] raw[i]),
    ensures
        encode_utf8(raw).len() <= 3 ==> prettified(raw) == raw,
        (exists|i: int| 0 <= i < raw.len() && '0' <= #[trigger] raw[i] <= '9') ==> prettified(raw)
            == raw,
        encode_utf8(raw).len() > 3 && (forall|i: int|
            0 <= i < raw.len() ==> !('0' <= #[trigger] raw[i] <= '9')) ==> prettified(raw)
            == char_uppercase(raw[0]) + str_lowercase(raw.drop_first()),
{
    let space = whitespace_flags(raw);
    let n = raw.len() as int;
    let shown = lemma_shouting_codename_word_by_word(raw);
    lemma_words_are_maximal_runs(space);
    assert forall|i: int| 0 <= i < n implies !#[trigger] space[i] by {
        assert(!has_whitespace_property(raw[i]));
    }
    let bounds = word_bounds(space);
    assert(!space[0]);
    let k = choose|k: int| 0 <= k < bounds.len() && (#[trigger] bounds[k]).0 <= 0 < bounds[k].1;
    assert forall|m: int| 0 <= m < bounds.len() implies #[trigger] bounds[m] == (0int, n) by {
        assert(is_word_at(space, bounds[m].0, bounds[m].1));
    }
    assert(bounds.len() == 1) by {
        if bounds.len() > 1 {
            assert(bounds[0].1 < bounds[1].0);
        }
    }
    assert(raw.subrange(0, n) =~= raw);
    assert(words(raw, space)[0] == raw);
    assert(shown =~= seq![shown[0]]);
    if exists|i: int| 0 <= i < raw.len() && '0' <= #[trigger] raw[i] <= '9' {
        let i = choose|i: int| 0 <= i < raw.len() && '0' <= #[trigger] raw[i] <= '9';
        assert(is_digit(raw[i]));
    }
}

/// A codename without a lowercase letter is shown part by part: with whitespace
/// between two parts, each part is shown as it would be alone, and exactly one space
/// stands between them. A part that is all whitespace leaves nothing behind.
pub proof fn lemma_codename_of_parts(a: Seq<char>, c: char, b: Seq<char>)
    requires
        has_whitespace_property(c),
        !has_lowercase_property(c),
        forall|i: int| 0 <= i < a.len() ==> !has_lowercase_property(#[trigger] a[i]),
        forall|i: int| 0 <= i < b.len() ==> !has_lowercase_property(#[trigger] b[i]),
    ensures
        (forall|i: int| 0 <= i < a.len() ==> has_whitespace_property(#[trigger] a[i]))
            ==> prettified(a).len() == 0 && prettified(a + seq![c] + b) == prettified(b),
        (forall|i: int| 0 <= i < b.len() ==> has_whitespace_property(#[trigger] b[i]))
            ==> prettified(b).len() == 0 && prettified(a + seq![c] + b) == prettified(a),
        (exists|i: int| 0 <= i < a.len() && !has_whitespace_property(#[trigger] a[i])) && (exists|
            i: int,
        |
            0 <= i < b.len() && !has_whitespace_property(#[trigger] b[i])) ==> prettified(
            a + seq![c] + b,
        ) == prettified(a).push(' ') + prettified(b),
{
    let raw = a + seq![c] + b;
    let f = whitespace_flags(a);
    let g = whitespace_flags(b);
    assert(whitespace_flags(raw) =~= f + seq![true] + g);
    lemma_words_of_parts(a, f, c, b, g);
    assert forall|i: int| 0 <= i < raw.len() implies !has_lowercase_property(#[trigger] raw[i]) by {
        if i < a.len() {
            assert(!has_lowercase_property(a[i]));
        } else if i > a.len() {
            assert(!has_lowercase_property(b[i - a.len() - 1]));
        }
    }
    let one = lemma_shouting_codename_word_by_word(a);
    let other = lemma_shouting_codename_word_by_word(b);
    let all = lemma_shouting_codename_word_by_word(raw);
    assert(all =~= one + other);
    lemma_join_of_parts(one, other, a);
    lemma_blank_text_has_no_words(a);
    lemma_blank_text_has_no_words(b);
}

/// How the flags and title-case spellings decide: one lowercase flag and the codename
/// stays as it is; otherwise each word is shown as it is or by its title, one after
/// the other.
pub proof fn lemma_flags_and_titles_decide(
    raw: Seq<char>,
    lowercase: Seq<bool>,
    space: Seq<bool>,
    titles: Seq<Seq<char>>,
) -> (shown: Seq<Seq<char>>)
    ensures
        (exists|i: int| 0 <= i < lowercase.len() && #[trigger] lowercase[i]) ==> codename_display(
            raw,
            lowercase,
            space,
            titles,
        ) == raw,
        (forall|i: int| 0 <= i < lowercase.len() ==> !#[trigger] lowercase[i])
            ==> codename_display(raw, lowercase, space, titles) == join_with_space(shown),
        shown.len() == words(raw, space).len(),
        forall|k: int|
            0 <= k < shown.len() ==> {
                let word = words(raw, space)[k];
                let kept = encode_utf8(word).len() <= 3 || exists|i: int|
                    0 <= i < word.len() && '0' <= #[trigger] word[i] <= '9';
                &&& kept ==> #[trigger] shown[k] == word
                &&& !kept ==> shown[k] == titles[k]
            },
{
    if exists|i: int| 0 <= i < lowercase.len() && #[trigger] lowercase[i] {
        let i = choose|i: int| 0 <= i < lowercase.len() && #[trigger] lowercase[i];
        assert(lowercase[i] == true);
    }
    let shown = shown_words(words(raw, space), titles);
    assert forall|k: int| 0 <= k < shown.len() implies {
        let word = words(raw, space)[k];
        let kept = encode_utf8(word).len() <= 3 || exists|i: int|
            0 <= i < word.len() && '0' <= #[trigger] word[i] <= '9';
        &&& kept ==> #[trigger] shown[k] == word
        &&& !kept ==> shown[k] == titles[k]
    } by {
        let word = words(raw, space)[k];
        if exists|i: int| 0 <= i < word.len() && '0' <= #[trigger] word[i] <= '9' {
            let i = choose|i: int| 0 <= i < word.len() && '0' <= #[trigger] word[i] <= '9';
            assert(is_digit(word[i]));
        }
        if keeps_spelling(word) && encode_utf8(word).len() > 3 {
            let i = choose|i: int| 0 <= i < word.len() && is_digit(#[trigger] word[i]);
            assert('0' <= word[i] <= '9');
        }
    }
    shown
}

/// A word of a text is not empty, and an ASCII text has ASCII words.
proof fn lemma_words_of_text(raw: Seq<char>, space: Seq<bool>)
    requires
        space.len() == raw.len(),
    ensures
        forall|k: int| 0 <= k < words(raw, space).len() ==> #[trigger] words(raw, space)[k].len() > 0,
        is_ascii_chars(raw) ==> forall|k: int|
            0 <= k < words(raw, space).len() ==> is_ascii_chars(#[trigger] words(raw, space)[k]),
{
    lemma_words_are_maximal_runs(space);
    assert forall|k: int| 0 <= k < words(raw, space).len() implies #[trigger] words(
        raw,
        space,
    )[k].len() > 0 && (is_ascii_chars(raw) ==> is_ascii_chars(words(raw, space)[k])) by {
        let b = word_bounds(space)[k];
        assert(is_word_at(space, b.0, b.1));
    }
}

/// In an ASCII text, a word is shown with its spelling or as letter cases say.
proof fn lemma_ascii_word(word: Seq<char>)
    requires
        is_ascii_chars(word),
        word.len() > 0,
    ensures
        ascii_shown_word(word) == if keeps_spelling(word) {
            word
        } else {
            title_case(word)
        },
{
    is_ascii_chars_encode_utf8(word);
    if !keeps_spelling(word) {
        assert('\0' <= word[0] <= '\u{7f}');
        assert forall|i: int| 0 <= i < word.drop_first().len() implies '\0'
            <= #[trigger] word.drop_first()[i] <= '\u{7f}' by {
            assert(word.drop_first()[i] == word[i + 1]);
        }
        assert(ascii_shown_word(word) =~= title_case(word));
    }
}

/// What a codename of ASCII characters is shown as, letter by letter.
pub proof fn lemma_ascii_codename(raw: Seq<char>)
    requires
        is_ascii_chars(raw),
    ensures
        prettified(raw) == ascii_prettified(raw),
{
    let space = whitespace_flags(raw);
    let found = words(raw, space);
    if exists|i: int| 0 <= i < raw.len() && is_ascii_lower(#[trigger] raw[i]) {
        let i = choose|i: int| 0 <= i < raw.len() && is_ascii_lower(#[trigger] raw[i]);
        lemma_mixed_case_codename_is_unchanged(raw, i);
    } else {
        let shown = lemma_shouting_codename_word_by_word(raw);
        lemma_words_of_text(raw, space);
        assert forall|k: int| 0 <= k < found.len() implies shown[k] == ascii_shown_word(
            found[k],
        ) by {
            assert(found[k].len() > 0);
            lemma_ascii_word(found[k]);
        }
        assert(shown =~= found.map_values(|word: Seq<char>| ascii_shown_word(word)));
    }
}

/// A codename of one word in capital letters, longer than an acronym, keeps its first
/// letter and has each of the others made small.
pub proof fn lemma_capitals_are_tamed(raw: Seq<char>)
    requires
        raw.len() > 3,
        forall|i: int| 0 <= i < raw.len() ==> 'A' <= #[trigger] raw[i] <= 'Z',
    ensures
        prettified(raw).len() == raw.len(),
        prettified(raw)[0] == raw[0],
        forall|i: int|
            0 < i < raw.len() ==> #[trigger] prettified(raw)[i] as int == raw[i] as int + 32,
{
    assert(is_ascii_chars(raw));
    is_ascii_chars_encode_utf8(raw);
    lemma_one_word_codename(raw);
    lemma_ascii_word(raw);
    assert forall|i: int| 0 < i < raw.len() implies #[trigger] prettified(raw)[i] as int
        == raw[i] as int + 32 by {
        assert('A' <= raw[i] <= 'Z');
        assert(prettified(raw)[i] == ascii_lower(raw[i]));
    }
}

/// Tidies a raw HID++ codename for display when no curated asset name exists.
///
/// Gaming codenames are reported in capitals throughout (`"G513 RGB MECHANICAL
/// GAMING KEYBOARD"`). Each word is title-cased, but model numbers (words with
/// a digit) and short acronyms stay as they are. A codename that already has a
/// lowercase letter is returned unchanged.
pub fn prettify_codename(raw: &str) -> (res: String)
    ensures
        res@ == prettified(raw@),
        is_ascii_chars(raw@) ==> res@ == ascii_prettified(raw@),
{
    proof {
        if is_ascii_chars(raw@) {
            lemma_ascii_codename(raw@);
        }
    }
    let chars = chars_of(raw);
    let mut lowercase: Vec<bool> = Vec::new();
    let mut space: Vec<bool> = Vec::new();
    let mut i: usize = 0;
    while i < chars.len()
        invariant
            i <= chars@.len(),
            chars@ == raw@,
            lowercase@ =~= lowercase_flags(raw@).take(i as int),
            space@ =~= whitespace_flags(raw@).take(i as int),
        decreases chars@.len() - i,
    {
        lowercase.push(chars[i].is_lowercase());
        space.push(chars[i].is_whitespace());
        i += 1;
    }
    assert(lowercase@ =~= lowercase_flags(raw@));
    assert(space@ =~= whitespace_flags(raw@));
    let found = split_words(raw, &space);
    let ghost named = words(raw@, space@);
    let ghost expected = Seq::new(named.len(), |k: int| title_case(named[k]));
    proof {
        lemma_words_of_text(raw@, space@);
    }
    let mut titles: Vec<String> = Vec::new();
    let mut k: usize = 0;
    while k < found.len()
        invariant
            k <= found@.len(),
            found.deep_view() == named,
            forall|j: int| 0 <= j < named.len() ==> #[trigger] named[j].len() > 0,
            expected == Seq::new(named.len(), |j: int| title_case(named[j])),
            titles.deep_view() =~= expected.take(k as int),
        decreases found@.len() - k,
    {
        let ghost before = titles.deep_view();
        assert(found.deep_view()[k as int] == found@[k as int]@);
        titles.push(title_cased(&found[k]));
        assert(titles.deep_view() =~= before.push(expected[k as int]));
        k += 1;
    }
    assert(titles.deep_view() =~= expected);
    prettify_with(raw, &lowercase, &space, &titles)
}

} // verus!
