//! Lexicographic order: of byte strings, and of text by code points (which is
//! the order of its UTF-8 bytes).

use vstd::prelude::*;
use vstd::utf8::char_u32_cast;

use crate::text::chars_of;

verus! {

/// How two values stand to each other in an order.
#[derive(Debug, Clone, Copy, PartialEq, Eq, Structural)]
pub enum Precedence {
    Before,
    Same,
    After,
}

/// `a` comes strictly before `b`: at the first position where they differ it has
/// the smaller number, or it is a proper prefix of `b`.
pub open spec fn lex_less(a: Seq<int>, b: Seq<int>) -> bool
    decreases a.len(),
{
    if b.len() == 0 {
        false
    } else if a.len() == 0 {
        true
    } else if a[0] != b[0] {
        a[0] < b[0]
    } else {
        lex_less(a.drop_first(), b.drop_first())
    }
}

pub open spec fn octets(s: Seq<u8>) -> Seq<int> {
    s.map_values(|x: u8| x as int)
}

pub open spec fn code_points(s: Seq<char>) -> Seq<int> {
    s.map_values(|c: char| c as int)
}

/// Nothing comes before itself.
pub proof fn lemma_lex_irreflexive(a: Seq<int>)
    ensures
        !lex_less(a, a),
    decreases a.len(),
{
    if a.len() > 0 {
        lemma_lex_irreflexive(a.drop_first());
    }
}

/// What comes before something that comes before `c` comes before `c`.
pub proof fn lemma_lex_transitive(a: Seq<int>, b: Seq<int>, c: Seq<int>)
    requires
        lex_less(a, b),
        lex_less(b, c),
    ensures
        lex_less(a, c),
    decreases a.len(),
{
    if a.len() > 0 && b.len() > 0 && c.len() > 0 && a[0] == b[0] && b[0] == c[0] {
        lemma_lex_transitive(a.drop_first(), b.drop_first(), c.drop_first());
    }
}

/// Of two different sequences one comes before the other.
pub proof fn lemma_lex_total(a: Seq<int>, b: Seq<int>)
    ensures
        lex_less(a, b) || lex_less(b, a) || a == b,
    decreases a.len(),
{
    if a.len() > 0 && b.len() > 0 {
        if a[0] == b[0] {
            lemma_lex_total(a.drop_first(), b.drop_first());
            if a.drop_first() == b.drop_first() {
                assert(a =~= seq![a[0]] + a.drop_first());
                assert(b =~= seq![b[0]] + b.drop_first());
            }
        }
    } else if a.len() == 0 && b.len() == 0 {
        assert(a =~= b);
    }
}

/// The first position at which two sequences differ decides, whatever follows: the
/// one with the smaller number there comes before the other.
pub proof fn lemma_first_difference_decides(a: Seq<int>, b: Seq<int>, k: int)
    requires
        0 <= k < a.len(),
        k < b.len(),
        forall|i: int| 0 <= i < k ==> a[i] == b[i],
        a[k] < b[k],
    ensures
        lex_less(a, b),
        !lex_less(b, a),
    decreases k,
{
    if k > 0 {
        assert(a[0] == b[0]);
        lemma_first_difference_decides(a.drop_first(), b.drop_first(), k - 1);
    }
}

/// A beginning of a sequence comes before the whole.
pub proof fn lemma_beginning_comes_first(a: Seq<int>, rest: Seq<int>)
    requires
        rest.len() > 0,
    ensures
        lex_less(a, a + rest),
        !lex_less(a + rest, a),
    decreases a.len(),
{
    if a.len() > 0 {
        lemma_beginning_comes_first(a.drop_first(), rest);
        assert((a + rest).drop_first() =~= a.drop_first() + rest);
    }
}

/// Bytes are compared by their values and text by its code points, one number for
/// each.
pub proof fn lemma_compared_numbers(bytes: Seq<u8>, text: Seq<char>)
    ensures
        octets(bytes).len() == bytes.len(),
        forall|i: int| 0 <= i < bytes.len() ==> #[trigger] octets(bytes)[i] == bytes[i],
        code_points(text).len() == text.len(),
        forall|i: int| 0 <= i < text.len() ==> #[trigger] code_points(text)[i] == text[i] as int,
{
}

/// Different byte strings have different numbers.
pub proof fn lemma_octets_injective(a: Seq<u8>, b: Seq<u8>)
    requires
        octets(a) == octets(b),
    ensures
        a == b,
{
    assert(a.len() == octets(a).len() && b.len() == octets(b).len());
    assert forall|i: int| 0 <= i < a.len() implies a[i] == b[i] by {
        assert(octets(a)[i] == a[i] as int);
        assert(octets(b)[i] == b[i] as int);
    }
    assert(a =~= b);
}

/// Different texts have different code points.
pub proof fn lemma_code_points_injective(a: Seq<char>, b: Seq<char>)
    requires
        code_points(a) == code_points(b),
    ensures
        a == b,
{
    assert(a.len() == code_points(a).len() && b.len() == code_points(b).len());
    assert forall|i: int| 0 <= i < a.len() implies a[i] == b[i] by {
        assert(code_points(a)[i] == a[i] as int);
        assert(code_points(b)[i] == b[i] as int);
    }
    assert(a =~= b);
}

spec fn numbers(s: Seq<u32>) -> Seq<int> {
    s.map_values(|x: u32| x as int)
}

fn compare_numbers(a: &Vec<u32>, b: &Vec<u32>) -> (res: Precedence)
    ensures
        res == Precedence::Before <==> lex_less(numbers(a@), numbers(b@)),
        res == Precedence::Same <==> a@ == b@,
        res == Precedence::After <==> lex_less(numbers(b@), numbers(a@)),
{
    let ghost x = numbers(a@);
    let ghost y = numbers(b@);
    let mut i: usize = 0;
    assert(x.skip(0) =~= x && y.skip(0) =~= y);
    while i < a.len() && i < b.len()
        invariant
            i <= a@.len(),
            i <= b@.len(),
            x == numbers(a@),
            y == numbers(b@),
            forall|k: int| 0 <= k < i ==> a@[k] == b@[k],
            lex_less(x, y) == lex_less(x.skip(i as int), y.skip(i as int)),
            lex_less(y, x) == lex_less(y.skip(i as int), x.skip(i as int)),
        decreases a@.len() - i,
    {
        proof {
            assert(x.skip(i as int)[0] == a@[i as int]);
            assert(y.skip(i as int)[0] == b@[i as int]);
            assert(x.skip(i as int).drop_first() =~= x.skip(i + 1));
            assert(y.skip(i as int).drop_first() =~= y.skip(i + 1));
        }
        if a[i] < b[i] {
            return Precedence::Before;
        }
        if b[i] < a[i] {
            return Precedence::After;
        }
        i += 1;
    }
    if i < b.len() {
        Precedence::Before
    } else if i < a.len() {
        Precedence::After
    } else {
        assert(a@ =~= b@);
        Precedence::Same
    }
}

/// Compares two byte strings.
pub fn compare_octets(a: &Vec<u8>, b: &Vec<u8>) -> (res: Precedence)
    ensures
        res == Precedence::Before <==> lex_less(octets(a@), octets(b@)),
        res == Precedence::Same <==> a@ == b@,
        res == Precedence::After <==> lex_less(octets(b@), octets(a@)),
{
    let p = octet_numbers(a);
    let q = octet_numbers(b);
    proof {
        assert(numbers(p@) =~= octets(a@));
        assert(numbers(q@) =~= octets(b@));
        if p@ == q@ {
            lemma_octets_injective(a@, b@);
        } else if a@ == b@ {
            assert(p@ =~= q@);
        }
    }
    compare_numbers(&p, &q)
}

fn octet_numbers(a: &Vec<u8>) -> (res: Vec<u32>)
    ensures
        res@.len() == a@.len(),
        forall|k: int| 0 <= k < a@.len() ==> #[trigger] res@[k] == a@[k],
{
    let mut res: Vec<u32> = Vec::new();
    let mut i: usize = 0;
    while i < a.len()
        invariant
            i <= a@.len(),
            res@.len() == i,
            forall|k: int| 0 <= k < i ==> #[trigger] res@[k] == a@[k],
        decreases a@.len() - i,
    {
        res.push(a[i] as u32);
        i += 1;
    }
    res
}

/// Compares two texts by their code points.
pub fn compare_text(a: &str, b: &str) -> (res: Precedence)
    ensures
        res == Precedence::Before <==> lex_less(code_points(a@), code_points(b@)),
        res == Precedence::Same <==> a@ == b@,
        res == Precedence::After <==> lex_less(code_points(b@), code_points(a@)),
{
    let p = char_numbers(a);
    let q = char_numbers(b);
    proof {
        assert(numbers(p@) =~= code_points(a@));
        assert(numbers(q@) =~= code_points(b@));
        if p@ == q@ {
            lemma_code_points_injective(a@, b@);
        } else if a@ == b@ {
            assert(p@ =~= q@);
        }
    }
    compare_numbers(&p, &q)
}

fn char_numbers(a: &str) -> (res: Vec<u32>)
    ensures
        res@.len() == a@.len(),
        forall|k: int| 0 <= k < a@.len() ==> #[trigger] res@[k] as int == a@[k] as int,
{
    let chars = chars_of(a);
    let mut res: Vec<u32> = Vec::new();
    let mut i: usize = 0;
    while i < chars.len()
        invariant
            i <= chars@.len(),
            chars@ == a@,
            res@.len() == i,
            forall|k: int| 0 <= k < i ==> #[trigger] res@[k] as int == a@[k] as int,
        decreases chars@.len() - i,
    {
        proof {
            char_u32_cast(chars@[i as int], chars@[i as int] as u32);
        }
        res.push(chars[i] as u32);
        i += 1;
    }
    res
}

} // verus!
