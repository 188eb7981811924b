//! Small operations on text.
use vstd::prelude::*;

verus! {

/// Whether two texts are equal.
pub fn text_eq(a: &str, b: &str) -> (r: bool)
    ensures
        r == (a@ == b@),
{
    String::from_str(a) == String::from_str(b)
}

/// Relies on `String::push`: appends one character.
#[verifier::external_body]
pub(crate) fn push_char(s: &mut String, c: char)
    ensures
        final(s)@ == old(s)@.push(c),
{
    s.push(c)
}

/// The decimal digits of `n`, most significant first, without sign or zeros in front.
pub open spec fn decimal(n: nat) -> Seq<char>
    decreases n,
{
    if n < 10 {
        seq![digit_char(n)]
    } else {
        decimal(n / 10).push(digit_char(n % 10))
    }
}

pub open spec fn digit_char(d: nat) -> char {
    if d == 0 { '0' } else if d == 1 { '1' } else if d == 2 { '2' } else if d == 3 { '3' }
    else if d == 4 { '4' } else if d == 5 { '5' } else if d == 6 { '6' } else if d == 7 { '7' }
    else if d == 8 { '8' } else { '9' }
}

fn digit_char_of(d: u32) -> (c: char)
    requires
        d < 10,
    ensures
        c == digit_char(d as nat),
{
    if d == 0 { '0' } else if d == 1 { '1' } else if d == 2 { '2' } else if d == 3 { '3' }
    else if d == 4 { '4' } else if d == 5 { '5' } else if d == 6 { '6' } else if d == 7 { '7' }
    else if d == 8 { '8' } else { '9' }
}

/// The number in decimal.
pub fn u32_to_decimal(n: u32) -> (r: String)
    ensures
        r@ == decimal(n as nat),
    decreases n,
{
    if n < 10 {
        let mut s = String::new();
        push_char(&mut s, digit_char_of(n));
        assert(s@ =~= seq![digit_char(n as nat)]);
        s
    } else {
        let mut s = u32_to_decimal(n / 10);
        push_char(&mut s, digit_char_of(n % 10));
        s
    }
}

/// Whether the text starts with `c`.
pub fn starts_with_char(s: &str, c: char) -> (r: bool)
    ensures
        r == (s@.len() > 0 && s@[0] == c),
{
    s.unicode_len() > 0 && s.get_char(0) == c
}

// ---------------------------------------------------------------------------
// Order of texts.

/// Lexicographic order of texts, by code point.
pub open spec fn text_lt(a: Seq<char>, b: Seq<char>) -> bool
    decreases a.len(),
{
    if a.len() == 0 {
        b.len() > 0
    } else if b.len() == 0 {
        false
    } else if a[0] != b[0] {
        a[0] < b[0]
    } else {
        text_lt(a.drop_first(), b.drop_first())
    }
}

pub proof fn lemma_text_lt_irreflexive(a: Seq<char>)
    ensures
        !text_lt(a, a),
    decreases a.len(),
{
    if a.len() > 0 {
        lemma_text_lt_irreflexive(a.drop_first());
    }
}

pub proof fn lemma_text_lt_asymmetric(a: Seq<char>, b: Seq<char>)
    ensures
        !(text_lt(a, b) && text_lt(b, a)),
    decreases a.len(),
{
    if a.len() > 0 && b.len() > 0 && a[0] == b[0] {
        lemma_text_lt_asymmetric(a.drop_first(), b.drop_first());
    }
}

pub proof fn lemma_text_lt_transitive(a: Seq<char>, b: Seq<char>, c: Seq<char>)
    requires
        text_lt(a, b),
        text_lt(b, c),
    ensures
        text_lt(a, c),
    decreases a.len(),
{
    if a.len() > 0 && b.len() > 0 && c.len() > 0 && a[0] == b[0] && b[0] == c[0] {
        lemma_text_lt_transitive(a.drop_first(), b.drop_first(), c.drop_first());
    }
}

pub proof fn lemma_text_lt_total(a: Seq<char>, b: Seq<char>)
    requires
        a != b,
    ensures
        text_lt(a, b) || text_lt(b, a),
    decreases a.len(),
{
    if a.len() > 0 && b.len() > 0 && a[0] == b[0] {
        if a.drop_first() == b.drop_first() {
            assert(a =~= seq![a[0]] + a.drop_first());
            assert(b =~= seq![b[0]] + b.drop_first());
        }
        lemma_text_lt_total(a.drop_first(), b.drop_first());
    } else if a.len() == 0 && b.len() == 0 {
        assert(a =~= b);
    }
}

/// The characters of a text.
pub fn chars_of(s: &str) -> (r: Vec<char>)
    ensures
        r@ == s@,
{
    let n = s.unicode_len();
    let mut r: Vec<char> = Vec::new();
    let mut i: usize = 0;
    while i < n
        invariant
            i <= n,
            n == s@.len(),
            r@ == s@.subrange(0, i as int),
        decreases n - i,
    {
        r.push(s.get_char(i));
        assert(r@ =~= s@.subrange(0, i as int + 1));
        i += 1;
    }
    assert(s@.subrange(0, n as int) =~= s@);
    r
}

/// Compares two texts: negative, zero or positive as `a` comes before, is
/// equal to, or comes after `b`.
pub fn compare_text(a: &Vec<char>, b: &Vec<char>) -> (r: i8)
    ensures
        (r < 0) == text_lt(a@, b@),
        (r == 0) == (a@ == b@),
        (r > 0) == text_lt(b@, a@),
{
    proof {
        lemma_text_lt_asymmetric(a@, b@);
        lemma_text_lt_irreflexive(a@);
        if a@ != b@ {
            lemma_text_lt_total(a@, b@);
        }
    }
    assert(a@.skip(0) =~= a@);
    assert(b@.skip(0) =~= b@);
    let mut i: usize = 0;
    while i < a.len() && i < b.len()
        invariant
            i <= a@.len(),
            i <= b@.len(),
            a@.subrange(0, i as int) == b@.subrange(0, i as int),
            text_lt(a@, b@) == text_lt(a@.skip(i as int), b@.skip(i as int)),
            text_lt(b@, a@) == text_lt(b@.skip(i as int), a@.skip(i as int)),
        decreases a@.len() - i,
    {
        let x = a[i];
        let y = b[i];
        assert(a@.skip(i as int)[0] == x && b@.skip(i as int)[0] == y);
        if x != y {
            assert(a@ != b@) by {
                assert(a@[i as int] != b@[i as int]);
            }
            if x < y {
                return -1;
            } else {
                return 1;
            }
        }
        assert(a@.skip(i as int).drop_first() =~= a@.skip(i as int + 1));
        assert(b@.skip(i as int).drop_first() =~= b@.skip(i as int + 1));
        assert(a@.subrange(0, i as int + 1) =~= a@.subrange(0, i as int).push(x));
        assert(b@.subrange(0, i as int + 1) =~= b@.subrange(0, i as int).push(y));
        i += 1;
    }
    if a.len() == b.len() {
        assert(a@ =~= a@.subrange(0, i as int));
        assert(b@ =~= b@.subrange(0, i as int));
        0
    } else if a.len() == i {
        assert(a@ != b@);
        -1
    } else {
        assert(a@ != b@);
        1
    }
}

} // verus!
