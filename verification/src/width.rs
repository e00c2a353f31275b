//! Display width of characters and texts, as used by the usage
//! formatter's column alignment and word wrap.
//!
//! The model is the customary terminal-cell count: control characters
//! and combining or otherwise invisible code points occupy no cell,
//! East Asian wide and fullwidth ranges occupy two, and everything
//! else occupies one. A text's width is the sum over its characters.

use vstd::prelude::*;

verus! {

/// True iff the character occupies no display cell: C0 and C1 control
/// characters, combining diacritical marks, zero-width and directional
/// marks, variation selectors, and the zero-width no-break space.
pub open spec fn is_zero_width_char(c: char) -> bool {
    let u = c as u32;
    ||| u < 0x20
    ||| (0x7F <= u && u < 0xA0)
    ||| (0x300 <= u && u <= 0x36F)
    ||| (0x200B <= u && u <= 0x200F)
    ||| (0xFE00 <= u && u <= 0xFE0F)
    ||| u == 0xFEFF
}

/// True iff the character occupies two display cells: the East Asian
/// wide and fullwidth blocks.
pub open spec fn is_wide_char(c: char) -> bool {
    let u = c as u32;
    ||| (0x1100 <= u && u <= 0x115F)
    ||| (0x2E80 <= u && u <= 0x303E)
    ||| (0x3041 <= u && u <= 0x33FF)
    ||| (0x3400 <= u && u <= 0x4DBF)
    ||| (0x4E00 <= u && u <= 0x9FFF)
    ||| (0xA000 <= u && u <= 0xA4CF)
    ||| (0xAC00 <= u && u <= 0xD7A3)
    ||| (0xF900 <= u && u <= 0xFAFF)
    ||| (0xFE30 <= u && u <= 0xFE4F)
    ||| (0xFF00 <= u && u <= 0xFF60)
    ||| (0xFFE0 <= u && u <= 0xFFE6)
    ||| (0x1F300 <= u && u <= 0x1F64F)
    ||| (0x1F900 <= u && u <= 0x1F9FF)
    ||| (0x20000 <= u && u <= 0x3FFFD)
}

/// The number of display cells one character occupies.
pub open spec fn char_width_spec(c: char) -> nat {
    if is_zero_width_char(c) {
        0
    } else if is_wide_char(c) {
        2
    } else {
        1
    }
}

/// The number of display cells a text occupies: the sum over its
/// characters.
pub open spec fn str_width_spec(s: Seq<char>) -> nat
    decreases s.len(),
{
    if s.len() == 0 {
        0
    } else {
        char_width_spec(s[0]) + str_width_spec(s.drop_first())
    }
}

/// The number of display cells one character occupies.
pub fn char_width(c: char) -> (r: usize)
    ensures
        r == char_width_spec(c),
{
    let u = c as u32;
    if u < 0x20 || (0x7F <= u && u < 0xA0) || (0x300 <= u && u <= 0x36F) || (0x200B <= u && u
        <= 0x200F) || (0xFE00 <= u && u <= 0xFE0F) || u == 0xFEFF {
        0
    } else if (0x1100 <= u && u <= 0x115F) || (0x2E80 <= u && u <= 0x303E) || (0x3041 <= u && u
        <= 0x33FF) || (0x3400 <= u && u <= 0x4DBF) || (0x4E00 <= u && u <= 0x9FFF) || (0xA000 <= u
        && u <= 0xA4CF) || (0xAC00 <= u && u <= 0xD7A3) || (0xF900 <= u && u <= 0xFAFF) || (0xFE30
        <= u && u <= 0xFE4F) || (0xFF00 <= u && u <= 0xFF60) || (0xFFE0 <= u && u <= 0xFFE6) || (
    0x1F300 <= u && u <= 0x1F64F) || (0x1F900 <= u && u <= 0x1F9FF) || (0x20000 <= u && u
        <= 0x3FFFD) {
        2
    } else {
        1
    }
}

/// A text's width splits over concatenation.
pub proof fn lemma_width_concat(a: Seq<char>, b: Seq<char>)
    ensures
        str_width_spec(a + b) == str_width_spec(a) + str_width_spec(b),
    decreases a.len(),
{
    if a.len() == 0 {
        assert(a + b =~= b);
    } else {
        lemma_width_concat(a.drop_first(), b);
        assert((a + b).drop_first() =~= a.drop_first() + b);
        assert(str_width_spec(a + b) == char_width_spec((a + b)[0]) + str_width_spec(
            (a + b).drop_first(),
        ));
    }
}

/// The width of a one-character text is that character's width.
pub proof fn lemma_width_singleton(c: char)
    ensures
        str_width_spec(seq![c]) == char_width_spec(c),
{
    assert(str_width_spec(Seq::<char>::empty()) == 0);
    assert(seq![c].drop_first() =~= Seq::<char>::empty());
    assert(seq![c][0] == c);
}

/// Appending one character adds that character's width.
pub proof fn lemma_width_push(s: Seq<char>, c: char)
    ensures
        str_width_spec(s.push(c)) == str_width_spec(s) + char_width_spec(c),
{
    assert(s.push(c) =~= s + seq![c]);
    lemma_width_concat(s, seq![c]);
    lemma_width_singleton(c);
}

/// A prefix never exceeds the whole text's width.
pub proof fn lemma_width_prefix(s: Seq<char>, i: int)
    requires
        0 <= i <= s.len(),
    ensures
        str_width_spec(s.take(i)) <= str_width_spec(s),
{
    assert(s =~= s.take(i) + s.skip(i));
    lemma_width_concat(s.take(i), s.skip(i));
}

/// The width of a text, or `None` where the sum does not fit the
/// machine word (such a width exceeds every practical display limit).
pub fn str_width_checked(s: &str) -> (r: Option<usize>)
    ensures
        match r {
            Some(w) => w == str_width_spec(s@),
            None => str_width_spec(s@) > usize::MAX,
        },
{
    let n = s.unicode_len();
    let mut acc: usize = 0;
    let mut i: usize = 0;
    while i < n
        invariant
            i <= n,
            n == s@.len(),
            acc == str_width_spec(s@.take(i as int)),
        decreases n - i,
    {
        let w = char_width(s.get_char(i));
        proof {
            lemma_width_push(s@.take(i as int), s@[i as int]);
            assert(s@.take(i as int).push(s@[i as int]) =~= s@.take(i as int + 1));
        }
        if acc > usize::MAX - w {
            proof {
                lemma_width_prefix(s@, i as int + 1);
            }
            return None;
        }
        acc = acc + w;
        i += 1;
    }
    proof {
        assert(s@.take(n as int) =~= s@);
    }
    Some(acc)
}

/// The width of a text whose sum fits the machine word.
pub fn str_width(s: &str) -> (r: usize)
    requires
        str_width_spec(s@) <= usize::MAX,
    ensures
        r == str_width_spec(s@),
{
    match str_width_checked(s) {
        Some(w) => w,
        None => {
            proof {
                assert(false);
            }
            0
        },
    }
}

} // verus!
