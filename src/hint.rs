use vstd::prelude::*;
use vstd::string::StringExecFns;
use crate::outcomes::BUCKETS_SIZE;
use crate::word::WORD_LEN;

verus! {

/// The digit a hint glyph stands for: `!`, `Y` or `y` exact, `?`, `G` or `g`
/// present elsewhere, `_` or `.` absent.
pub open spec fn glyph_digit(c: char) -> Option<nat> {
    if c == '!' || c == 'Y' || c == 'y' {
        Some(2)
    } else if c == '?' || c == 'G' || c == 'g' {
        Some(1)
    } else if c == '_' || c == '.' {
        Some(0)
    } else {
        None
    }
}

/// Five hint glyphs.
pub open spec fn is_hint_text(s: Seq<char>) -> bool {
    &&& s.len() == WORD_LEN
    &&& forall|i: int| 0 <= i < s.len() ==> (#[trigger] glyph_digit(s[i])) is Some
}

/// The base-3 number of the first `n` glyphs, most significant first.
pub open spec fn hint_value(s: Seq<char>, n: nat) -> nat
    decreases n,
{
    if n == 0 {
        0
    } else {
        hint_value(s, (n - 1) as nat) * 3 + glyph_digit(s[n - 1]).unwrap()
    }
}

/// The glyph that renders a digit.
pub open spec fn glyph(d: int) -> char {
    if d == 2 {
        '!'
    } else if d == 1 {
        '?'
    } else {
        '_'
    }
}

/// The five glyphs of a hint code, most significant digit first.
pub open spec fn label_of(code: int) -> Seq<char> {
    seq![glyph((code / 81) % 3), glyph((code / 27) % 3), glyph((code / 9) % 3), glyph((code / 3) % 3), glyph(code % 3)]
}

/// Reads a hint written with one glyph per position; `None` when the text is
/// not five glyphs.
pub fn string_to_outcome(s: &str) -> (r: Option<u8>)
    ensures
        r is Some <==> is_hint_text(s@),
        r matches Some(v) ==> v == hint_value(s@, WORD_LEN as nat),
{
    let n = s.unicode_len();
    if n != WORD_LEN {
        return None;
    }
    let mut rv: u8 = 0;
    let mut i: usize = 0;
    while i < n
        invariant
            n == s@.len() == WORD_LEN,
            i <= n,
            forall|j: int| 0 <= j < i ==> (#[trigger] glyph_digit(s@[j])) is Some,
            rv == hint_value(s@, i as nat),
            rv <= if i == 0 {
                0int
            } else if i == 1 {
                2
            } else if i == 2 {
                8
            } else if i == 3 {
                26
            } else if i == 4 {
                80
            } else {
                242
            },
        decreases n - i,
    {
        let c = s.get_char(i);
        let d: u8 = if c == '!' || c == 'Y' || c == 'y' {
            2
        } else if c == '?' || c == 'G' || c == 'g' {
            1
        } else if c == '_' || c == '.' {
            0
        } else {
            assert(glyph_digit(s@[i as int]) is None);
            return None;
        };
        rv = rv * 3 + d;
        i = i + 1;
    }
    Some(rv)
}

fn push_glyph(s: &mut String, d: usize)
    requires
        d < 3,
    ensures
        final(s)@ == old(s)@.push(glyph(d as int)),
{
    proof {
        reveal_strlit("!");
        reveal_strlit("?");
        reveal_strlit("_");
    }
    if d == 2 {
        s.append("!");
    } else if d == 1 {
        s.append("?");
    } else {
        s.append("_");
    }
    assert(s@ =~= old(s)@.push(glyph(d as int)));
}

/// Renders a hint code as five glyphs: `!` exact, `?` present elsewhere,
/// `_` absent.
pub fn bucket_label(bucket_idx: usize) -> (r: String)
    requires
        bucket_idx < BUCKETS_SIZE,
    ensures
        r@ == label_of(bucket_idx as int),
{
    let mut rv = String::new();
    push_glyph(&mut rv, (bucket_idx / 81) % 3);
    push_glyph(&mut rv, (bucket_idx / 27) % 3);
    push_glyph(&mut rv, (bucket_idx / 9) % 3);
    push_glyph(&mut rv, (bucket_idx / 3) % 3);
    push_glyph(&mut rv, bucket_idx % 3);
    assert(rv@ =~= label_of(bucket_idx as int));
    rv
}

} // verus!
