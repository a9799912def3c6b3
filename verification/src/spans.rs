//! Byte offsets into a text and the characters they fall between. The
//! parser reports spans in bytes; the library slices text by characters.
use vstd::prelude::*;
use vstd::utf8::{encode_scalar, encode_utf8};
use crate::text::utf8_len;

verus! {

/// Number of bytes in the UTF-8 encoding of one character.
pub open spec fn char_width(c: char) -> nat {
    encode_scalar(c as u32).len()
}

/// Byte offset of the boundary before character `i` of `s`.
pub open spec fn byte_offset(s: Seq<char>, i: int) -> nat {
    utf8_len(s.take(i))
}

/// `b` is the byte offset of a character boundary of `s`.
pub open spec fn is_boundary(s: Seq<char>, b: int) -> bool {
    exists|i: int| 0 <= i <= s.len() && #[trigger] byte_offset(s, i) == b
}

/// The character index whose boundary lies at byte `b`.
pub open spec fn char_index(s: Seq<char>, b: int) -> int {
    choose|i: int| 0 <= i <= s.len() && #[trigger] byte_offset(s, i) == b
}

/// Encoding distributes over concatenation.
pub proof fn lemma_encode_concat(a: Seq<char>, b: Seq<char>)
    ensures
        encode_utf8(a + b) == encode_utf8(a) + encode_utf8(b),
    decreases a.len(),
{
    if a.len() == 0 {
        assert(a + b =~= b);
        assert(encode_utf8(a) =~= Seq::<u8>::empty());
        assert(encode_utf8(a) + encode_utf8(b) =~= encode_utf8(b));
    } else {
        lemma_encode_concat(a.drop_first(), b);
        assert((a + b).drop_first() =~= a.drop_first() + b);
        assert((a + b)[0] == a[0]);
        assert(encode_scalar(a[0] as u32) + (encode_utf8(a.drop_first()) + encode_utf8(b)) =~= (
        encode_scalar(a[0] as u32) + encode_utf8(a.drop_first())) + encode_utf8(b));
    }
}

/// Every character takes one to four bytes.
pub proof fn lemma_char_width(c: char)
    ensures
        1 <= char_width(c) <= 4,
        (c as u32) < 0x80 ==> char_width(c) == 1,
        0x80 <= (c as u32) < 0x800 ==> char_width(c) == 2,
        0x800 <= (c as u32) < 0x10000 ==> char_width(c) == 3,
        0x10000 <= (c as u32) ==> char_width(c) == 4,
{
}

/// The boundary after character `i` lies one character width further on.
pub proof fn lemma_offset_step(s: Seq<char>, i: int)
    requires
        0 <= i < s.len(),
    ensures
        byte_offset(s, i + 1) == byte_offset(s, i) + char_width(s[i]),
{
    assert(s.take(i + 1) =~= s.take(i) + seq![s[i]]);
    lemma_encode_concat(s.take(i), seq![s[i]]);
    let one = seq![s[i]];
    assert(one.drop_first() =~= Seq::<char>::empty());
    assert(encode_utf8(one.drop_first()) =~= Seq::<u8>::empty());
    assert(encode_utf8(one) == encode_scalar(one[0] as u32) + encode_utf8(one.drop_first()));
    assert(encode_utf8(one) =~= encode_scalar(s[i] as u32));
}

/// Boundaries are strictly increasing in the character index.
pub proof fn lemma_offset_monotone(s: Seq<char>, i: int, j: int)
    requires
        0 <= i < j <= s.len(),
    ensures
        byte_offset(s, i) < byte_offset(s, j),
    decreases j - i,
{
    lemma_offset_step(s, j - 1);
    lemma_char_width(s[j - 1]);
    if i < j - 1 {
        lemma_offset_monotone(s, i, j - 1);
    }
}

/// A boundary names exactly one character index.
pub proof fn lemma_char_index(s: Seq<char>, i: int)
    requires
        0 <= i <= s.len(),
    ensures
        is_boundary(s, byte_offset(s, i) as int),
        char_index(s, byte_offset(s, i) as int) == i,
{
    let b = byte_offset(s, i) as int;
    assert(is_boundary(s, b));
    let k = char_index(s, b);
    if k < i {
        lemma_offset_monotone(s, k, i);
    } else if i < k {
        lemma_offset_monotone(s, i, k);
    }
}

/// Byte width of one character.
pub fn width_of(c: char) -> (n: usize)
    ensures
        n == char_width(c),
{
    proof {
        lemma_char_width(c);
    }
    let v = c as u32;
    if v < 0x80 {
        1
    } else if v < 0x800 {
        2
    } else if v < 0x10000 {
        3
    } else {
        4
    }
}

/// The byte offset of every character boundary of `text`, first to last.
pub fn boundaries(text: &str) -> (r: Vec<usize>)
    ensures
        r@.len() == text@.len() + 1,
        forall|i: int| 0 <= i <= text@.len() ==> #[trigger] r@[i] == byte_offset(text@, i),
{
    let n: usize = text.as_bytes().len();
    let cs = crate::text::chars_of(text);
    proof {
        assert(cs@.take(cs@.len() as int) =~= cs@);
        assert(n == utf8_len(text@));
    }
    let mut r: Vec<usize> = Vec::new();
    r.push(0);
    assert(text@.take(0) =~= Seq::<char>::empty());
    let mut off: usize = 0;
    let mut i: usize = 0;
    while i < cs.len()
        invariant
            cs@ == text@,
            n == byte_offset(text@, text@.len() as int),
            i <= cs@.len(),
            r@.len() == i + 1,
            off == byte_offset(text@, i as int),
            forall|k: int| 0 <= k <= i ==> #[trigger] r@[k] == byte_offset(text@, k),
        decreases cs@.len() - i,
    {
        proof {
            lemma_offset_step(text@, i as int);
            if i + 1 < text@.len() {
                lemma_offset_monotone(text@, i + 1, text@.len() as int);
            }
        }
        let w = width_of(cs[i]);
        off = off + w;
        r.push(off);
        i = i + 1;
    }
    r
}

/// The character index at byte `b`, when `b` is a character boundary.
pub fn index_at(bounds: &Vec<usize>, text: &str, b: usize) -> (r: Option<usize>)
    requires
        bounds@.len() == text@.len() + 1,
        forall|i: int| 0 <= i <= text@.len() ==> #[trigger] bounds@[i] == byte_offset(text@, i),
    ensures
        r is Some <==> is_boundary(text@, b as int),
        r matches Some(i) ==> i == char_index(text@, b as int) && i <= text@.len(),
{
    let mut lo: usize = 0;
    let mut hi: usize = bounds.len();
    while lo < hi
        invariant
            bounds@.len() == text@.len() + 1,
            forall|i: int| 0 <= i <= text@.len() ==> #[trigger] bounds@[i] == byte_offset(text@, i),
            0 <= lo <= hi <= bounds@.len(),
            forall|i: int| 0 <= i < lo ==> byte_offset(text@, i) < b,
            forall|i: int| hi <= i <= text@.len() ==> byte_offset(text@, i) > b,
        decreases hi - lo,
    {
        let mid = lo + (hi - lo) / 2;
        let v = bounds[mid];
        if v == b {
            proof {
                lemma_char_index(text@, mid as int);
            }
            return Some(mid);
        } else if v < b {
            proof {
                assert forall|i: int| 0 <= i < mid + 1 implies byte_offset(text@, i) < b by {
                    if i < mid {
                        lemma_offset_monotone(text@, i, mid as int);
                    }
                }
            }
            lo = mid + 1;
        } else {
            proof {
                assert forall|i: int| mid <= i <= text@.len() implies byte_offset(text@, i) > b by {
                    if mid < i {
                        lemma_offset_monotone(text@, mid as int, i);
                    }
                }
            }
            hi = mid;
        }
    }
    proof {
        if is_boundary(text@, b as int) {
            let k = choose|i: int| 0 <= i <= text@.len() && #[trigger] byte_offset(text@, i) == b;
            assert(bounds@[k] == byte_offset(text@, k));
        }
    }
    None
}

} // verus!
