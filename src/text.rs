//! Character positions in UTF-8 text: how a character index maps to a byte
//! offset, and the scans that step between characters of a `str`.
use vstd::prelude::*;
use vstd::string::StringSliceAdditionalSpecFns;
use vstd::utf8::{
    encode_utf8, encode_utf8_decode_utf8, encode_utf8_first_scalar, encode_utf8_valid_utf8,
    is_char_boundary, length_of_first_scalar, pop_first_scalar,
};
use crate::model::{char_answers, char_callable, linear_back_cut, linear_front_cut};

verus! {

/// Byte offset of the character at index `k` of `c` in its UTF-8 encoding.
pub open spec fn byte_offset(c: Seq<char>, k: int) -> int {
    encode_utf8(c.take(k)).len() as int
}

/// Encoding a concatenation encodes each part in turn.
pub proof fn lemma_encode_concat(a: Seq<char>, b: Seq<char>)
    ensures
        encode_utf8(a + b) == encode_utf8(a) + encode_utf8(b),
    decreases a.len(),
{
    if a.len() == 0 {
        assert(a + b =~= b);
        assert(encode_utf8(a) + encode_utf8(b) =~= encode_utf8(b));
    } else {
        assert((a + b).drop_first() =~= a.drop_first() + b);
        lemma_encode_concat(a.drop_first(), b);
        assert(encode_utf8(a + b) =~= encode_utf8(a) + encode_utf8(b));
    }
}

/// Every character takes at least one byte.
pub proof fn lemma_encode_len(c: Seq<char>)
    ensures
        encode_utf8(c).len() >= c.len(),
    decreases c.len(),
{
    if c.len() > 0 {
        lemma_encode_len(c.drop_first());
    }
}

/// The offset of `k` splits the encoding into the encodings of the first `k`
/// characters and of the rest; a later index has a larger offset.
pub proof fn lemma_byte_offset(c: Seq<char>, k: int)
    requires
        0 <= k <= c.len(),
    ensures
        encode_utf8(c) == encode_utf8(c.take(k)) + encode_utf8(c.skip(k)),
        byte_offset(c, k) <= encode_utf8(c).len(),
        k == c.len() ==> byte_offset(c, k) == encode_utf8(c).len(),
        k < c.len() ==> byte_offset(c, k) < encode_utf8(c).len(),
        forall|j: int| 0 <= j < k ==> byte_offset(c, j) < byte_offset(c, k),
{
    assert(c.take(k) + c.skip(k) =~= c);
    lemma_encode_concat(c.take(k), c.skip(k));
    assert(c.take(c.len() as int) =~= c);
    lemma_encode_len(c.skip(k));
    assert forall|j: int| 0 <= j < k implies byte_offset(c, j) < byte_offset(c, k) by {
        let t = c.take(k);
        assert(t.take(j) + t.skip(j) =~= t);
        assert(t.take(j) =~= c.take(j));
        lemma_encode_concat(t.take(j), t.skip(j));
        lemma_encode_len(t.skip(j));
    }
}

/// The encoding of `a` ends on a character boundary of the encoding of
/// `a + b`.
pub proof fn lemma_boundary_after(a: Seq<char>, b: Seq<char>)
    ensures
        is_char_boundary(encode_utf8(a + b), encode_utf8(a).len() as int),
    decreases a.len(),
{
    encode_utf8_valid_utf8(a + b);
    lemma_encode_concat(a, b);
    if a.len() > 0 {
        let bytes = encode_utf8(a + b);
        encode_utf8_first_scalar(a + b);
        assert((a + b).drop_first() =~= a.drop_first() + b);
        assert(pop_first_scalar(bytes) =~= encode_utf8(a.drop_first() + b));
        lemma_boundary_after(a.drop_first(), b);
    }
}

/// Every character boundary of an encoding is the offset of some index.
pub proof fn lemma_boundary_is_offset(c: Seq<char>, i: int) -> (k: int)
    requires
        is_char_boundary(encode_utf8(c), i),
    ensures
        0 <= k <= c.len(),
        i == byte_offset(c, k),
    decreases c.len(),
{
    encode_utf8_valid_utf8(c);
    if i == 0 {
        assert(c.take(0) =~= Seq::<char>::empty());
        0
    } else {
        let bytes = encode_utf8(c);
        encode_utf8_first_scalar(c);
        let l = length_of_first_scalar(bytes);
        assert(pop_first_scalar(bytes) =~= encode_utf8(c.drop_first()));
        let k1 = lemma_boundary_is_offset(c.drop_first(), i - l);
        assert(c.take(k1 + 1).drop_first() =~= c.drop_first().take(k1));
        k1 + 1
    }
}

/// The offset of an index is a character boundary, and the text on each side
/// of it is the characters on that side.
pub proof fn lemma_split_at_offset(c: Seq<char>, k: int)
    requires
        0 <= k <= c.len(),
    ensures
        is_char_boundary(encode_utf8(c), byte_offset(c, k)),
        encode_utf8(c).subrange(0, byte_offset(c, k)) == encode_utf8(c.take(k)),
        encode_utf8(c).subrange(byte_offset(c, k), encode_utf8(c).len() as int) == encode_utf8(
            c.skip(k),
        ),
{
    lemma_byte_offset(c, k);
    assert(c.take(k) + c.skip(k) =~= c);
    lemma_boundary_after(c.take(k), c.skip(k));
    assert(encode_utf8(c).subrange(0, byte_offset(c, k)) =~= encode_utf8(c.take(k)));
    assert(encode_utf8(c).subrange(byte_offset(c, k), encode_utf8(c).len() as int)
        =~= encode_utf8(c.skip(k)));
}

/// Text whose encoding is that of `c` holds the characters of `c`.
pub proof fn lemma_same_encoding(x: Seq<char>, c: Seq<char>)
    requires
        encode_utf8(x) == encode_utf8(c),
    ensures
        x == c,
{
    encode_utf8_decode_utf8(x);
    encode_utf8_decode_utf8(c);
}

/// The character at index `k` of `s`, found at its byte offset `off`.
fn char_at(s: &str, off: usize, Ghost(k): Ghost<int>) -> (ch: char)
    requires
        0 <= k < s@.len(),
        off == byte_offset(s@, k),
    ensures
        ch == s@[k],
{
    proof {
        lemma_split_at_offset(s@, k);
    }
    let (_, tail) = s.split_at(off);
    proof {
        lemma_same_encoding(tail@, s@.skip(k));
    }
    let mut it = tail.chars();
    let next = it.next();
    next.unwrap()
}

/// Byte offset of the character after the one at index `k`.
fn next_offset(s: &str, off: usize, Ghost(k): Ghost<int>) -> (r: usize)
    requires
        0 <= k < s@.len(),
        off == byte_offset(s@, k),
        s.spec_bytes().len() <= usize::MAX,
    ensures
        r == byte_offset(s@, k + 1),
{
    proof {
        lemma_byte_offset(s@, k + 1);
        lemma_split_at_offset(s@, k + 1);
    }
    let mut i = off + 1;
    while !s.is_char_boundary(i)
        invariant
            off < i <= byte_offset(s@, k + 1),
            byte_offset(s@, k + 1) <= s.spec_bytes().len(),
            s.spec_bytes().len() <= usize::MAX,
            off == byte_offset(s@, k),
            0 <= k < s@.len(),
            is_char_boundary(s.spec_bytes(), byte_offset(s@, k + 1)),
        decreases byte_offset(s@, k + 1) - i,
    {
        i += 1;
    }
    proof {
        let j = lemma_boundary_is_offset(s@, i as int);
        lemma_byte_offset(s@, j);
        lemma_byte_offset(s@, k);
        if j > k + 1 {
            assert(byte_offset(s@, k + 1) < byte_offset(s@, j));
        }
    }
    i
}

/// Byte offset of the character before the one at index `k`.
fn prev_offset(s: &str, off: usize, Ghost(k): Ghost<int>) -> (r: usize)
    requires
        0 < k <= s@.len(),
        off == byte_offset(s@, k),
    ensures
        r == byte_offset(s@, k - 1),
{
    proof {
        lemma_byte_offset(s@, k);
        lemma_split_at_offset(s@, k - 1);
    }
    let mut i = off - 1;
    while !s.is_char_boundary(i)
        invariant
            byte_offset(s@, k - 1) <= i < off,
            off == byte_offset(s@, k),
            0 < k <= s@.len(),
            is_char_boundary(s.spec_bytes(), byte_offset(s@, k - 1)),
        decreases i,
    {
        i -= 1;
    }
    proof {
        let j = lemma_boundary_is_offset(s@, i as int);
        lemma_byte_offset(s@, j);
        lemma_byte_offset(s@, k);
        if j < k - 1 {
            lemma_byte_offset(s@, k - 1);
        }
    }
    i
}

/// The first run of non-empty text, scanning adjacent characters from the
/// front: its byte length, and its length in characters.
pub fn text_front<P: Fn(char, char) -> bool>(s: &str, p: &P) -> (r: (usize, Ghost<int>))
    requires
        s@.len() > 0,
        char_callable(*p),
    ensures
        linear_front_cut(s@, char_answers(*p), r.1@),
        r.0 == byte_offset(s@, r.1@),
{
    let n = s.as_bytes().len();
    proof {
        lemma_byte_offset(s@, s@.len() as int);
        assert(s@.take(0) =~= Seq::<char>::empty());
    }
    let ghost mut k: int = 1;
    let mut prev = char_at(s, 0, Ghost(0));
    let mut off = next_offset(s, 0, Ghost(0));
    while off < n
        invariant
            1 <= k <= s@.len(),
            n == s.spec_bytes().len(),
            byte_offset(s@, s@.len() as int) == n,
            off == byte_offset(s@, k),
            prev == s@[k - 1],
            char_callable(*p),
            forall|j: int| 0 < j < k ==> #[trigger] char_answers(*p)(s@[j - 1], s@[j], true),
        decreases n - off,
    {
        let cur = char_at(s, off, Ghost(k));
        if !p(prev, cur) {
            return (off, Ghost(k));
        }
        off = next_offset(s, off, Ghost(k));
        proof {
            lemma_byte_offset(s@, k + 1);
        }
        prev = cur;
        proof {
            k = k + 1;
        }
    }
    proof {
        if k < s@.len() {
            lemma_byte_offset(s@, k);
        }
    }
    (off, Ghost(k))
}

/// The last run of non-empty text, scanning adjacent characters from the
/// back: the byte offset where it starts, and that start in characters.
pub fn text_back<P: Fn(char, char) -> bool>(s: &str, p: &P) -> (r: (usize, Ghost<int>))
    requires
        s@.len() > 0,
        char_callable(*p),
    ensures
        linear_back_cut(s@, char_answers(*p), r.1@),
        r.0 == byte_offset(s@, r.1@),
{
    let n = s.as_bytes().len();
    proof {
        lemma_byte_offset(s@, s@.len() as int);
        assert(s@.take(0) =~= Seq::<char>::empty());
    }
    let ghost mut k: int = s@.len() - 1;
    let mut off = prev_offset(s, n, Ghost(s@.len() as int));
    let mut cur = char_at(s, off, Ghost(k));
    while off > 0
        invariant
            0 <= k < s@.len(),
            off == byte_offset(s@, k),
            cur == s@[k],
            char_callable(*p),
            forall|j: int| k < j < s@.len() ==> #[trigger] char_answers(*p)(s@[j - 1], s@[j], true),
        decreases off,
    {
        proof {
            if k == 0 {
                assert(s@.take(0) =~= Seq::<char>::empty());
            }
        }
        let poff = prev_offset(s, off, Ghost(k));
        let prev = char_at(s, poff, Ghost(k - 1));
        if !p(prev, cur) {
            return (off, Ghost(k));
        }
        proof {
            lemma_byte_offset(s@, k);
        }
        off = poff;
        cur = prev;
        proof {
            k = k - 1;
        }
    }
    proof {
        if k > 0 {
            lemma_byte_offset(s@, k);
            assert(s@.take(0) =~= Seq::<char>::empty());
        }
    }
    (off, Ghost(k))
}

} // verus!
