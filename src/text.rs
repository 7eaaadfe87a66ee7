//! Preparing a word for matching: case folding, dotting and the conversion
//! of character bounds into byte bounds.
use vstd::prelude::*;
use vstd::string::*;
use vstd::utf8::*;

verus! {

broadcast use vstd::utf8::char_is_scalar;

/// The lowercase mapping of a character, as one or more characters.
pub uninterp spec fn lower_of(c: char) -> Seq<char>;

/// Relies on `char::to_lowercase`: the characters of the lowercase mapping
/// of `c`, in order.
#[verifier::external_body]
fn to_lowercase(c: char) -> (r: Vec<char>)
    ensures
        r@ == lower_of(c),
{
    c.to_lowercase().collect()
}

/// Number of UTF-8 bytes of a character.
pub open spec fn width(c: char) -> int {
    encode_scalar(c as u32).len() as int
}

/// A character is replaced by its lowercase form only where that form is a
/// single character of the same UTF-8 width.
pub open spec fn fold_char(c: char) -> char {
    let l = lower_of(c);
    if l.len() == 1 && width(l[0]) == width(c) {
        l[0]
    } else {
        c
    }
}

/// The word with each character folded.
pub open spec fn fold_chars(w: Seq<char>) -> Seq<char> {
    w.map_values(|c: char| fold_char(c))
}

/// The dotted buffer: `.`, the folded word's bytes, `.`.
pub open spec fn dotted(w: Seq<char>) -> Seq<u8> {
    seq![46u8] + encode_utf8(fold_chars(w)) + seq![46u8]
}

/// Byte length of the first `n` characters of `w`.
pub open spec fn prefix_bytes(w: Seq<char>, n: int) -> int {
    encode_utf8(w.take(n)).len() as int
}

/// Byte length of the last `n` characters of `w`.
pub open spec fn suffix_bytes(w: Seq<char>, n: int) -> int {
    encode_utf8(w.skip(w.len() - n)).len() as int
}

/// The encoding of a concatenation is the concatenation of the encodings.
pub proof fn lemma_encode_concat(a: Seq<char>, b: Seq<char>)
    ensures
        encode_utf8(a + b) == encode_utf8(a) + encode_utf8(b),
    decreases a.len(),
{
    if a.len() == 0 {
        assert(a + b =~= b);
        assert(encode_utf8(a) =~= Seq::<u8>::empty());
        assert(encode_utf8(a) + encode_utf8(b) =~= encode_utf8(b));
    } else {
        assert((a + b).drop_first() =~= a.drop_first() + b);
        lemma_encode_concat(a.drop_first(), b);
        assert(encode_utf8(a + b) =~= encode_utf8(a) + encode_utf8(b));
    }
}

/// Folding keeps the byte length of the encoding.
pub proof fn lemma_fold_len(w: Seq<char>)
    ensures
        encode_utf8(fold_chars(w)).len() == encode_utf8(w).len(),
    decreases w.len(),
{
    if w.len() > 0 {
        assert(fold_chars(w).drop_first() =~= fold_chars(w.drop_first()));
        lemma_fold_len(w.drop_first());
    }
}

/// Two character sequences whose characters have pairwise equal widths.
pub open spec fn same_widths(a: Seq<char>, b: Seq<char>) -> bool {
    a.len() == b.len() && forall|i: int| 0 <= i < a.len() ==> width(a[i]) == width(b[i])
}

/// Folding keeps the width of every character.
pub proof fn lemma_fold_same_widths(w: Seq<char>)
    ensures
        same_widths(w, fold_chars(w)),
{
}

/// Sequences of equally wide characters have equally long encodings, and
/// characters start at the same positions in both.
pub proof fn lemma_same_widths(a: Seq<char>, b: Seq<char>)
    requires
        same_widths(a, b),
    ensures
        encode_utf8(a).len() == encode_utf8(b).len(),
        forall|p: int|
            0 <= p < encode_utf8(a).len() ==> (is_continuation_byte(encode_utf8(a)[p])
                <==> is_continuation_byte(encode_utf8(b)[p])),
    decreases a.len(),
{
    if a.len() > 0 {
        let (a1, b1) = (a.drop_first(), b.drop_first());
        assert(same_widths(a1, b1)) by {
            assert forall|i: int| 0 <= i < a1.len() implies width(a1[i]) == width(b1[i]) by {
                assert(a1[i] == a[i + 1] && b1[i] == b[i + 1]);
            }
        }
        lemma_same_widths(a1, b1);
        encode_utf8_first_scalar(a);
        encode_utf8_first_scalar(b);
        assert(width(a[0]) == width(b[0]));
        let ea = encode_utf8(a);
        let eb = encode_utf8(b);
        let wa = encode_scalar(a[0] as u32).len() as int;
        assert forall|p: int| 0 <= p < ea.len() implies (is_continuation_byte(ea[p])
            <==> is_continuation_byte(eb[p])) by {
            if p >= wa {
                assert(ea[p] == encode_utf8(a1)[p - wa]);
                assert(eb[p] == encode_utf8(b1)[p - wa]);
            }
        }
    }
}

/// Number of UTF-8 bytes of `c`.
pub fn char_width(c: char) -> (r: usize)
    ensures
        r as int == width(c),
        1 <= r <= 4,
{
    let v = c as u32;
    if v <= 0x7f {
        1
    } else if v <= 0x7ff {
        2
    } else if v <= 0xffff {
        3
    } else {
        4
    }
}

/// Append the UTF-8 encoding of `c`.
fn push_utf8(buf: &mut Vec<u8>, c: char)
    ensures
        final(buf)@ == old(buf)@ + encode_scalar(c as u32),
{
    let v = c as u32;
    if v <= 0x7f {
        buf.push((v & 0x7f) as u8);
    } else if v <= 0x7ff {
        buf.push(0xc0 | ((v >> 6) & 0x1f) as u8);
        buf.push(0x80 | (v & 0x3f) as u8);
    } else if v <= 0xffff {
        buf.push(0xe0 | ((v >> 12) & 0x0f) as u8);
        buf.push(0x80 | ((v >> 6) & 0x3f) as u8);
        buf.push(0x80 | (v & 0x3f) as u8);
    } else {
        buf.push(0xf0 | ((v >> 18) & 0x07) as u8);
        buf.push(0x80 | ((v >> 12) & 0x3f) as u8);
        buf.push(0x80 | ((v >> 6) & 0x3f) as u8);
        buf.push(0x80 | (v & 0x3f) as u8);
    }
    assert(buf@ =~= old(buf)@ + encode_scalar(c as u32));
}


/// The number of characters that a bound of `n` covers in `w`: at least one,
/// at most the whole word.
pub open spec fn clamp_bound(w: Seq<char>, n: int) -> int {
    let m = if n < 1 { 1 } else { n };
    if m > w.len() { w.len() as int } else { m }
}

/// Smallest split index in the dotted buffer that the left bound allows.
pub open spec fn min_index(w: Seq<char>, left_min: int) -> int {
    1 + prefix_bytes(w, clamp_bound(w, left_min))
}

/// Largest split index in the dotted buffer that the right bound allows.
pub open spec fn max_index(w: Seq<char>, right_min: int) -> int {
    1 + encode_utf8(w).len() - suffix_bytes(w, clamp_bound(w, right_min))
}

proof fn lemma_encode_single(c: char)
    ensures
        encode_utf8(seq![c]) == encode_scalar(c as u32),
{
    reveal_with_fuel(encode_utf8, 2);
    assert(seq![c].drop_first() =~= Seq::<char>::empty());
    assert(encode_utf8(seq![c].drop_first()) =~= Seq::<u8>::empty());
    assert(encode_utf8(seq![c]) =~= encode_scalar(c as u32));
}

/// Lowercase a word and add dots before and after it.
///
/// The dots enable patterns that match based on whether they are at the edges
/// of the word.
pub fn lowercase_and_dot(word: &str) -> (r: Vec<u8>)
    ensures
        r@ == dotted(word@),
        r@.len() == word.spec_bytes().len() + 2,
{
    let ghost w = word@;
    let n = word.unicode_len();
    let mut buf: Vec<u8> = Vec::new();
    buf.push(46u8);
    let mut i: usize = 0;
    while i < n
        invariant
            w == word@,
            n == w.len(),
            0 <= i <= n,
            buf@ == seq![46u8] + encode_utf8(fold_chars(w).take(i as int)),
        decreases n - i,
    {
        let c = word.get_char(i);
        let lower = to_lowercase(c);
        let mut l = c;
        if lower.len() == 1 && char_width(lower[0]) == char_width(c) {
            l = lower[0];
        }
        assert(l == fold_chars(w)[i as int]);
        push_utf8(&mut buf, l);
        proof {
            let f = fold_chars(w);
            assert(f.take(i + 1) =~= f.take(i as int) + seq![l]);
            lemma_encode_concat(f.take(i as int), seq![l]);
            lemma_encode_single(l);
        }
        i += 1;
    }
    buf.push(46u8);
    proof {
        assert(fold_chars(w).take(n as int) =~= fold_chars(w));
        lemma_fold_len(w);
    }
    assert(buf@ =~= dotted(w));
    buf
}

/// The encoding of a prefix is no longer than that of the word.
proof fn lemma_part_len(w: Seq<char>, n: int)
    requires
        0 <= n <= w.len(),
    ensures
        prefix_bytes(w, n) + encode_utf8(w.skip(n)).len() == encode_utf8(w).len(),
{
    assert(w =~= w.take(n) + w.skip(n));
    lemma_encode_concat(w.take(n), w.skip(n));
}

/// Convert char bounds to byte bounds in the dotted word.
pub fn char_to_byte_bounds(word: &str, left_min: usize, right_min: usize) -> (r: (usize, usize))
    requires
        word.spec_bytes().len() + 2 <= usize::MAX,
    ensures
        r.0 as int == min_index(word@, left_min as int),
        r.1 as int == max_index(word@, right_min as int),
        r.1 as int <= 1 + word.spec_bytes().len(),
{
    let ghost w = word@;
    let n = word.unicode_len();
    let total = word.as_bytes().len();
    let left = if left_min < 1 { 1 } else { left_min };
    let left = if left > n { n } else { left };
    let right = if right_min < 1 { 1 } else { right_min };
    let right = if right > n { n } else { right };
    assert(word.spec_bytes() == encode_utf8(w));
    let mut pre: usize = 0;
    let mut i: usize = 0;
    while i < left
        invariant
            w == word@,
            n == w.len(),
            total == encode_utf8(w).len(),
            left <= n,
            0 <= i <= left,
            pre as int == prefix_bytes(w, i as int),
        decreases left - i,
    {
        let c = word.get_char(i);
        proof {
            assert(w.take(i + 1) =~= w.take(i as int) + seq![c]);
            lemma_encode_concat(w.take(i as int), seq![c]);
            lemma_encode_single(c);
            lemma_part_len(w, i + 1);
        }
        pre += char_width(c);
        i += 1;
    }
    let mut suf: usize = 0;
    let mut k: usize = 0;
    while k < right
        invariant
            w == word@,
            n == w.len(),
            total == encode_utf8(w).len(),
            right <= n,
            0 <= k <= right,
            suf as int == suffix_bytes(w, k as int),
        decreases right - k,
    {
        let c = word.get_char(n - 1 - k);
        proof {
            let j = n - 1 - k;
            assert(w.skip(j) =~= seq![c] + w.skip(j + 1));
            lemma_encode_concat(seq![c], w.skip(j + 1));
            lemma_encode_single(c);
            lemma_part_len(w, j);
        }
        suf += char_width(c);
        k += 1;
    }
    proof {
        lemma_part_len(w, n - right);
        lemma_part_len(w, left as int);
    }
    (1 + pre, 1 + total - suf)
}

} // verus!
