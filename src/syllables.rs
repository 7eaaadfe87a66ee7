//! The syllables of a hyphenated word.
use vstd::prelude::*;
use vstd::string::*;
use vstd::utf8::*;
use crate::text::lemma_encode_concat;

verus! {

/// Whether a byte is a character boundary.
pub fn is_char_boundary(b: u8) -> (r: bool)
    ensures
        r == is_lead(b),
{
    b < 0x80 || b >= 0xc0
}

broadcast use vstd::utf8::encode_utf8_valid_utf8;

/// A byte that starts a character (it is not a UTF-8 continuation byte).
pub open spec fn is_lead(b: u8) -> bool {
    !(0x80 <= b <= 0xbf)
}

/// The word is broken before byte `p`: the level of the gap is odd and `p`
/// starts a character.
pub open spec fn is_break(bytes: Seq<u8>, levels: Seq<u8>, p: int) -> bool {
    &&& 0 < p < bytes.len()
    &&& p - 1 < levels.len()
    &&& levels[p - 1] % 2 == 1
    &&& is_lead(bytes[p])
}

/// The syllables of `bytes[start..]`, where the syllable that begins at
/// `start` has been scanned up to (excluding) position `c`.
pub open spec fn pieces(bytes: Seq<u8>, levels: Seq<u8>, start: int, c: int) -> Seq<Seq<u8>>
    decreases bytes.len() - c,
{
    if c >= bytes.len() {
        if 0 <= start < bytes.len() {
            seq![bytes.subrange(start, bytes.len() as int)]
        } else {
            Seq::empty()
        }
    } else if c > start && is_break(bytes, levels, c) {
        seq![bytes.subrange(start, c)] + pieces(bytes, levels, c, c + 1)
    } else {
        pieces(bytes, levels, start, c + 1)
    }
}

/// All syllables of a word, given the levels of its inner gaps.
pub open spec fn syllables_of(bytes: Seq<u8>, levels: Seq<u8>) -> Seq<Seq<u8>> {
    pieces(bytes, levels, 0, 1)
}

/// Number of break positions in `[lo, bytes.len())`.
pub open spec fn breaks_from(bytes: Seq<u8>, levels: Seq<u8>, lo: int) -> int
    decreases bytes.len() - lo,
{
    if lo >= bytes.len() {
        0
    } else {
        (if is_break(bytes, levels, lo) { 1int } else { 0int }) + breaks_from(bytes, levels, lo + 1)
    }
}

/// The pieces joined with `sep` between each two.
pub open spec fn joined(ps: Seq<Seq<u8>>, sep: Seq<u8>) -> Seq<u8>
    decreases ps.len(),
{
    if ps.len() == 0 {
        Seq::empty()
    } else if ps.len() == 1 {
        ps[0]
    } else {
        ps[0] + sep + joined(ps.drop_first(), sep)
    }
}

/// Number of pieces from a scan that has reached `c`: one for the syllable
/// in progress and one for each break at or after `c`.
pub proof fn lemma_pieces_len(bytes: Seq<u8>, levels: Seq<u8>, start: int, c: int)
    requires
        0 <= start < c,
    ensures
        pieces(bytes, levels, start, c).len() == if start < bytes.len() {
            1 + breaks_from(bytes, levels, c)
        } else {
            0
        },
    decreases bytes.len() - c,
{
    if c < bytes.len() {
        if is_break(bytes, levels, c) {
            lemma_pieces_len(bytes, levels, c, c + 1);
        } else {
            lemma_pieces_len(bytes, levels, start, c + 1);
        }
    }
}

/// Concatenating the pieces from a scan that started at `start` gives back
/// `bytes[start..]`.
pub proof fn lemma_pieces_concat(bytes: Seq<u8>, levels: Seq<u8>, start: int, c: int)
    requires
        0 <= start < c,
        start < bytes.len(),
    ensures
        joined(pieces(bytes, levels, start, c), Seq::empty()) == bytes.subrange(
            start,
            bytes.len() as int,
        ),
    decreases bytes.len() - c,
{
    if c < bytes.len() {
        if is_break(bytes, levels, c) {
            lemma_pieces_concat(bytes, levels, c, c + 1);
            lemma_pieces_len(bytes, levels, c, c + 1);
            let ps = pieces(bytes, levels, start, c);
            assert(ps.drop_first() =~= pieces(bytes, levels, c, c + 1));
            assert(bytes.subrange(start, c) + Seq::<u8>::empty() + bytes.subrange(
                c,
                bytes.len() as int,
            ) =~= bytes.subrange(start, bytes.len() as int));
        } else {
            lemma_pieces_concat(bytes, levels, start, c + 1);
        }
    }
}

/// Appending a piece to a joined sequence.
pub proof fn lemma_joined_push(ps: Seq<Seq<u8>>, x: Seq<u8>, sep: Seq<u8>)
    requires
        ps.len() > 0,
    ensures
        joined(ps.push(x), sep) == joined(ps, sep) + sep + x,
    decreases ps.len(),
{
    if ps.len() == 1 {
        assert(ps.push(x).drop_first() =~= seq![x]);
        assert(joined(seq![x], sep) == x);
    } else {
        assert(ps.push(x).drop_first() =~= ps.drop_first().push(x));
        lemma_joined_push(ps.drop_first(), x, sep);
        assert(joined(ps.push(x), sep) =~= joined(ps, sep) + sep + x);
    }
}

/// Joining the syllables of a word without a separator gives the word back.
pub proof fn lemma_join_identity(bytes: Seq<u8>, levels: Seq<u8>)
    ensures
        joined(syllables_of(bytes, levels), Seq::empty()) == bytes,
{
    if bytes.len() > 0 {
        lemma_pieces_concat(bytes, levels, 0, 1);
        assert(bytes.subrange(0, bytes.len() as int) =~= bytes);
    } else {
        assert(bytes =~= Seq::<u8>::empty());
    }
}

/// A word has no syllable when it is empty, and otherwise one more than it
/// has breaks.
pub proof fn lemma_syllable_count(bytes: Seq<u8>, levels: Seq<u8>)
    ensures
        syllables_of(bytes, levels).len() == if bytes.len() == 0 {
            0
        } else {
            1 + breaks_from(bytes, levels, 1)
        },
{
    lemma_pieces_len(bytes, levels, 0, 1);
}

/// An iterator over the syllables of a word.
///
/// This struct is created by `hyphenate` and `hyphenate_bounded`.
#[derive(Clone)]
pub struct Syllables<'a> {
    word: &'a str,
    cursor: usize,
    levels: Vec<u8>,
}

impl<'a> Syllables<'a> {
    /// Bytes of the word.
    pub closed spec fn bytes(&self) -> Seq<u8> {
        self.word.spec_bytes()
    }

    /// Levels of the word's inner gaps.
    pub closed spec fn gaps(&self) -> Seq<u8> {
        self.levels@
    }

    /// Start of the next syllable.
    pub closed spec fn position(&self) -> int {
        self.cursor as int
    }

    /// The syllables that are still to come.
    pub open spec fn remaining(&self) -> Seq<Seq<u8>> {
        pieces(self.bytes(), self.gaps(), self.position(), self.position() + 1)
    }

    /// The cursor is the start of the word, its end, or a break.
    pub closed spec fn wf(&self) -> bool {
        let n = self.word.spec_bytes().len();
        &&& self.cursor <= n
        &&& self.cursor == 0 || self.cursor == n || is_break(
            self.word.spec_bytes(),
            self.levels@,
            self.cursor as int,
        )
    }

    /// Syllables of `word` broken by the levels of its inner gaps.
    pub fn new(word: &'a str, levels: Vec<u8>) -> (r: Self)
        ensures
            r.wf(),
            r.bytes() == word.spec_bytes(),
            r.gaps() == levels@,
            r.position() == 0,
            r.remaining() == syllables_of(word.spec_bytes(), levels@),
    {
        Syllables { word, cursor: 0, levels }
    }

    /// Whether the word is broken before byte `p`.
    fn breaks_at(&self, bytes: &[u8], p: usize) -> (r: bool)
        requires
            bytes@ == self.bytes(),
            0 < p < bytes@.len(),
        ensures
            r == is_break(self.bytes(), self.gaps(), p as int),
    {
        p - 1 < self.levels.len() && self.levels[p - 1] % 2 == 1 && is_char_boundary(bytes[p])
    }

    /// Join the syllables with a separator like a hyphen or soft hyphen.
    #[verifier::rlimit(60)]
    pub fn join(self, sep: &str) -> (r: String)
        requires
            self.wf(),
        ensures
            encode_utf8(r@) == joined(self.remaining(), sep.spec_bytes()),
    {
        let mut rest = self;
        let ghost all = rest.remaining();
        let ghost sepb = sep.spec_bytes();
        let total = rest.len();
        let mut out = String::new();
        let mut i: usize = 0;
        while i < total
            invariant
                rest.wf(),
                total == all.len(),
                sepb == sep.spec_bytes(),
                0 <= i <= total,
                rest.remaining() == all.skip(i as int),
                encode_utf8(out@) == joined(all.take(i as int), sepb),
            decreases total - i,
        {
            let ghost before = out@;
            let piece = rest.next();
            assert(all.skip(i as int)[0] == all[i as int]);
            assert(all.skip(i as int).drop_first() =~= all.skip(i + 1));
            match piece {
                Some(p) => {
                    if i > 0 {
                        out.append(sep);
                        out.append(p);
                        proof {
                            lemma_encode_concat(before, sep@);
                            lemma_encode_concat(before + sep@, p@);
                            assert(all.take(i + 1) =~= all.take(i as int).push(all[i as int]));
                            lemma_joined_push(all.take(i as int), all[i as int], sepb);
                            assert(out@ =~= before + sep@ + p@);
                        }
                    } else {
                        out.append(p);
                        proof {
                            assert(all.take(1) =~= seq![all[0]]);
                            assert(out@ =~= p@);
                        }
                    }
                },
                None => {},
            }
            i += 1;
        }
        assert(all.take(total as int) =~= all);
        out
    }

    /// The remaining number of syllables.
    pub fn len(&self) -> (r: usize)
        requires
            self.wf(),
        ensures
            r == self.remaining().len(),
    {
        let bytes = self.word.as_bytes();
        let n = bytes.len();
        if self.cursor >= n {
            return 0;
        }
        let mut count: usize = 1;
        let mut p: usize = n;
        while p > self.cursor + 1
            invariant
                bytes@ == self.bytes(),
                n == bytes@.len(),
                self.cursor < n,
                self.cursor < p <= n,
                count == 1 + breaks_from(self.bytes(), self.gaps(), p as int),
                count <= 1 + n - p,
            decreases p,
        {
            p -= 1;
            if self.breaks_at(bytes, p) {
                count += 1;
            }
        }
        proof {
            lemma_pieces_len(self.bytes(), self.gaps(), self.position(), self.position() + 1);
        }
        count
    }

    /// The next syllable, if any.
    pub fn next(&mut self) -> (r: Option<&'a str>)
        requires
            old(self).wf(),
        ensures
            final(self).wf(),
            final(self).bytes() == old(self).bytes(),
            final(self).gaps() == old(self).gaps(),
            old(self).remaining().len() == 0 ==> r is None && final(self).remaining() == old(
                self,
            ).remaining(),
            old(self).remaining().len() > 0 ==> r is Some && r->0.spec_bytes() == old(
                self,
            ).remaining()[0] && final(self).remaining() == old(self).remaining().drop_first(),
    {
        let bytes = self.word.as_bytes();
        let n = bytes.len();
        let start = self.cursor;
        if start >= n {
            return None;
        }
        let mut end = start + 1;
        while end < n && !self.breaks_at(bytes, end)
            invariant
                bytes@ == self.bytes(),
                n == bytes@.len(),
                start < end <= n,
                pieces(self.bytes(), self.gaps(), start as int, start + 1) == pieces(
                    self.bytes(),
                    self.gaps(),
                    start as int,
                    end as int,
                ),
            decreases n - end,
        {
            end += 1;
        }
        proof {
            let b = self.word.spec_bytes();
            assert(valid_utf8(b));
            is_char_boundary_start_end_of_seq(b);
            if start < b.len() {
                is_char_boundary_iff_not_is_continuation_byte(b, start as int);
            }
            if end < b.len() {
                is_char_boundary_iff_not_is_continuation_byte(b, end as int);
            }
        }
        let (head, _) = self.word.split_at(end);
        proof {
            let h = head.spec_bytes();
            assert(valid_utf8(h));
            assert(h =~= self.word.spec_bytes().subrange(0, end as int));
            is_char_boundary_start_end_of_seq(h);
            if start < h.len() {
                is_char_boundary_iff_not_is_continuation_byte(h, start as int);
            }
        }
        let (_, piece) = head.split_at(start);
        self.cursor = end;
        Some(piece)
    }
}

} // verus!
