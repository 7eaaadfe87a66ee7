//! The Liang matcher: levels of a word's gaps from the encoded trie.
use vstd::prelude::*;
use vstd::string::*;
use vstd::utf8::encode_utf8;
use crate::encode::{encoding, lemma_pointer_sanity, EncodeError};
use crate::max;
use crate::state::{blob_ok, cum_dist, packed_levels, root_addr, step, State};
use crate::syllables::{is_break, is_char_boundary, is_lead, syllables_of, Syllables};
use crate::text::{
    char_to_byte_bounds, clamp_bound, dotted, fold_chars, lemma_fold_len, lemma_fold_same_widths,
    lemma_same_widths, lowercase_and_dot, max_index, min_index, prefix_bytes, same_widths,
    suffix_bytes,
};
use crate::trie::TrieBuilder;

verus! {

/// Highest level among the entries `k..` of a packed level vector that land
/// on `split` when the walk began at `start`.
pub open spec fn entry_contrib(packed: Seq<u8>, k: int, start: int, split: int) -> int
    decreases packed.len() - k,
{
    if k < 0 || k >= packed.len() {
        0
    } else {
        max(
            if start + cum_dist(packed, k) == split { (packed[k] % 10) as int } else { 0 },
            entry_contrib(packed, k + 1, start, split),
        )
    }
}

proof fn lemma_entry_contrib_nonneg(packed: Seq<u8>, k: int, start: int, split: int)
    ensures
        entry_contrib(packed, k, start, split) >= 0,
    decreases packed.len() - k,
{
    if 0 <= k < packed.len() {
        lemma_entry_contrib_nonneg(packed, k + 1, start, split);
    }
}

/// Highest level that the walk begun at `start`, now at node `a` and about to
/// read `dotted[i]`, still asserts at `split`.
pub open spec fn walk_contrib(
    d: Seq<u8>,
    dotted: Seq<u8>,
    start: int,
    a: int,
    i: int,
    split: int,
) -> int
    decreases dotted.len() - i,
{
    if i < 0 || i >= dotted.len() {
        0
    } else {
        match step(d, a, dotted[i]) {
            None => 0,
            Some(t) => max(
                entry_contrib(packed_levels(d, t), 0, start, split),
                walk_contrib(d, dotted, start, t, i + 1, split),
            ),
        }
    }
}

/// Highest level asserted at `split` by the walk from position `s`; walks
/// start only at character boundaries.
pub open spec fn start_contrib(d: Seq<u8>, dotted: Seq<u8>, s: int, split: int) -> int {
    if is_lead(dotted[s]) {
        walk_contrib(d, dotted, s, root_addr(d), s, split)
    } else {
        0
    }
}

/// Highest level asserted at `split` by the walks from positions `0..n`.
pub open spec fn level_upto(d: Seq<u8>, dotted: Seq<u8>, n: int, split: int) -> int
    decreases n,
{
    if n <= 0 {
        0
    } else {
        max(level_upto(d, dotted, n - 1, split), start_contrib(d, dotted, n - 1, split))
    }
}

/// Level of the gap before `dotted[split]`, zero outside `lo..=hi`.
pub open spec fn gap_level(d: Seq<u8>, dotted: Seq<u8>, lo: int, hi: int, split: int) -> int {
    if lo <= split <= hi {
        level_upto(d, dotted, dotted.len() as int, split)
    } else {
        0
    }
}

/// Number of inner gaps of a dotted buffer.
pub open spec fn gap_count(dotted: Seq<u8>) -> int {
    if dotted.len() >= 3 { dotted.len() - 3 } else { 0 }
}

/// Levels of the inner gaps of a dotted buffer.
pub open spec fn gap_levels(d: Seq<u8>, dotted: Seq<u8>, lo: int, hi: int) -> Seq<u8> {
    Seq::new(gap_count(dotted) as nat, |q: int| gap_level(d, dotted, lo, hi, q + 2) as u8)
}

/// Run the patterns of the blob over a dotted buffer. The result holds, for
/// each inner gap of the word, the highest level asserted there by a pattern,
/// counting only gaps whose split index lies in `min_idx..=max_idx`.
#[verifier::rlimit(60)]
pub fn match_levels(data: &[u8], dotted: &[u8], min_idx: usize, max_idx: usize) -> (r: Vec<u8>)
    requires
        blob_ok(data@),
    ensures
        r@ == gap_levels(data@, dotted@, min_idx as int, max_idx as int),
{
    let ghost d = data@;
    let ghost dt = dotted@;
    let ghost lo = min_idx as int;
    let ghost hi = max_idx as int;
    let n = dotted.len();
    let nlev = if n >= 3 { n - 3 } else { 0 };
    let mut levels: Vec<u8> = Vec::new();
    while levels.len() < nlev
        invariant
            levels@.len() <= nlev,
            forall|q: int| 0 <= q < levels@.len() ==> levels@[q] == 0,
        decreases nlev - levels@.len(),
    {
        levels.push(0);
    }
    let root = State::root(data);
    let mut start: usize = 0;
    while start < n
        invariant
            d == data@,
            dt == dotted@,
            n == dt.len(),
            lo == min_idx,
            hi == max_idx,
            nlev == gap_count(dt),
            root.wf(),
            root.blob() == d,
            root.address() == root_addr(d),
            levels@.len() == nlev,
            0 <= start <= n,
            forall|q: int|
                0 <= q < nlev ==> levels@[q] as int == if lo <= q + 2 <= hi {
                    level_upto(d, dt, start as int, q + 2)
                } else {
                    0
                },
        decreases n - start,
    {
        if is_char_boundary(dotted[start]) {
            let mut state = root;
            let mut i: usize = start;
            while i < n
                invariant
                    d == data@,
                    dt == dotted@,
                    n == dt.len(),
                    lo == min_idx,
                    hi == max_idx,
                    nlev == gap_count(dt),
                    levels@.len() == nlev,
                    start < n,
                    start <= i <= n,
                    is_lead(dt[start as int]),
                    state.wf(),
                    state.blob() == d,
                    forall|q: int|
                        0 <= q < nlev ==> if lo <= q + 2 <= hi {
                            max(
                                levels@[q] as int,
                                walk_contrib(d, dt, start as int, state.address(), i as int, q + 2),
                            ) == level_upto(d, dt, start + 1, q + 2)
                        } else {
                            levels@[q] == 0
                        },
                decreases n - i,
            {
                match state.transition(dotted[i]) {
                    None => {
                        proof {
                            assert forall|q: int| 0 <= q < nlev && lo <= q + 2 <= hi implies max(
                                levels@[q] as int,
                                walk_contrib(d, dt, start as int, state.address(), n as int, q + 2),
                            ) == level_upto(d, dt, start + 1, q + 2) by {
                                assert(walk_contrib(
                                    d,
                                    dt,
                                    start as int,
                                    state.address(),
                                    i as int,
                                    q + 2,
                                ) == 0);
                            }
                        }
                        i = n;
                    },
                    Some(next) => {
                        let ghost pre = levels@;
                        let ghost a = state.address();
                        state = next;
                        let entries = state.levels();
                        let ghost p = packed_levels(d, state.address());
                        let mut k: usize = 0;
                        while k < entries.len()
                            invariant
                                n == dt.len(),
                                lo == min_idx,
                                hi == max_idx,
                                nlev == gap_count(dt),
                                levels@.len() == nlev,
                                pre.len() == nlev,
                                0 <= k <= entries@.len(),
                                entries@.len() == p.len(),
                                forall|j: int|
                                    0 <= j < entries@.len() ==> entries@[j].0 as int == cum_dist(
                                        p,
                                        j,
                                    ) && entries@[j].1 == p[j] % 10,
                                forall|q: int|
                                    0 <= q < nlev ==> if lo <= q + 2 <= hi {
                                        max(
                                            levels@[q] as int,
                                            entry_contrib(p, k as int, start as int, q + 2),
                                        ) == max(
                                            pre[q] as int,
                                            entry_contrib(p, 0, start as int, q + 2),
                                        )
                                    } else {
                                        levels@[q] == 0
                                    },
                            decreases entries@.len() - k,
                        {
                            let ghost lv0 = levels@;
                            let (offset, level) = entries[k];
                            if offset <= usize::MAX - start {
                                let split = start + offset;
                                if split >= min_idx && split <= max_idx && split >= 2 && split - 2
                                    < nlev {
                                    let cur = levels[split - 2];
                                    if level > cur {
                                        levels.set(split - 2, level);
                                    }
                                }
                            }
                            proof {
                                assert forall|q: int|
                                    0 <= q < nlev && lo <= q + 2 <= hi implies max(
                                    levels@[q] as int,
                                    entry_contrib(p, k + 1, start as int, q + 2),
                                ) == max(pre[q] as int, entry_contrib(p, 0, start as int, q + 2)) by {
                                    assert(entry_contrib(p, k as int, start as int, q + 2) == max(
                                        if start + cum_dist(p, k as int) == q + 2 {
                                            (p[k as int] % 10) as int
                                        } else {
                                            0
                                        },
                                        entry_contrib(p, k + 1, start as int, q + 2),
                                    ));
                                    lemma_entry_contrib_nonneg(p, k + 1, start as int, q + 2);
                                    assert(max(
                                        lv0[q] as int,
                                        entry_contrib(p, k as int, start as int, q + 2),
                                    ) == max(pre[q] as int, entry_contrib(p, 0, start as int, q + 2)));
                                }
                            }
                            k += 1;
                        }
                        proof {
                            assert forall|q: int| 0 <= q < nlev && lo <= q + 2 <= hi implies max(
                                levels@[q] as int,
                                walk_contrib(d, dt, start as int, state.address(), i + 1, q + 2),
                            ) == level_upto(d, dt, start + 1, q + 2) by {
                                assert(walk_contrib(d, dt, start as int, a, i as int, q + 2) == max(
                                    entry_contrib(p, 0, start as int, q + 2),
                                    walk_contrib(d, dt, start as int, state.address(), i + 1, q + 2),
                                ));
                                assert(entry_contrib(p, k as int, start as int, q + 2) == 0);
                            }
                        }
                        i += 1;
                    },
                }
            }
        }
        start += 1;
    }
    assert(levels@ =~= gap_levels(d, dt, lo, hi));
    levels
}


/// Levels of the inner gaps of `w` under the patterns of blob `d` and the
/// character bounds `left_min`, `right_min`.
pub open spec fn word_levels(d: Seq<u8>, w: Seq<char>, left_min: int, right_min: int) -> Seq<u8> {
    gap_levels(d, dotted(w), min_index(w, left_min), max_index(w, right_min))
}

/// No break falls among the first `left_min` or the last `right_min`
/// characters of a word (a bound below one counts as one): every break lies
/// at least the byte length of those characters away from either end.
pub proof fn lemma_breaks_within_bounds(
    d: Seq<u8>,
    w: Seq<char>,
    left_min: int,
    right_min: int,
    p: int,
)
    requires
        is_break(encode_utf8(w), word_levels(d, w, left_min, right_min), p),
    ensures
        prefix_bytes(w, clamp_bound(w, left_min)) <= p,
        p <= encode_utf8(w).len() - suffix_bytes(w, clamp_bound(w, right_min)),
{
    lemma_fold_len(w);
    let lv = word_levels(d, w, left_min, right_min);
    assert(lv[p - 1] as int == gap_level(
        d,
        dotted(w),
        min_index(w, left_min),
        max_index(w, right_min),
        p + 1,
    ) as u8);
}

/// Case independence: two words whose characters fold to the same characters
/// (a word and its lowercase form, where each lowercase letter is as wide as
/// the letter) get the same levels, and are broken at the same positions.
#[verifier::rlimit(60)]
pub proof fn lemma_case_independence(
    d: Seq<u8>,
    w1: Seq<char>,
    w2: Seq<char>,
    left_min: int,
    right_min: int,
)
    requires
        fold_chars(w1) == fold_chars(w2),
    ensures
        word_levels(d, w1, left_min, right_min) == word_levels(d, w2, left_min, right_min),
        encode_utf8(w1).len() == encode_utf8(w2).len(),
        forall|p: int|
            is_break(encode_utf8(w1), word_levels(d, w1, left_min, right_min), p) <==> is_break(
                encode_utf8(w2),
                word_levels(d, w2, left_min, right_min),
                p,
            ),
{
    lemma_fold_same_widths(w1);
    lemma_fold_same_widths(w2);
    assert(same_widths(w1, w2)) by {
        assert forall|i: int| 0 <= i < w1.len() implies crate::text::width(w1[i])
            == crate::text::width(w2[i]) by {
            assert(fold_chars(w1)[i] == fold_chars(w2)[i]);
        }
    }
    lemma_same_widths(w1, w2);
    let l1 = clamp_bound(w1, left_min);
    let r1 = clamp_bound(w1, right_min);
    assert(same_widths(w1.take(l1), w2.take(l1))) by {
        assert forall|i: int| 0 <= i < l1 implies crate::text::width(w1.take(l1)[i])
            == crate::text::width(w2.take(l1)[i]) by {}
    }
    lemma_same_widths(w1.take(l1), w2.take(l1));
    let k = w1.len() - r1;
    assert(same_widths(w1.skip(k), w2.skip(k))) by {
        assert forall|i: int| 0 <= i < w1.len() - k implies crate::text::width(w1.skip(k)[i])
            == crate::text::width(w2.skip(k)[i]) by {
            assert(w1.skip(k)[i] == w1[i + k]);
            assert(w2.skip(k)[i] == w2[i + k]);
        }
    }
    lemma_same_widths(w1.skip(k), w2.skip(k));
    assert(min_index(w1, left_min) == min_index(w2, left_min));
    assert(max_index(w1, right_min) == max_index(w2, right_min));
    assert(dotted(w1) == dotted(w2));
}

/// A compiled language: the encoded pattern trie and the default numbers of
/// characters that stay unbroken at the start and at the end of a word.
pub struct Lang {
    data: Vec<u8>,
    left_min: usize,
    right_min: usize,
}

impl Lang {
    /// The encoded trie.
    pub closed spec fn blob(&self) -> Seq<u8> {
        self.data@
    }

    /// The default bounds.
    pub closed spec fn default_bounds(&self) -> (usize, usize) {
        (self.left_min, self.right_min)
    }

    /// The trie can be walked.
    pub open spec fn wf(&self) -> bool {
        blob_ok(self.blob())
    }

    /// A language from its encoded trie and default bounds.
    pub fn new(data: Vec<u8>, left_min: usize, right_min: usize) -> (r: Self)
        requires
            blob_ok(data@),
        ensures
            r.wf(),
            r.blob() == data@,
            r.default_bounds() == (left_min, right_min),
    {
        Lang { data, left_min, right_min }
    }

    /// A language from a trie: its encoding, with the given default bounds.
    pub fn from_trie(trie: &TrieBuilder, left_min: usize, right_min: usize) -> (r: Result<
        Self,
        EncodeError,
    >)
        requires
            trie.wf(),
        ensures
            match r {
                Ok(lang) => lang.wf() && encoding(trie.nodes@, trie.levels@, trie.root as int)
                    == Ok::<Seq<u8>, EncodeError>(lang.blob()) && lang.default_bounds() == (
                    left_min,
                    right_min,
                ),
                Err(e) => encoding(trie.nodes@, trie.levels@, trie.root as int) == Err::<
                    Seq<u8>,
                    EncodeError,
                >(e),
            },
    {
        match trie.encode() {
            Ok(data) => {
                proof {
                    lemma_pointer_sanity(trie.nodes@, trie.levels@, trie.root as int);
                }
                Ok(Lang { data, left_min, right_min })
            },
            Err(e) => Err(e),
        }
    }

    /// The default numbers of unbroken characters at the start and the end.
    pub fn bounds(&self) -> (r: (usize, usize))
        ensures
            r == self.default_bounds(),
    {
        (self.left_min, self.right_min)
    }

    /// The encoded trie.
    pub fn data(&self) -> (r: &[u8])
        ensures
            r@ == self.blob(),
    {
        self.data.as_slice()
    }
}

/// Segment a word into syllables, using the default bounds of the language.
pub fn hyphenate<'a>(word: &'a str, lang: &Lang) -> (r: Syllables<'a>)
    requires
        lang.wf(),
        word.spec_bytes().len() + 2 <= usize::MAX,
    ensures
        r.wf(),
        r.bytes() == word.spec_bytes(),
        r.gaps() == word_levels(
            lang.blob(),
            word@,
            lang.default_bounds().0 as int,
            lang.default_bounds().1 as int,
        ),
        r.remaining() == syllables_of(word.spec_bytes(), r.gaps()),
{
    let (left_min, right_min) = lang.bounds();
    hyphenate_bounded(word, lang, left_min, right_min)
}

/// Segment a word into syllables, but forbid breaking between the given
/// number of chars to each side.
pub fn hyphenate_bounded<'a>(word: &'a str, lang: &Lang, left_min: usize, right_min: usize) -> (r:
    Syllables<'a>)
    requires
        lang.wf(),
        word.spec_bytes().len() + 2 <= usize::MAX,
    ensures
        r.wf(),
        r.bytes() == word.spec_bytes(),
        r.gaps() == word_levels(lang.blob(), word@, left_min as int, right_min as int),
        r.remaining() == syllables_of(word.spec_bytes(), r.gaps()),
{
    let dotted = lowercase_and_dot(word);
    let (min_idx, max_idx) = char_to_byte_bounds(word, left_min, right_min);
    let levels = match_levels(lang.data(), dotted.as_slice(), min_idx, max_idx);
    Syllables::new(word, levels)
}

} // verus!
