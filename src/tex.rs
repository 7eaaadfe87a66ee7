//! Extraction of patterns from a TeX pattern source.
use vstd::prelude::*;
use vstd::string::*;
use vstd::utf8::*;

verus! {

broadcast use vstd::utf8::encode_utf8_valid_utf8;

/// Why a TeX source cannot be read.
#[derive(Debug, Clone, Copy, PartialEq, Eq)]
pub enum ParseError {
    /// A `\patterns{` block is not closed by a `}`.
    MalformedInput,
}

/// A position right after an ASCII byte is a character boundary.
pub proof fn lemma_ascii_boundary(b: Seq<u8>, k: int)
    requires
        valid_utf8(b),
        0 < k <= b.len(),
        b[k - 1] < 0x80,
    ensures
        is_char_boundary(b, k),
    decreases b.len(),
{
    reveal_with_fuel(is_char_boundary, 2);
    let l = length_of_first_scalar(b);
    if k - 1 >= l {
        let rest = pop_first_scalar(b);
        assert(rest[k - l - 1] == b[k - 1]);
        lemma_ascii_boundary(rest, k - l);
    } else {
        assert(l == 1);
        assert(pop_first_scalar(b).len() == b.len() - 1);
    }
}


/// Where the scanner stands.
#[derive(Debug, Clone, Copy)]
pub enum ScanMode {
    /// Outside a pattern block.
    Outside,
    /// In a line comment outside a pattern block.
    OutsideComment,
    /// In a pattern inside a block.
    Pattern,
    /// In a line comment inside a block.
    BlockComment,
    /// Between patterns inside a block.
    BlockSpace,
}

/// ASCII whitespace: space, tab, line feed, vertical tab, form feed,
/// carriage return.
pub open spec fn is_space(b: u8) -> bool {
    b == 32 || 9 <= b <= 13
}

/// Bytes that end a pattern: `}`, `%` and whitespace.
pub open spec fn ends_pattern(b: u8) -> bool {
    b == 125 || b == 37 || is_space(b)
}

/// `\patterns{` stands at position `i`.
pub open spec fn opens_block(b: Seq<u8>, i: int) -> bool {
    0 <= i && i + 10 <= b.len() && b.subrange(i, i + 10) == seq![
        92u8,
        112u8,
        97u8,
        116u8,
        116u8,
        101u8,
        114u8,
        110u8,
        115u8,
        123u8,
    ]
}

/// The patterns `p` followed by the outcome `r` of the rest of the scan.
pub open spec fn with_patterns(p: Seq<(int, int)>, r: Result<Seq<(int, int)>, ParseError>) -> Result<
    Seq<(int, int)>,
    ParseError,
> {
    match r {
        Ok(s) => Ok(p + s),
        Err(e) => Err(e),
    }
}

/// The byte ranges of the patterns found from position `i` on, in `mode`;
/// `start` is where the current pattern began.
pub open spec fn scan(b: Seq<u8>, i: int, mode: ScanMode, start: int) -> Result<
    Seq<(int, int)>,
    ParseError,
>
    decreases b.len() - i,
{
    if i < 0 || i >= b.len() {
        match mode {
            ScanMode::Outside | ScanMode::OutsideComment => Ok(Seq::empty()),
            _ => Err(ParseError::MalformedInput),
        }
    } else {
        let c = b[i];
        match mode {
            ScanMode::Outside => if c == 37 {
                scan(b, i + 1, ScanMode::OutsideComment, 0)
            } else if opens_block(b, i) {
                scan(b, i + 10, ScanMode::BlockSpace, 0)
            } else {
                scan(b, i + 1, ScanMode::Outside, 0)
            },
            ScanMode::OutsideComment => if c == 10 {
                scan(b, i + 1, ScanMode::Outside, 0)
            } else {
                scan(b, i + 1, ScanMode::OutsideComment, 0)
            },
            ScanMode::BlockComment => if c == 10 {
                scan(b, i + 1, ScanMode::BlockSpace, 0)
            } else {
                scan(b, i + 1, ScanMode::BlockComment, 0)
            },
            ScanMode::Pattern => if !ends_pattern(c) {
                scan(b, i + 1, ScanMode::Pattern, start)
            } else if c == 125 {
                with_patterns(seq![(start, i)], scan(b, i + 1, ScanMode::Outside, 0))
            } else if c == 37 {
                with_patterns(seq![(start, i)], scan(b, i + 1, ScanMode::BlockComment, 0))
            } else {
                with_patterns(seq![(start, i)], scan(b, i + 1, ScanMode::BlockSpace, 0))
            },
            ScanMode::BlockSpace => if !ends_pattern(c) {
                scan(b, i + 1, ScanMode::Pattern, i)
            } else if c == 125 {
                scan(b, i + 1, ScanMode::Outside, 0)
            } else if c == 37 {
                scan(b, i + 1, ScanMode::BlockComment, 0)
            } else {
                scan(b, i + 1, ScanMode::BlockSpace, 0)
            },
        }
    }
}

/// The byte ranges of the patterns of a TeX source.
pub open spec fn patterns_of(b: Seq<u8>) -> Result<Seq<(int, int)>, ParseError> {
    scan(b, 0, ScanMode::Outside, 0)
}

/// Whether `\patterns{` stands at position `i`.
fn opens_block_at(b: &[u8], i: usize) -> (r: bool)
    ensures
        r == opens_block(b@, i as int),
{
    let lit: [u8; 10] = [92, 112, 97, 116, 116, 101, 114, 110, 115, 123];
    if i > b.len() || b.len() - i < 10 {
        return false;
    }
    let len = b.len();
    let mut k: usize = 0;
    while k < 10
        invariant
            len == b@.len(),
            i + 10 <= b@.len(),
            0 <= k <= 10,
            lit@ == seq![92u8, 112u8, 97u8, 116u8, 116u8, 101u8, 114u8, 110u8, 115u8, 123u8],
            forall|m: int| 0 <= m < k ==> b@[i + m] == lit@[m],
        decreases 10 - k,
    {
        if b[i + k] != lit[k] {
            assert(b@.subrange(i as int, i + 10)[k as int] != lit@[k as int]);
            return false;
        }
        k += 1;
    }
    assert(b@.subrange(i as int, i + 10) =~= lit@);
    true
}

/// Parse a TeX pattern source into its patterns, in order of appearance.
///
/// Outside a `\patterns{ ... }` block everything is ignored; inside, each
/// maximal run of bytes other than whitespace, `%` and `}` is a pattern. `%`
/// starts a comment up to the end of the line, inside and outside blocks.
#[verifier::rlimit(60)]
pub fn parse(tex: &str) -> (r: Result<Vec<&str>, ParseError>)
    ensures
        match r {
            Ok(v) => patterns_of(tex.spec_bytes()) matches Ok(rs) && v@.len() == rs.len()
                && forall|k: int|
                0 <= k < rs.len() ==> #[trigger] v@[k].spec_bytes() == tex.spec_bytes().subrange(
                    rs[k].0,
                    rs[k].1,
                ),
            Err(e) => patterns_of(tex.spec_bytes()) == Err::<Seq<(int, int)>, ParseError>(e),
        },
{
    let b = tex.as_bytes();
    let ghost bs = b@;
    let n = b.len();
    let mut out: Vec<&str> = Vec::new();
    let ghost mut found: Seq<(int, int)> = Seq::empty();
    let mut mode = ScanMode::Outside;
    let mut start: usize = 0;
    let mut i: usize = 0;
    while i < n
        invariant
            bs == b@,
            bs == tex.spec_bytes(),
            n == bs.len(),
            0 <= i <= n,
            patterns_of(bs) == with_patterns(found, scan(bs, i as int, mode, start as int)),
            out@.len() == found.len(),
            forall|k: int|
                0 <= k < found.len() ==> #[trigger] out@[k].spec_bytes() == bs.subrange(
                    found[k].0,
                    found[k].1,
                ),
            mode is BlockSpace ==> i > 0 && bs[i - 1] < 0x80,
            mode is Pattern ==> start < i && is_char_boundary(bs, start as int),
        decreases n - i,
    {
        let c = b[i];
        let ghost before = scan(bs, i as int, mode, start as int);
        match mode {
            ScanMode::Outside => {
                if c == 37 {
                    mode = ScanMode::OutsideComment;
                    i += 1;
                } else if opens_block_at(b, i) {
                    assert(bs[i + 9] == bs.subrange(i as int, i + 10)[9]);
                    mode = ScanMode::BlockSpace;
                    i += 10;
                } else {
                    i += 1;
                }
                start = 0;
            },
            ScanMode::OutsideComment => {
                if c == 10 {
                    mode = ScanMode::Outside;
                }
                start = 0;
                i += 1;
            },
            ScanMode::BlockComment => {
                if c == 10 {
                    mode = ScanMode::BlockSpace;
                }
                start = 0;
                i += 1;
            },
            ScanMode::Pattern => {
                if c == 125 || c == 37 || c == 32 || (9 <= c && c <= 13) {
                    proof {
                        is_char_boundary_iff_not_is_continuation_byte(bs, i as int);
                    }
                    let (head, _) = tex.split_at(i);
                    proof {
                        assert(head.spec_bytes() =~= bs.subrange(0, i as int));
                        let h = head.spec_bytes();
                        is_char_boundary_start_end_of_seq(h);
                        if start < h.len() {
                            is_char_boundary_iff_not_is_continuation_byte(bs, start as int);
                            is_char_boundary_iff_not_is_continuation_byte(h, start as int);
                        }
                    }
                    let (_, pat) = head.split_at(start);
                    out.push(pat);
                    let ghost range = (start as int, i as int);
                    proof {
                        assert(pat.spec_bytes() =~= bs.subrange(start as int, i as int));
                    }
                    if c == 125 {
                        mode = ScanMode::Outside;
                    } else if c == 37 {
                        mode = ScanMode::BlockComment;
                    } else {
                        mode = ScanMode::BlockSpace;
                    }
                    start = 0;
                    proof {
                        let rest = scan(bs, i + 1, mode, 0);
                        assert(before == with_patterns(seq![range], rest));
                        match rest {
                            Ok(s2) => {
                                assert(found.push(range) + s2 =~= found + (seq![range] + s2));
                            },
                            Err(_) => {},
                        }
                        found = found.push(range);
                    }
                }
                i += 1;
            },
            ScanMode::BlockSpace => {
                if c == 125 {
                    mode = ScanMode::Outside;
                } else if c == 37 {
                    mode = ScanMode::BlockComment;
                } else if c == 32 || (9 <= c && c <= 13) {
                } else {
                    proof {
                        lemma_ascii_boundary(bs, i as int);
                    }
                    mode = ScanMode::Pattern;
                    start = i;
                }
                i += 1;
            },
        }
    }
    match mode {
        ScanMode::Outside | ScanMode::OutsideComment => {
            assert(found + Seq::<(int, int)>::empty() =~= found);
            Ok(out)
        },
        _ => Err(ParseError::MalformedInput),
    }
}

} // verus!
