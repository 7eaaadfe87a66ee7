//! The binary encoding of a trie.
use vstd::prelude::*;
use crate::max;
use crate::state::{
    blob_ok, closed, count, count_low, delta_value, has_levels, level_len, level_offset, lref_pos,
    node_end, node_ok, root_addr, sound_at, stride, target, targets_pos, trans_pos,
};
use crate::trie::{edges_ok, refs_ok, shapes, Node, TrieBuilder};

verus! {

/// Why a trie cannot be encoded.
#[derive(Debug, Clone, Copy, PartialEq, Eq)]
pub enum EncodeError {
    /// A level distance above 24, a level above 9, a vector of 16 or more
    /// entries, 128 or more transitions, or a level offset of 4096 or more.
    LimitExceeded,
    /// A target delta needs more than three bytes, or the blob would not be
    /// addressable with a four-byte root address.
    EncodeOverflow,
}

/// Largest address the four-byte root pointer can hold.
pub const MAX_ADDR: u64 = 0xffff_ffff;

/// Bytes taken by a node whose target deltas are `stride` bytes wide.
pub open spec fn node_size(n: Node, stride: int) -> int {
    1 + (if n.trans@.len() >= 31 { 1int } else { 0int }) + (if n.levels is Some { 2int } else { 0int })
        + (1 + stride) * n.trans@.len()
}

/// Address estimate of node `i`, assuming three-byte deltas everywhere.
pub open spec fn estimate(nodes: Seq<Node>, start: int, i: int) -> int
    decreases i,
{
    if i <= 0 {
        start
    } else {
        estimate(nodes, start, i - 1) + node_size(nodes[i - 1], 3)
    }
}

/// Bytes needed for a signed delta: 1 in `i8`, 2 in `i16`, 3 in 24 bits,
/// else 4 (too many).
pub open spec fn bytes_needed(n: int) -> int {
    if -128 <= n < 128 {
        1
    } else if -32768 <= n < 32768 {
        2
    } else if -8388608 <= n < 8388608 {
        3
    } else {
        4
    }
}

/// Widest delta among targets `j..` of node `i`, by the estimates; at least 1.
pub open spec fn stride_from(nodes: Seq<Node>, start: int, i: int, j: int) -> int
    decreases nodes[i].targets@.len() - j,
{
    if j < 0 || j >= nodes[i].targets@.len() {
        1
    } else {
        max(
            bytes_needed(
                estimate(nodes, start, nodes[i].targets@[j] as int) - estimate(nodes, start, i),
            ),
            stride_from(nodes, start, i, j + 1),
        )
    }
}

/// Delta width chosen for node `i`.
pub open spec fn stride_for(nodes: Seq<Node>, start: int, i: int) -> int {
    stride_from(nodes, start, i, 0)
}

/// Final address of node `i`.
pub open spec fn address(nodes: Seq<Node>, start: int, i: int) -> int
    decreases i,
{
    if i <= 0 {
        start
    } else {
        address(nodes, start, i - 1) + node_size(nodes[i - 1], stride_for(nodes, start, i - 1))
    }
}

/// Address of the first node: after the root pointer and the level table.
pub open spec fn nodes_start(levels: Seq<(usize, u8)>) -> int {
    4 + levels.len() as int
}

/// Every level entry, vector and node fits the format's fields.
pub open spec fn limits_ok(nodes: Seq<Node>, levels: Seq<(usize, u8)>) -> bool {
    &&& forall|k: int| 0 <= k < levels.len() ==> levels[k].0 <= 24 && levels[k].1 < 10
    &&& forall|i: int|
        #![trigger nodes[i]]
        0 <= i < nodes.len() ==> nodes[i].trans@.len() < 128 && match nodes[i].levels {
            Some(r) => 4 + r.0 < 4096 && r.1 < 16,
            None => true,
        }
}

/// The estimated end of the blob is addressable.
pub open spec fn size_ok(nodes: Seq<Node>, levels: Seq<(usize, u8)>) -> bool {
    estimate(nodes, nodes_start(levels), nodes.len() as int) <= MAX_ADDR
}

/// Every node's deltas fit in three bytes.
pub open spec fn strides_ok(nodes: Seq<Node>, levels: Seq<(usize, u8)>) -> bool {
    forall|i: int| 0 <= i < nodes.len() ==> stride_for(nodes, nodes_start(levels), i) <= 3
}


/// Header byte: `has_levels:1 | stride:2 | count_low:5`.
pub open spec fn header_byte(n: Node, stride: int) -> u8 {
    ((if n.levels is Some { 128int } else { 0int }) + stride * 32 + (if n.trans@.len() >= 31 {
        31int
    } else {
        n.trans@.len() as int
    })) as u8
}

/// Extended transition count, present from 31 transitions on.
pub open spec fn count_bytes(n: Node) -> Seq<u8> {
    if n.trans@.len() >= 31 {
        seq![n.trans@.len() as u8]
    } else {
        Seq::empty()
    }
}

/// Level reference: `[offset >> 4][(offset & 15) << 4 | len]`, where the
/// offset counts from the start of the blob.
pub open spec fn lref_bytes(n: Node) -> Seq<u8> {
    match n.levels {
        Some(r) => seq![((4 + r.0) / 16) as u8, (((4 + r.0) % 16) * 16 + r.1) as u8],
        None => Seq::empty(),
    }
}

/// A delta in `stride` big-endian bytes: two's complement for one and two
/// bytes, biased by `2^23` for three.
pub open spec fn delta_bytes(v: int, stride: int) -> Seq<u8> {
    if stride == 1 {
        seq![(v % 256) as u8]
    } else if stride == 2 {
        seq![((v % 65536) / 256) as u8, (v % 256) as u8]
    } else {
        let u = v + 8388608;
        seq![(u / 65536) as u8, ((u / 256) % 256) as u8, (u % 256) as u8]
    }
}

/// Encoded deltas of the first `j` targets of node `i`.
pub open spec fn deltas(nodes: Seq<Node>, start: int, i: int, j: int) -> Seq<u8>
    decreases j,
{
    if j <= 0 {
        Seq::empty()
    } else {
        deltas(nodes, start, i, j - 1) + delta_bytes(
            address(nodes, start, nodes[i].targets@[j - 1] as int) - address(nodes, start, i),
            stride_for(nodes, start, i),
        )
    }
}

/// Encoded node `i`.
pub open spec fn node_bytes(nodes: Seq<Node>, start: int, i: int) -> Seq<u8> {
    let n = nodes[i];
    seq![header_byte(n, stride_for(nodes, start, i))] + count_bytes(n) + lref_bytes(n) + n.trans@
        + deltas(nodes, start, i, n.targets@.len() as int)
}

/// Encoded nodes `0..k`.
pub open spec fn nodes_bytes(nodes: Seq<Node>, start: int, k: int) -> Seq<u8>
    decreases k,
{
    if k <= 0 {
        Seq::empty()
    } else {
        nodes_bytes(nodes, start, k - 1) + node_bytes(nodes, start, k - 1)
    }
}

/// Packed level table: `distance * 10 + level` per entry.
pub open spec fn level_bytes(levels: Seq<(usize, u8)>) -> Seq<u8> {
    Seq::new(levels.len(), |k: int| (levels[k].0 * 10 + levels[k].1) as u8)
}

/// Four big-endian bytes.
pub open spec fn be32(v: int) -> Seq<u8> {
    seq![
        (v / 16777216) as u8,
        ((v / 65536) % 256) as u8,
        ((v / 256) % 256) as u8,
        (v % 256) as u8,
    ]
}

/// The blob: root address, level table, nodes in order.
pub open spec fn blob_of(nodes: Seq<Node>, levels: Seq<(usize, u8)>, root: int) -> Seq<u8> {
    let start = nodes_start(levels);
    be32(address(nodes, start, root)) + level_bytes(levels) + nodes_bytes(
        nodes,
        start,
        nodes.len() as int,
    )
}

/// Outcome of encoding a trie.
pub open spec fn encoding(nodes: Seq<Node>, levels: Seq<(usize, u8)>, root: int) -> Result<
    Seq<u8>,
    EncodeError,
> {
    if !limits_ok(nodes, levels) {
        Err(EncodeError::LimitExceeded)
    } else if !size_ok(nodes, levels) || !strides_ok(nodes, levels) {
        Err(EncodeError::EncodeOverflow)
    } else {
        Ok(blob_of(nodes, levels, root))
    }
}

proof fn lemma_estimate_mono(nodes: Seq<Node>, start: int, i: int, k: int)
    requires
        0 <= i <= k <= nodes.len(),
    ensures
        estimate(nodes, start, i) <= estimate(nodes, start, k),
    decreases k - i,
{
    if i < k {
        lemma_estimate_mono(nodes, start, i, k - 1);
        assert(node_size(nodes[k - 1], 3) >= 1) by (nonlinear_arith)
            requires
                nodes[k - 1].trans@.len() >= 0,
        ;
    }
}

/// Between two nodes, final addresses grow no more than the estimates.
proof fn lemma_address_within(nodes: Seq<Node>, start: int, i: int, k: int)
    requires
        0 <= i <= k <= nodes.len(),
        forall|m: int| 0 <= m < k ==> stride_for(nodes, start, m) <= 3,
        forall|m: int| 0 <= m < k ==> stride_for(nodes, start, m) >= 1,
    ensures
        0 <= address(nodes, start, k) - address(nodes, start, i) <= estimate(nodes, start, k)
            - estimate(nodes, start, i),
    decreases k - i,
{
    if i < k {
        lemma_address_within(nodes, start, i, k - 1);
        let n = nodes[k - 1];
        let st = stride_for(nodes, start, k - 1);
        assert((1 + st) * n.trans@.len() <= (1 + 3) * n.trans@.len()) by (nonlinear_arith)
            requires
                st <= 3,
        ;
        assert((1 + st) * n.trans@.len() >= 0) by (nonlinear_arith)
            requires
                st >= 1,
        ;
    }
}


/// The stride of a node bounds the delta widths of all its targets.
proof fn lemma_stride_from(nodes: Seq<Node>, start: int, i: int, j: int)
    requires
        0 <= i < nodes.len(),
        0 <= j,
    ensures
        stride_from(nodes, start, i, j) >= 1,
        stride_from(nodes, start, i, 0) >= stride_from(nodes, start, i, j),
        j < nodes[i].targets@.len() ==> stride_from(nodes, start, i, 0) >= bytes_needed(
            estimate(nodes, start, nodes[i].targets@[j] as int) - estimate(nodes, start, i),
        ),
    decreases j,
{
    if j > 0 {
        lemma_stride_from(nodes, start, i, j - 1);
    }
    lemma_stride_from_floor(nodes, start, i, j);
}

proof fn lemma_stride_from_floor(nodes: Seq<Node>, start: int, i: int, j: int)
    requires
        0 <= i < nodes.len(),
        0 <= j,
    ensures
        stride_from(nodes, start, i, j) >= 1,
    decreases nodes[i].targets@.len() - j,
{
    if j < nodes[i].targets@.len() {
        lemma_stride_from_floor(nodes, start, i, j + 1);
    }
}

/// How many bytes are needed to encode a signed number; `None` above three.
pub fn how_many_bytes(num: i64) -> (r: Option<u64>)
    ensures
        bytes_needed(num as int) <= 3 ==> r == Some(bytes_needed(num as int) as u64),
        bytes_needed(num as int) > 3 ==> r is None,
{
    if -128 <= num && num < 128 {
        Some(1)
    } else if -32768 <= num && num < 32768 {
        Some(2)
    } else if -8388608 <= num && num < 8388608 {
        Some(3)
    } else {
        None
    }
}

/// Encode a signed number with 1, 2 or 3 bytes.
pub fn to_be_bytes(buf: &mut Vec<u8>, num: i64, stride: u64)
    requires
        1 <= stride <= 3,
        bytes_needed(num as int) <= stride,
    ensures
        final(buf)@ == old(buf)@ + delta_bytes(num as int, stride as int),
{
    if stride == 1 {
        let u = if num < 0 { num + 256 } else { num };
        assert(u == num as int % 256);
        buf.push(u as u8);
    } else if stride == 2 {
        let u = if num < 0 { num + 65536 } else { num };
        assert(u == num as int % 65536);
        assert(u % 256 == num as int % 256);
        buf.push((u / 256) as u8);
        buf.push((u % 256) as u8);
    } else {
        let u = num + 8388608;
        buf.push((u / 65536) as u8);
        buf.push(((u / 256) % 256) as u8);
        buf.push((u % 256) as u8);
    }
    assert(final(buf)@ =~= old(buf)@ + delta_bytes(num as int, stride as int));
}

/// Bytes of a node whose deltas are `stride` bytes wide.
fn size_of(n: &Node, stride: u64) -> (r: u64)
    requires
        n.trans@.len() < 128,
        stride <= 3,
    ensures
        r as int == node_size(*n, stride as int),
        r <= 520,
{
    let count = n.trans.len() as u64;
    let mut size: u64 = 1;
    if count >= 31 {
        size += 1;
    }
    if n.levels.is_some() {
        size += 2;
    }
    assert((1 + stride) * count <= 4 * 127) by (nonlinear_arith)
        requires
            stride <= 3,
            count < 128,
    ;
    size + (1 + stride) * count
}


/// A final delta needs no more bytes than its estimate.
proof fn lemma_delta_fits(nodes: Seq<Node>, start: int, i: int, t: int)
    requires
        0 <= i < nodes.len(),
        0 <= t < nodes.len(),
        forall|m: int| 0 <= m < nodes.len() ==> 1 <= #[trigger] stride_for(nodes, start, m) <= 3,
    ensures
        bytes_needed(address(nodes, start, t) - address(nodes, start, i)) <= bytes_needed(
            estimate(nodes, start, t) - estimate(nodes, start, i),
        ),
{
    if i <= t {
        lemma_address_within(nodes, start, i, t);
    } else {
        lemma_address_within(nodes, start, t, i);
    }
}

proof fn lemma_deltas_len(nodes: Seq<Node>, start: int, i: int, j: int)
    requires
        0 <= j,
        1 <= stride_for(nodes, start, i) <= 3,
    ensures
        deltas(nodes, start, i, j).len() == j * stride_for(nodes, start, i),
    decreases j,
{
    if j > 0 {
        lemma_deltas_len(nodes, start, i, j - 1);
        let s = stride_for(nodes, start, i);
        let v = address(nodes, start, nodes[i].targets@[j - 1] as int) - address(nodes, start, i);
        assert(delta_bytes(v, s).len() == s);
        assert(deltas(nodes, start, i, j) == deltas(nodes, start, i, j - 1) + delta_bytes(v, s));
        assert((j - 1) * s + s == j * s) by (nonlinear_arith);
    } else {
        assert(0 * stride_for(nodes, start, i) == 0);
    }
}

/// The `j`-th encoded delta of node `i`.
proof fn lemma_deltas_slot(nodes: Seq<Node>, start: int, i: int, m: int, j: int)
    requires
        0 <= j < m,
        1 <= stride_for(nodes, start, i) <= 3,
    ensures
        ({
            let s = stride_for(nodes, start, i);
            deltas(nodes, start, i, m).subrange(j * s, j * s + s) == delta_bytes(
                address(nodes, start, nodes[i].targets@[j] as int) - address(nodes, start, i),
                s,
            )
        }),
    decreases m,
{
    let s = stride_for(nodes, start, i);
    lemma_deltas_len(nodes, start, i, m - 1);
    assert(j * s + s <= (m - 1) * s + s) by (nonlinear_arith)
        requires
            j < m,
            s >= 1,
    ;
    assert(0 <= j * s) by (nonlinear_arith)
        requires
            j >= 0,
            s >= 1,
    ;
    if j < m - 1 {
        lemma_deltas_slot(nodes, start, i, m - 1, j);
        assert(j * s + s <= (m - 1) * s) by (nonlinear_arith)
            requires
                j < m - 1,
                s >= 1,
        ;
        assert(deltas(nodes, start, i, m).subrange(j * s, j * s + s) =~= deltas(
            nodes,
            start,
            i,
            m - 1,
        ).subrange(j * s, j * s + s));
    } else {
        assert(deltas(nodes, start, i, m).subrange(j * s, j * s + s) =~= delta_bytes(
            address(nodes, start, nodes[i].targets@[j] as int) - address(nodes, start, i),
            s,
        ));
    }
}

/// Decoding an encoded delta gives it back.
proof fn lemma_delta_roundtrip(v: int, s: int)
    requires
        1 <= s <= 3,
        bytes_needed(v) <= s,
    ensures
        delta_bytes(v, s).len() == s,
        crate::state::delta_value(delta_bytes(v, s)) == v,
{
    if s == 1 {
        assert(v % 256 == if v < 0 { v + 256 } else { v });
    } else if s == 2 {
        let u = v % 65536;
        assert(u == if v < 0 { v + 65536 } else { v });
        assert(u / 256 * 256 + u % 256 == u);
        assert(v % 256 == u % 256);
    } else {
        let u = v + 8388608;
        assert(0 <= u < 16777216);
        assert((u / 65536) * 65536 + ((u / 256) % 256) * 256 + u % 256 == u);
    }
}

proof fn lemma_node_bytes_len(nodes: Seq<Node>, start: int, i: int)
    requires
        1 <= stride_for(nodes, start, i) <= 3,
        nodes[i].trans@.len() == nodes[i].targets@.len(),
    ensures
        node_bytes(nodes, start, i).len() == node_size(nodes[i], stride_for(nodes, start, i)),
{
    let n = nodes[i];
    let s = stride_for(nodes, start, i);
    lemma_deltas_len(nodes, start, i, n.targets@.len() as int);
    assert((1 + s) * n.trans@.len() == n.trans@.len() + n.trans@.len() * s) by (nonlinear_arith);
}

/// The encoded nodes `0..k` end at the address of node `k`.
proof fn lemma_nodes_bytes_len(nodes: Seq<Node>, start: int, k: int)
    requires
        0 <= k <= nodes.len(),
        edges_ok(nodes),
        forall|x: int| 0 <= x < nodes.len() ==> 1 <= #[trigger] stride_for(nodes, start, x) <= 3,
    ensures
        nodes_bytes(nodes, start, k).len() == address(nodes, start, k) - start,
    decreases k,
{
    if k > 0 {
        lemma_nodes_bytes_len(nodes, start, k - 1);
        assert(nodes[k - 1].trans@.len() == nodes[k - 1].targets@.len());
        lemma_node_bytes_len(nodes, start, k - 1);
    }
}

/// The encoded nodes `0..k` begin the encoded nodes `0..m`, for `k <= m`.
proof fn lemma_nodes_bytes_prefix(nodes: Seq<Node>, start: int, k: int, m: int)
    requires
        0 <= k <= m,
    ensures
        nodes_bytes(nodes, start, k).len() <= nodes_bytes(nodes, start, m).len(),
        nodes_bytes(nodes, start, m).subrange(0, nodes_bytes(nodes, start, k).len() as int)
            == nodes_bytes(nodes, start, k),
    decreases m,
{
    if m > k {
        lemma_nodes_bytes_prefix(nodes, start, k, m - 1);
        assert(nodes_bytes(nodes, start, m).subrange(
            0,
            nodes_bytes(nodes, start, k).len() as int,
        ) =~= nodes_bytes(nodes, start, m - 1).subrange(
            0,
            nodes_bytes(nodes, start, k).len() as int,
        ));
    } else {
        assert(nodes_bytes(nodes, start, m).subrange(0, nodes_bytes(nodes, start, m).len() as int)
            =~= nodes_bytes(nodes, start, m));
    }
}

/// Where the encoding succeeds, the bytes of node `i` stand at its address.
proof fn lemma_node_at(nodes: Seq<Node>, levels: Seq<(usize, u8)>, root: int, i: int)
    requires
        encoding(nodes, levels, root) is Ok,
        edges_ok(nodes),
        0 <= i < nodes.len(),
    ensures
        ({
            let d = blob_of(nodes, levels, root);
            let st = nodes_start(levels);
            let a = address(nodes, st, i);
            let nb = node_bytes(nodes, st, i);
            &&& st <= a
            &&& a + nb.len() <= d.len()
            &&& nb.len() == node_size(nodes[i], stride_for(nodes, st, i))
            &&& forall|k: int| 0 <= k < nb.len() ==> d[a + k] == nb[k]
        }),
{
    let st = nodes_start(levels);
    let n = nodes.len() as int;
    let d = blob_of(nodes, levels, root);
    assert forall|x: int| 0 <= x < nodes.len() implies 1 <= #[trigger] stride_for(nodes, st, x)
        <= 3 by {
        lemma_stride_from_floor(nodes, st, x, 0);
    }
    lemma_nodes_bytes_len(nodes, st, i);
    lemma_nodes_bytes_len(nodes, st, i + 1);
    lemma_nodes_bytes_prefix(nodes, st, i + 1, n);
    assert(nodes[i].trans@.len() == nodes[i].targets@.len());
    lemma_node_bytes_len(nodes, st, i);
    lemma_address_within(nodes, st, 0, i);
    let a = address(nodes, st, i);
    let nb = node_bytes(nodes, st, i);
    let all = nodes_bytes(nodes, st, n);
    let head = be32(address(nodes, st, root)) + level_bytes(levels);
    assert(head.len() == st);
    assert(d == head + all);
    assert forall|k: int| 0 <= k < nb.len() implies d[a + k] == nb[k] by {
        assert(all.subrange(0, nodes_bytes(nodes, st, i + 1).len() as int)[a - st + k] == nodes_bytes(
            nodes,
            st,
            i + 1,
        )[a - st + k]);
    }
}

/// Bytes before a node's labels: header, extended count, level reference.
pub open spec fn head_len(n: Node) -> int {
    1 + (if n.trans@.len() >= 31 { 1int } else { 0int }) + (if n.levels is Some {
        2int
    } else {
        0int
    })
}

/// Where the encoding succeeds, the header and level reference of node `i`
/// decode to its fields, and they lie within the blob.
#[verifier::rlimit(80)]
proof fn lemma_node_header(nodes: Seq<Node>, levels: Seq<(usize, u8)>, root: int, i: int)
    requires
        encoding(nodes, levels, root) is Ok,
        edges_ok(nodes),
        refs_ok(nodes, levels),
        0 <= i < nodes.len(),
    ensures
        ({
            let d = blob_of(nodes, levels, root);
            let st = nodes_start(levels);
            let a = address(nodes, st, i);
            &&& node_ok(d, a)
            &&& count(d, a) == nodes[i].targets@.len()
            &&& stride(d, a) == stride_for(nodes, st, i)
            &&& targets_pos(d, a) == a + head_len(nodes[i]) + nodes[i].trans@.len()
        }),
{
    let st = nodes_start(levels);
    let d = blob_of(nodes, levels, root);
    let a = address(nodes, st, i);
    let n = nodes[i];
    let nb = node_bytes(nodes, st, i);
    let s = stride_for(nodes, st, i);
    let c = n.trans@.len() as int;
    lemma_node_at(nodes, levels, root, i);
    lemma_stride_from_floor(nodes, st, i, 0);
    assert(n.trans@.len() < 128);
    let hb = header_byte(n, s);
    let has = if n.levels is Some { 128int } else { 0int };
    let low = if c >= 31 { 31int } else { c };
    assert(hb as int == has + s * 32 + low);
    assert(d[a + 0] == nb[0]);
    assert(nb[0] == hb);
    assert((has + s * 32 + low) / 32 % 4 == s);
    assert((has + s * 32 + low) % 32 == low);
    assert(has_levels(d, a) == (n.levels is Some));
    let ext = if c >= 31 { 1int } else { 0int };
    if c >= 31 {
        assert(d[a + 1] == nb[1]);
    }
    assert(count(d, a) == c);
    assert(lref_pos(d, a) == a + 1 + ext);
    match n.levels {
        Some(r) => {
            let o = 4 + r.0;
            assert(d[a + (1 + ext)] == nb[1 + ext]);
            assert(d[a + (2 + ext)] == nb[2 + ext]);
            assert(nb[1 + ext] == (o / 16) as u8);
            assert(nb[2 + ext] == ((o % 16) * 16 + r.1) as u8);
            assert(level_offset(d, a) == o);
            assert(level_len(d, a) == r.1);
        },
        None => {},
    }
    assert((1 + s) * c == c + s * c) by (nonlinear_arith);
}

proof fn lemma_window(d: Seq<u8>, a: int, nb: Seq<u8>, x: int, len: int)
    requires
        0 <= a,
        0 <= x,
        0 <= len,
        x + len <= nb.len(),
        a + nb.len() <= d.len(),
        forall|k: int| 0 <= k < nb.len() ==> d[a + k] == nb[k],
    ensures
        d.subrange(a + x, a + x + len) == nb.subrange(x, x + len),
{
    assert forall|k: int| 0 <= k < len implies #[trigger] d.subrange(a + x, a + x + len)[k]
        == nb.subrange(x, x + len)[k] by {
        assert(d[a + (x + k)] == nb[x + k]);
    }
    assert(d.subrange(a + x, a + x + len) =~= nb.subrange(x, x + len));
}

proof fn lemma_window_tail(p: Seq<u8>, q: Seq<u8>, x: int, len: int)
    requires
        0 <= x,
        0 <= len,
        x + len <= q.len(),
    ensures
        (p + q).subrange(p.len() + x, p.len() + x + len) == q.subrange(x, x + len),
{
    assert((p + q).subrange(p.len() + x, p.len() + x + len) =~= q.subrange(x, x + len));
}

/// Where the encoding succeeds, the `j`-th delta of node `i` leads to the
/// address of its target.
#[verifier::rlimit(60)]
proof fn lemma_target_decodes(
    nodes: Seq<Node>,
    levels: Seq<(usize, u8)>,
    root: int,
    i: int,
    j: int,
)
    requires
        encoding(nodes, levels, root) is Ok,
        edges_ok(nodes),
        refs_ok(nodes, levels),
        0 <= i < nodes.len(),
        0 <= j < nodes[i].targets@.len(),
    ensures
        target(blob_of(nodes, levels, root), address(nodes, nodes_start(levels), i), j) == address(
            nodes,
            nodes_start(levels),
            nodes[i].targets@[j] as int,
        ),
{
    let st = nodes_start(levels);
    let d = blob_of(nodes, levels, root);
    let a = address(nodes, st, i);
    let n = nodes[i];
    let nb = node_bytes(nodes, st, i);
    let s = stride_for(nodes, st, i);
    let c = n.trans@.len() as int;
    lemma_node_at(nodes, levels, root, i);
    lemma_node_header(nodes, levels, root, i);
    lemma_stride_from_floor(nodes, st, i, 0);
    let hb = header_byte(n, s);
    let dl = deltas(nodes, st, i, n.targets@.len() as int);
    let off = head_len(n) + c;
    assert(nb == seq![hb] + count_bytes(n) + lref_bytes(n) + n.trans@ + dl);
    let t = n.targets@[j] as int;
    let p = targets_pos(d, a) + s * j;
    lemma_deltas_slot(nodes, st, i, n.targets@.len() as int, j);
    assert(s * j + s <= s * c) by (nonlinear_arith)
        requires
            j < c,
            s >= 1,
    ;
    assert(s * j >= 0) by (nonlinear_arith)
        requires
            j >= 0,
            s >= 1,
    ;
    assert(j * s == s * j) by (nonlinear_arith);
    let pre = seq![hb] + count_bytes(n) + lref_bytes(n) + n.trans@;
    assert(pre.len() == off);
    lemma_deltas_len(nodes, st, i, c);
    assert(s * c == c * s) by (nonlinear_arith);
    lemma_window(d, a, nb, off + s * j, s);
    lemma_window_tail(pre, dl, s * j, s);
    assert(p == a + (off + s * j));
    lemma_delta_fits(nodes, st, i, t);
    lemma_stride_from(nodes, st, i, j);
    lemma_delta_roundtrip(address(nodes, st, t) - a, s);
}

/// Addresses of the nodes of an encoded trie.
pub open spec fn node_addresses(nodes: Seq<Node>, levels: Seq<(usize, u8)>) -> Set<int> {
    Set::new(
        |x: int| exists|i: int| 0 <= i < nodes.len() && address(nodes, nodes_start(levels), i) == x,
    )
}

/// Where the encoding succeeds, the node addresses form a closed set of
/// well-formed nodes.
#[verifier::rlimit(60)]
proof fn lemma_addresses_closed(nodes: Seq<Node>, levels: Seq<(usize, u8)>, root: int)
    requires
        edges_ok(nodes),
        refs_ok(nodes, levels),
        encoding(nodes, levels, root) is Ok,
    ensures
        closed(blob_of(nodes, levels, root), node_addresses(nodes, levels)),
{
    let st = nodes_start(levels);
    let d = blob_of(nodes, levels, root);
    let at = node_addresses(nodes, levels);
    assert forall|x: int| #[trigger] at.contains(x) implies node_ok(d, x) && forall|j: int|
        0 <= j < count(d, x) ==> at.contains(#[trigger] target(d, x, j)) by {
        let i = choose|i: int| 0 <= i < nodes.len() && address(nodes, st, i) == x;
        lemma_node_header(nodes, levels, root, i);
        assert forall|j: int| 0 <= j < count(d, x) implies at.contains(#[trigger] target(d, x, j)) by {
            lemma_target_decodes(nodes, levels, root, i, j);
            let t = nodes[i].targets@[j] as int;
            assert(0 <= t < nodes.len());
            assert(address(nodes, st, t) == target(d, x, j));
        }
    }
}

/// Where the encoding succeeds, the first four bytes hold the root address.
#[verifier::rlimit(40)]
proof fn lemma_root_address(nodes: Seq<Node>, levels: Seq<(usize, u8)>, root: int)
    requires
        0 <= root < nodes.len(),
        encoding(nodes, levels, root) is Ok,
    ensures
        blob_of(nodes, levels, root).len() >= 4,
        root_addr(blob_of(nodes, levels, root)) == address(nodes, nodes_start(levels), root),
{
    let st = nodes_start(levels);
    let d = blob_of(nodes, levels, root);
    let ra = address(nodes, st, root);
    assert forall|x: int| 0 <= x < nodes.len() implies 1 <= #[trigger] stride_for(nodes, st, x)
        <= 3 by {
        lemma_stride_from_floor(nodes, st, x, 0);
    }
    lemma_address_within(nodes, st, 0, root);
    lemma_estimate_mono(nodes, st, root, nodes.len() as int);
    assert(0 <= ra <= MAX_ADDR);
    let b = be32(ra);
    assert(d.subrange(0, 4) =~= b);
    assert(d[0] == b[0] && d[1] == b[1] && d[2] == b[2] && d[3] == b[3]);
    assert(((b[0] as int * 256 + b[1] as int) * 256 + b[2] as int) * 256 + b[3] as int == ra);
}

/// Pointer sanity of an encoded trie: every node reachable from the root
/// address is well formed, each target delta leads to the start of such a
/// node within the blob, and each level reference lies within the blob.
pub proof fn lemma_pointer_sanity(nodes: Seq<Node>, levels: Seq<(usize, u8)>, root: int)
    requires
        edges_ok(nodes),
        refs_ok(nodes, levels),
        0 <= root < nodes.len(),
        encoding(nodes, levels, root) is Ok,
    ensures
        blob_ok(blob_of(nodes, levels, root)),
{
    let d = blob_of(nodes, levels, root);
    let at = node_addresses(nodes, levels);
    lemma_addresses_closed(nodes, levels, root);
    lemma_root_address(nodes, levels, root);
    assert(at.contains(address(nodes, nodes_start(levels), root)));
    assert(closed(d, at) && at.contains(root_addr(d)));
}

/// Two node sequences of equal shapes.
pub open spec fn same_shapes(n1: Seq<Node>, n2: Seq<Node>) -> bool {
    n1.len() == n2.len() && forall|i: int|
        0 <= i < n1.len() ==> (#[trigger] n1[i]).trans@ == n2[i].trans@ && n1[i].targets@
            == n2[i].targets@ && n1[i].levels == n2[i].levels
}

proof fn lemma_same_estimate(n1: Seq<Node>, n2: Seq<Node>, st: int, i: int)
    requires
        same_shapes(n1, n2),
        i <= n1.len(),
    ensures
        estimate(n1, st, i) == estimate(n2, st, i),
    decreases i,
{
    if i > 0 {
        lemma_same_estimate(n1, n2, st, i - 1);
        assert(n1[i - 1].trans@ == n2[i - 1].trans@);
    }
}

proof fn lemma_same_stride(n1: Seq<Node>, n2: Seq<Node>, st: int, i: int, j: int)
    requires
        same_shapes(n1, n2),
        edges_ok(n1),
        0 <= i < n1.len(),
    ensures
        stride_from(n1, st, i, j) == stride_from(n2, st, i, j),
    decreases n1[i].targets@.len() - j,
{
    assert(n1[i].targets@ == n2[i].targets@);
    if 0 <= j < n1[i].targets@.len() {
        lemma_same_stride(n1, n2, st, i, j + 1);
        lemma_same_estimate(n1, n2, st, i);
        lemma_same_estimate(n1, n2, st, n1[i].targets@[j] as int);
    }
}

proof fn lemma_same_address(n1: Seq<Node>, n2: Seq<Node>, st: int, i: int)
    requires
        same_shapes(n1, n2),
        edges_ok(n1),
        i <= n1.len(),
    ensures
        address(n1, st, i) == address(n2, st, i),
    decreases i,
{
    if i > 0 {
        lemma_same_address(n1, n2, st, i - 1);
        lemma_same_stride(n1, n2, st, i - 1, 0);
        assert(n1[i - 1].trans@ == n2[i - 1].trans@);
    }
}

proof fn lemma_same_deltas(n1: Seq<Node>, n2: Seq<Node>, st: int, i: int, j: int)
    requires
        same_shapes(n1, n2),
        edges_ok(n1),
        0 <= i < n1.len(),
        j <= n1[i].targets@.len(),
    ensures
        deltas(n1, st, i, j) == deltas(n2, st, i, j),
    decreases j,
{
    if j > 0 {
        lemma_same_deltas(n1, n2, st, i, j - 1);
        assert(n1[i].targets@ == n2[i].targets@);
        lemma_same_address(n1, n2, st, i);
        lemma_same_address(n1, n2, st, n1[i].targets@[j - 1] as int);
        lemma_same_stride(n1, n2, st, i, 0);
    }
}

proof fn lemma_same_nodes_bytes(n1: Seq<Node>, n2: Seq<Node>, st: int, k: int)
    requires
        same_shapes(n1, n2),
        edges_ok(n1),
        k <= n1.len(),
    ensures
        nodes_bytes(n1, st, k) == nodes_bytes(n2, st, k),
    decreases k,
{
    if k > 0 {
        lemma_same_nodes_bytes(n1, n2, st, k - 1);
        let i = k - 1;
        assert(n1[i].trans@ == n2[i].trans@ && n1[i].targets@ == n2[i].targets@ && n1[i].levels
            == n2[i].levels);
        lemma_same_stride(n1, n2, st, i, 0);
        lemma_same_deltas(n1, n2, st, i, n1[i].targets@.len() as int);
        assert(count_bytes(n1[i]) == count_bytes(n2[i]));
        assert(lref_bytes(n1[i]) == lref_bytes(n2[i]));
        assert(header_byte(n1[i], stride_for(n1, st, i)) == header_byte(
            n2[i],
            stride_for(n2, st, i),
        ));
    }
}

/// The encoding depends on the nodes' labels, targets and level references
/// alone. Since `insert` and `compress` state their results over these
/// shapes exactly, building a trie from the same patterns in the same order
/// and encoding it yields the same blob every time.
#[verifier::rlimit(60)]
pub proof fn lemma_encoding_deterministic(
    n1: Seq<Node>,
    n2: Seq<Node>,
    levels: Seq<(usize, u8)>,
    root: int,
)
    requires
        edges_ok(n1),
        0 <= root < n1.len(),
        shapes(n1) == shapes(n2),
    ensures
        encoding(n1, levels, root) == encoding(n2, levels, root),
{
    assert(same_shapes(n1, n2)) by {
        assert(n1.len() == shapes(n1).len() && n2.len() == shapes(n2).len());
        assert forall|i: int| 0 <= i < n1.len() implies (#[trigger] n1[i]).trans@ == n2[i].trans@
            && n1[i].targets@ == n2[i].targets@ && n1[i].levels == n2[i].levels by {
            assert(shapes(n1)[i] == shapes(n2)[i]);
        }
    }
    let st = nodes_start(levels);
    assert(limits_ok(n1, levels) == limits_ok(n2, levels)) by {
        assert forall|i: int| 0 <= i < n1.len() implies n1[i].trans@.len() == n2[i].trans@.len()
            && n1[i].levels == n2[i].levels by {}
        if limits_ok(n1, levels) {
            assert forall|i: int| 0 <= i < n2.len() implies n2[i].trans@.len() < 128 by {
                assert(n1[i].trans@.len() < 128);
            }
        }
    }
    lemma_same_estimate(n1, n2, st, n1.len() as int);
    assert(strides_ok(n1, levels) == strides_ok(n2, levels)) by {
        assert forall|i: int| 0 <= i < n1.len() implies stride_for(n1, st, i) == stride_for(
            n2,
            st,
            i,
        ) by {
            lemma_same_stride(n1, n2, st, i, 0);
        }
    }
    lemma_same_address(n1, n2, st, root);
    lemma_same_nodes_bytes(n1, n2, st, n1.len() as int);
    assert(blob_of(n1, levels, root) == blob_of(n2, levels, root));
    assert(size_ok(n1, levels) == size_ok(n2, levels));
}

impl TrieBuilder {
    /// Encode the trie: the root address, the packed level table, then the
    /// nodes in order, each with deltas as narrow as the address estimates
    /// allow.
    #[verifier::rlimit(60)]
    pub fn encode(&self) -> (r: Result<Vec<u8>, EncodeError>)
        requires
            self.wf(),
        ensures
            match r {
                Ok(v) => encoding(self.nodes@, self.levels@, self.root as int) == Ok::<
                    Seq<u8>,
                    EncodeError,
                >(v@),
                Err(e) => encoding(self.nodes@, self.levels@, self.root as int) == Err::<
                    Seq<u8>,
                    EncodeError,
                >(e),
            },
    {
        let ghost nodes = self.nodes@;
        let ghost levels = self.levels@;
        if !self.check_limits() {
            return Err(EncodeError::LimitExceeded);
        }
        let estimates = match self.estimates() {
            Some(e) => e,
            None => {
                return Err(EncodeError::EncodeOverflow);
            },
        };
        proof {
            lemma_estimate_mono(nodes, nodes_start(levels), 0, nodes.len() as int);
        }
        let start: u64 = 4 + self.levels.len() as u64;
        let ghost st = start as int;
        let (addrs, strides) = match self.layout(&estimates) {
            Some(l) => l,
            None => {
                return Err(EncodeError::EncodeOverflow);
            },
        };
        let n = self.nodes.len();

        // Emit the root address, the level table and the nodes.
        let mut data: Vec<u8> = Vec::new();
        let root_addr = addrs[self.root];
        data.push((root_addr / 16777216) as u8);
        data.push(((root_addr / 65536) % 256) as u8);
        data.push(((root_addr / 256) % 256) as u8);
        data.push((root_addr % 256) as u8);
        assert(data@ =~= be32(address(nodes, st, self.root as int)));
        let ghost head = data@;
        let mut k: usize = 0;
        while k < self.levels.len()
            invariant
                levels == self.levels@,
                limits_ok(nodes, levels),
                0 <= k <= levels.len(),
                data@ == head + level_bytes(levels).take(k as int),
            decreases levels.len() - k,
        {
            let (dist, level) = self.levels[k];
            data.push(dist as u8 * 10 + level);
            assert(level_bytes(levels).take(k + 1) =~= level_bytes(levels).take(k as int).push(
                level_bytes(levels)[k as int],
            ));
            k += 1;
        }
        assert(level_bytes(levels).take(k as int) =~= level_bytes(levels));
        let ghost head = data@;
        let mut i: usize = 0;
        while i < n
            invariant
                self.wf(),
                0 <= i <= n,
                n == nodes.len(),
                nodes == self.nodes@,
                levels == self.levels@,
                limits_ok(nodes, levels),
                st == nodes_start(levels),
                start == st,
                addrs@.len() == n,
                strides@.len() == n,
                forall|m: int|
                    0 <= m < n ==> addrs@[m] as int == address(nodes, st, m) && addrs@[m] <= MAX_ADDR,
                forall|m: int| 0 <= m < n ==> strides@[m] as int == stride_for(nodes, st, m),
                forall|m: int| 0 <= m < n ==> 1 <= #[trigger] stride_for(nodes, st, m) <= 3,
                data@ == head + nodes_bytes(nodes, st, i as int),
            decreases n - i,
        {
            let mut chunk = self.encode_node(i, strides[i], start, &addrs);
            data.append(&mut chunk);
            i += 1;
        }
        Ok(data)
    }

    /// Whether every field fits the format.
    fn check_limits(&self) -> (r: bool)
        ensures
            r == limits_ok(self.nodes@, self.levels@),
    {
        let ghost nodes = self.nodes@;
        let ghost levels = self.levels@;
        let n = self.nodes.len();
        let mut k: usize = 0;
        while k < self.levels.len()
            invariant
                0 <= k <= levels.len(),
                levels == self.levels@,
                forall|m: int| 0 <= m < k ==> levels[m].0 <= 24 && levels[m].1 < 10,
            decreases levels.len() - k,
        {
            if self.levels[k].0 > 24 || self.levels[k].1 >= 10 {
                return false;
            }
            k += 1;
        }
        let mut i: usize = 0;
        while i < n
            invariant
                0 <= i <= n,
                n == nodes.len(),
                nodes == self.nodes@,
                forall|m: int|
                    #![trigger nodes[m]]
                    0 <= m < i ==> nodes[m].trans@.len() < 128 && match nodes[m].levels {
                        Some(r) => 4 + r.0 < 4096 && r.1 < 16,
                        None => true,
                    },
            decreases n - i,
        {
            let node = &self.nodes[i];
            if node.trans.len() >= 128 {
                return false;
            }
            match node.levels {
                Some((off, len)) => {
                    if off >= 4092 || len >= 16 {
                        return false;
                    }
                },
                None => {},
            }
            i += 1;
        }
        true
    }

    /// Address estimates of all nodes, with three-byte deltas everywhere;
    /// `None` when the blob would not be addressable.
    #[verifier::rlimit(60)]
    fn estimates(&self) -> (r: Option<Vec<u64>>)
        requires
            limits_ok(self.nodes@, self.levels@),
        ensures
            r is None <==> !size_ok(self.nodes@, self.levels@),
            r matches Some(e) ==> e@.len() == self.nodes@.len() && forall|m: int|
                0 <= m < e@.len() ==> e@[m] as int == estimate(
                    self.nodes@,
                    nodes_start(self.levels@),
                    m,
                ) && e@[m] <= MAX_ADDR,
    {
        let ghost nodes = self.nodes@;
        let ghost st = nodes_start(self.levels@);
        let n = self.nodes.len();
        if self.levels.len() as u64 > MAX_ADDR - 4 {
            proof {
                lemma_estimate_mono(nodes, st, 0, n as int);
                assert(estimate(nodes, st, 0) == st);
                assert(st > MAX_ADDR);
            }
            return None;
        }
        let start: u64 = 4 + self.levels.len() as u64;
        let mut estimates: Vec<u64> = Vec::new();
        let mut addr: u64 = start;
        let mut i: usize = 0;
        while i < n
            invariant
                0 <= i <= n,
                n == nodes.len(),
                nodes == self.nodes@,
                limits_ok(nodes, self.levels@),
                st == start,
                st == nodes_start(self.levels@),
                estimates@.len() == i,
                forall|m: int|
                    0 <= m < i ==> estimates@[m] as int == estimate(nodes, st, m) && estimates@[m]
                        <= MAX_ADDR,
                addr as int == estimate(nodes, st, i as int),
                addr <= MAX_ADDR,
            decreases n - i,
        {
            estimates.push(addr);
            let size = size_of(&self.nodes[i], 3);
            if size > MAX_ADDR - addr {
                proof {
                    lemma_estimate_mono(nodes, st, i + 1, n as int);
                    assert(estimate(nodes, st, i + 1) > MAX_ADDR);
                    assert(!size_ok(nodes, self.levels@));
                }
                return None;
            }
            addr += size;
            i += 1;
        }
        Some(estimates)
    }

    /// Strides and final addresses of all nodes; `None` when some delta
    /// needs more than three bytes.
    #[verifier::rlimit(60)]
    fn layout(&self, estimates: &Vec<u64>) -> (r: Option<(Vec<u64>, Vec<u64>)>)
        requires
            self.wf(),
            limits_ok(self.nodes@, self.levels@),
            size_ok(self.nodes@, self.levels@),
            estimates@.len() == self.nodes@.len(),
            forall|m: int|
                0 <= m < estimates@.len() ==> estimates@[m] as int == estimate(
                    self.nodes@,
                    nodes_start(self.levels@),
                    m,
                ) && estimates@[m] <= MAX_ADDR,
        ensures
            r is None <==> !strides_ok(self.nodes@, self.levels@),
            r matches Some(l) ==> {
                let st = nodes_start(self.levels@);
                &&& l.0@.len() == self.nodes@.len()
                &&& l.1@.len() == self.nodes@.len()
                &&& forall|m: int|
                    0 <= m < l.0@.len() ==> l.0@[m] as int == address(self.nodes@, st, m)
                        && l.0@[m] <= MAX_ADDR
                &&& forall|m: int| 0 <= m < l.1@.len() ==> l.1@[m] as int == stride_for(self.nodes@, st, m)
                &&& forall|m: int| 0 <= m < l.1@.len() ==> 1 <= #[trigger] stride_for(self.nodes@, st, m) <= 3
            },
    {
        let ghost nodes = self.nodes@;
        let ghost st = nodes_start(self.levels@);
        let n = self.nodes.len();
        proof {
            lemma_estimate_mono(nodes, st, 0, n as int);
        }
        let start: u64 = 4 + self.levels.len() as u64;
        let mut addrs: Vec<u64> = Vec::new();
        let mut strides: Vec<u64> = Vec::new();
        let mut addr: u64 = start;
        let mut i: usize = 0;
        while i < n
            invariant
                self.wf(),
                0 <= i <= n,
                n == nodes.len(),
                nodes == self.nodes@,
                limits_ok(nodes, self.levels@),
                size_ok(nodes, self.levels@),
                st == nodes_start(self.levels@),
                estimates@.len() == n,
                forall|m: int|
                    0 <= m < n ==> estimates@[m] as int == estimate(nodes, st, m) && estimates@[m]
                        <= MAX_ADDR,
                addrs@.len() == i,
                strides@.len() == i,
                forall|m: int|
                    0 <= m < i ==> addrs@[m] as int == address(nodes, st, m) && addrs@[m] <= MAX_ADDR,
                forall|m: int| 0 <= m < i ==> strides@[m] as int == stride_for(nodes, st, m),
                forall|m: int| 0 <= m < i ==> 1 <= #[trigger] stride_for(nodes, st, m) <= 3,
                addr as int == address(nodes, st, i as int),
                addr <= MAX_ADDR,
            decreases n - i,
        {
            let node = &self.nodes[i];
            let mut stride: u64 = 1;
            let mut j: usize = node.targets.len();
            while j > 0
                invariant
                    self.wf(),
                    i < n,
                    n == nodes.len(),
                    nodes == self.nodes@,
                    node == nodes[i as int],
                    st == nodes_start(self.levels@),
                    estimates@.len() == n,
                    forall|m: int|
                        0 <= m < n ==> estimates@[m] as int == estimate(nodes, st, m)
                            && estimates@[m] <= MAX_ADDR,
                    0 <= j <= node.targets@.len(),
                    stride as int == stride_from(nodes, st, i as int, j as int),
                    stride <= 3,
                decreases j,
            {
                j -= 1;
                let t = node.targets[j];
                let delta = estimates[t] as i64 - estimates[i] as i64;
                match how_many_bytes(delta) {
                    Some(b) => {
                        if b > stride {
                            stride = b;
                        }
                    },
                    None => {
                        proof {
                            lemma_stride_from(nodes, st, i as int, j as int);
                            assert(stride_for(nodes, st, i as int) > 3);
                            assert(!strides_ok(nodes, self.levels@));
                        }
                        return None;
                    },
                }
            }
            proof {
                lemma_stride_from_floor(nodes, st, i as int, 0);
            }
            addrs.push(addr);
            strides.push(stride);
            proof {
                lemma_address_within(nodes, st, 0, i + 1);
                lemma_estimate_mono(nodes, st, i + 1, n as int);
            }
            addr += size_of(node, stride);
            i += 1;
        }
        Some((addrs, strides))
    }

    /// Encode node `i` at its final address.
    #[verifier::rlimit(60)]
    fn encode_node(&self, i: usize, stride: u64, start: u64, addrs: &Vec<u64>) -> (r: Vec<u8>)
        requires
            self.wf(),
            limits_ok(self.nodes@, self.levels@),
            i < self.nodes@.len(),
            start == nodes_start(self.levels@),
            addrs@.len() == self.nodes@.len(),
            forall|m: int|
                0 <= m < addrs@.len() ==> addrs@[m] as int == address(self.nodes@, start as int, m)
                    && addrs@[m] <= MAX_ADDR,
            forall|m: int|
                0 <= m < self.nodes@.len() ==> 1 <= #[trigger] stride_for(self.nodes@, start as int, m) <= 3,
            stride == stride_for(self.nodes@, start as int, i as int),
        ensures
            r@ == node_bytes(self.nodes@, start as int, i as int),
    {
        let ghost nodes = self.nodes@;
        let n = &self.nodes[i];
        let count = n.trans.len();
        let mut out: Vec<u8> = Vec::new();
        let has: u64 = if n.levels.is_some() { 128 } else { 0 };
        let low: u64 = if count >= 31 { 31 } else { count as u64 };
        out.push((has + stride * 32 + low) as u8);
        if count >= 31 {
            out.push(count as u8);
        }
        match n.levels {
            Some((off, len)) => {
                let o = 4 + off;
                out.push((o / 16) as u8);
                out.push(((o % 16) * 16 + len) as u8);
            },
            None => {},
        }
        let ghost prefix = seq![header_byte(*n, stride as int)] + count_bytes(*n) + lref_bytes(*n);
        assert(out@ =~= prefix);
        let mut j: usize = 0;
        while j < count
            invariant
                count == n.trans@.len(),
                0 <= j <= count,
                out@ == prefix + n.trans@.take(j as int),
            decreases count - j,
        {
            out.push(n.trans[j]);
            assert(n.trans@.take(j + 1) =~= n.trans@.take(j as int).push(n.trans@[j as int]));
            j += 1;
        }
        assert(n.trans@.take(count as int) =~= n.trans@);
        let mut j: usize = 0;
        while j < count
            invariant
                self.wf(),
                nodes == self.nodes@,
                n == nodes[i as int],
                i < nodes.len(),
                count == n.targets@.len(),
                addrs@.len() == nodes.len(),
                forall|m: int|
                    0 <= m < addrs@.len() ==> addrs@[m] as int == address(nodes, start as int, m)
                        && addrs@[m] <= MAX_ADDR,
                forall|m: int|
                    0 <= m < nodes.len() ==> 1 <= #[trigger] stride_for(nodes, start as int, m) <= 3,
                stride == stride_for(nodes, start as int, i as int),
                0 <= j <= count,
                out@ == prefix + n.trans@ + deltas(nodes, start as int, i as int, j as int),
            decreases count - j,
        {
            let t = n.targets[j];
            let delta = addrs[t] as i64 - addrs[i] as i64;
            proof {
                lemma_delta_fits(nodes, start as int, i as int, t as int);
                lemma_stride_from(nodes, start as int, i as int, j as int);
            }
            to_be_bytes(&mut out, delta, stride);
            j += 1;
        }
        out
    }
}

} // verus!
